//! A 9×9 Sudoku board and a backtracking solver, with machine-checked contracts.
//!
//! [`Sudoku`] holds the board. [`grid`] is the mathematical vocabulary in which
//! every contract is phrased: a board is viewed as a sequence of nine rows of
//! nine digits, and the rules of the game are predicates over such sequences.
//!
//! - [`board`]: the board, its cells, and the placement rule;
//! - [`candidates`]: the digits that may still go into a cell;
//! - [`search`]: the backtracking search over a list of empty cells;
//! - [`solver`]: solving a whole puzzle;
//! - [`parse`] and [`render`]: boards from text and as text;
//! - [`shell`]: the command language of an interactive session;
//! - [`laws`]: what holds of all of these, whatever the puzzle.
pub mod grid;
pub mod board;
pub mod candidates;
pub mod search;
pub mod solver;
pub mod laws;
pub mod parse;
pub mod render;
pub mod shell;

pub use board::Sudoku;
