//! The mathematical model of a Sudoku board and the rules of the game.
//!
//! A board is seen as a `Seq<Seq<u8>>`: nine rows of nine cells, `0` standing
//! for an empty cell. Everything here is specification; nothing is compiled.
use vstd::prelude::*;

verus! {

/// A sequence of rows is a grid when it has nine rows of nine cells each.
pub open spec fn is_grid(g: Seq<Seq<u8>>) -> bool {
    &&& g.len() == 9
    &&& forall|r: int| 0 <= r < 9 ==> (#[trigger] g[r]).len() == 9
}

/// The rows held by a vector of vectors, each seen as the sequence of its cells.
pub open spec fn grid_of(rows: Seq<Vec<u8>>) -> Seq<Seq<u8>> {
    Seq::new(rows.len(), |r: int| rows[r]@)
}

/// `(r, c)` names a cell of the board.
pub open spec fn in_range(r: int, c: int) -> bool {
    0 <= r < 9 && 0 <= c < 9
}

/// The digit held by cell `(r, c)`.
pub open spec fn cell(g: Seq<Seq<u8>>, r: int, c: int) -> u8 {
    g[r][c]
}

/// The grid `g` with cell `(r, c)` overwritten by `d`.
pub open spec fn with_cell(g: Seq<Seq<u8>>, r: int, c: int, d: u8) -> Seq<Seq<u8>> {
    g.update(r, g[r].update(c, d))
}

/// The grid whose eighty-one cells are all empty.
pub open spec fn empty_grid() -> Seq<Seq<u8>> {
    Seq::new(9, |r: int| Seq::new(9, |c: int| 0u8))
}

/// Two cells share a unit when they lie in one row, one column or one 3×3 box.
pub open spec fn same_unit(r1: int, c1: int, r2: int, c2: int) -> bool {
    r1 == r2 || c1 == c2 || (r1 / 3 == r2 / 3 && c1 / 3 == c2 / 3)
}

/// No cell in the row, the column or the box of `(r, c)` holds `d`.
///
/// The cell `(r, c)` itself belongs to all three units, so a digit that the
/// cell already holds is not a valid placement there.
pub open spec fn placement_valid(g: Seq<Seq<u8>>, r: int, c: int, d: u8) -> bool {
    forall|r2: int, c2: int|
        in_range(r2, c2) && same_unit(r, c, r2, c2) ==> #[trigger] cell(g, r2, c2) != d
}

/// The digit in cell `(r, c)` occurs nowhere else in the row, the column or the
/// box of that cell.
pub open spec fn stands_alone(g: Seq<Seq<u8>>, r: int, c: int) -> bool {
    forall|r2: int, c2: int|
        in_range(r2, c2) && same_unit(r, c, r2, c2) && (r2 != r || c2 != c) ==> #[trigger] cell(
            g,
            r2,
            c2,
        ) != cell(g, r, c)
}

/// Where a cell stands when the board is read row by row, left to right.
pub open spec fn row_major(p: (usize, usize)) -> int {
    p.0 * 9 + p.1
}

/// `list` enumerates the empty cells of `g`: each entry is an empty cell of the
/// board, the entries come in row-major order without repetition, and no empty
/// cell is left out. There is exactly one such list for a given grid.
pub open spec fn lists_empty_cells(g: Seq<Seq<u8>>, list: Seq<(usize, usize)>) -> bool {
    &&& forall|i: int|
        0 <= i < list.len() ==> {
            &&& in_range((#[trigger] list[i]).0 as int, list[i].1 as int)
            &&& cell(g, list[i].0 as int, list[i].1 as int) == 0
        }
    &&& forall|i: int, j: int|
        0 <= i < j < list.len() ==> row_major(#[trigger] list[i]) < row_major(#[trigger] list[j])
    &&& forall|r: int, c: int|
        in_range(r, c) && #[trigger] cell(g, r, c) == 0 ==> list.contains((r as usize, c as usize))
}

/// `f` completes the puzzle `g`: every clue of `g` is still in place, and
/// every cell that `g` leaves empty holds a digit from 1 to 9 that occurs
/// nowhere else in its row, column or box.
pub open spec fn is_completion(g: Seq<Seq<u8>>, f: Seq<Seq<u8>>) -> bool {
    &&& is_grid(f)
    &&& forall|r: int, c: int|
        in_range(r, c) ==> {
            &&& cell(g, r, c) != 0 ==> #[trigger] cell(f, r, c) == cell(g, r, c)
            &&& cell(g, r, c) == 0 ==> 1 <= cell(f, r, c) <= 9 && stands_alone(f, r, c)
        }
}

/// Read row by row, the grid `a` comes no later than `b` in dictionary order:
/// they are equal, or `a` has the smaller digit in the first cell where they
/// differ.
pub open spec fn row_major_le(a: Seq<Seq<u8>>, b: Seq<Seq<u8>>) -> bool {
    ||| a == b
    ||| exists|r: int, c: int|
        {
            &&& in_range(r, c)
            &&& #[trigger] cell(a, r, c) < cell(b, r, c)
            &&& forall|r2: int, c2: int|
                in_range(r2, c2) && r2 * 9 + c2 < r * 9 + c ==> #[trigger] cell(a, r2, c2) == cell(
                    b,
                    r2,
                    c2,
                )
        }
}

/// What solving the puzzle `before` amounts to: it succeeds exactly when the
/// puzzle has a completion; the board is then the completion that comes first
/// when read row by row; otherwise the board is as it was.
pub open spec fn solve_outcome(before: Seq<Seq<u8>>, solved: bool, after: Seq<Seq<u8>>) -> bool {
    &&& is_grid(after)
    &&& solved <==> exists|f: Seq<Seq<u8>>| is_completion(before, f)
    &&& solved ==> {
        &&& is_completion(before, after)
        &&& forall|f: Seq<Seq<u8>>| #[trigger] is_completion(before, f) ==> row_major_le(after, f)
    }
    &&& !solved ==> after == before
}

/// A puzzle is consistent when its clues are digits from 1 to 9 and no clue
/// occurs twice in a row, a column or a box.
pub open spec fn is_consistent(g: Seq<Seq<u8>>) -> bool {
    &&& is_grid(g)
    &&& forall|r: int, c: int|
        in_range(r, c) && #[trigger] cell(g, r, c) != 0 ==> cell(g, r, c) <= 9 && stands_alone(
            g,
            r,
            c,
        )
}

/// The three kinds of unit on a board.
pub enum UnitKind {
    Row,
    Column,
    Block,
}

/// The `i`-th cell of the `u`-th unit of a kind, both counted from 0 to 8.
/// Boxes are numbered, and the cells within a box counted, row by row.
pub open spec fn unit_cell(kind: UnitKind, u: int, i: int) -> (int, int) {
    match kind {
        UnitKind::Row => (u, i),
        UnitKind::Column => (i, u),
        UnitKind::Block => (3 * (u / 3) + i / 3, 3 * (u % 3) + i % 3),
    }
}

/// The nine digits in the `u`-th unit of a kind.
pub open spec fn unit_values(g: Seq<Seq<u8>>, kind: UnitKind, u: int) -> Seq<u8> {
    Seq::new(9, |i: int| cell(g, unit_cell(kind, u, i).0, unit_cell(kind, u, i).1))
}

/// `d` occurs in `vals`, and in one place only.
pub open spec fn holds_once(vals: Seq<u8>, d: u8) -> bool {
    &&& exists|i: int| 0 <= i < vals.len() && #[trigger] vals[i] == d
    &&& forall|i: int, j: int|
        0 <= i < vals.len() && 0 <= j < vals.len() && #[trigger] vals[i] == d && #[trigger] vals[j]
            == d ==> i == j
}

/// A solved board: every row, every column and every box holds each digit
/// from 1 to 9 exactly once.
pub open spec fn is_solved(g: Seq<Seq<u8>>) -> bool {
    &&& is_grid(g)
    &&& forall|kind: UnitKind, u: int, d: u8|
        0 <= u < 9 && 1 <= d <= 9 ==> #[trigger] holds_once(unit_values(g, kind, u), d)
}

} // verus!
