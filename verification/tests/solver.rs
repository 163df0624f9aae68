use std::collections::HashMap;
use sudoku_solver::Sudoku;

fn classic_puzzle() -> Vec<Vec<u8>> {
    vec![
        vec![0, 4, 0, 5, 0, 0, 8, 3, 7],
        vec![0, 5, 7, 9, 8, 2, 1, 6, 4],
        vec![6, 0, 0, 0, 7, 0, 2, 0, 5],
        vec![2, 6, 0, 7, 1, 4, 0, 0, 3],
        vec![0, 9, 0, 0, 0, 0, 0, 0, 1],
        vec![0, 0, 0, 6, 3, 0, 4, 5, 2],
        vec![5, 0, 9, 0, 4, 0, 3, 0, 8],
        vec![8, 2, 4, 3, 0, 0, 0, 0, 6],
        vec![1, 3, 0, 0, 0, 5, 0, 4, 9],
    ]
}

fn classic_solution() -> Vec<Vec<u8>> {
    vec![
        vec![9, 4, 2, 5, 6, 1, 8, 3, 7],
        vec![3, 5, 7, 9, 8, 2, 1, 6, 4],
        vec![6, 1, 8, 4, 7, 3, 2, 9, 5],
        vec![2, 6, 5, 7, 1, 4, 9, 8, 3],
        vec![4, 9, 3, 2, 5, 8, 6, 7, 1],
        vec![7, 8, 1, 6, 3, 9, 4, 5, 2],
        vec![5, 7, 9, 1, 4, 6, 3, 2, 8],
        vec![8, 2, 4, 3, 9, 7, 5, 1, 6],
        vec![1, 3, 6, 8, 2, 5, 7, 4, 9],
    ]
}

fn sparse_puzzle() -> Vec<Vec<u8>> {
    vec![
        vec![2, 0, 3, 0, 5, 0, 1, 0, 0],
        vec![0, 0, 0, 4, 0, 0, 0, 0, 7],
        vec![0, 9, 0, 0, 0, 0, 0, 0, 0],
        vec![0, 6, 0, 0, 8, 0, 0, 0, 0],
        vec![9, 0, 8, 0, 0, 7, 0, 0, 1],
        vec![0, 5, 0, 0, 0, 0, 9, 0, 0],
        vec![8, 0, 1, 0, 3, 0, 2, 0, 0],
        vec![0, 0, 6, 0, 0, 0, 0, 0, 0],
        vec![0, 0, 0, 0, 0, 5, 0, 3, 0],
    ]
}

fn board_of(rows: Vec<Vec<u8>>) -> Sudoku {
    let mut sudoku = Sudoku::new();
    sudoku.set_board(rows).unwrap();
    sudoku
}

fn assert_solved(rows: &Vec<Vec<u8>>) {
    for u in 0..9usize {
        for d in 1..=9u8 {
            let in_row = (0..9).filter(|&c| rows[u][c] == d).count();
            let in_column = (0..9).filter(|&r| rows[r][u] == d).count();
            let in_box = (0..9)
                .filter(|&i| rows[3 * (u / 3) + i / 3][3 * (u % 3) + i % 3] == d)
                .count();
            assert_eq!(in_row, 1);
            assert_eq!(in_column, 1);
            assert_eq!(in_box, 1);
        }
    }
}

fn assert_clues_kept(puzzle: &Vec<Vec<u8>>, rows: &Vec<Vec<u8>>) {
    for r in 0..9 {
        for c in 0..9 {
            if puzzle[r][c] != 0 {
                assert_eq!(rows[r][c], puzzle[r][c]);
            }
        }
    }
}

#[test]
fn solve_sudoku() {
    let mut sudoku = Sudoku::new();

    sudoku
        .set_board(vec![
            vec![0, 4, 0, 5, 0, 0, 8, 3, 7],
            vec![0, 5, 7, 9, 8, 2, 1, 6, 4],
            vec![6, 0, 0, 0, 7, 0, 2, 0, 5],
            vec![2, 6, 0, 7, 1, 4, 0, 0, 3],
            vec![0, 9, 0, 0, 0, 0, 0, 0, 1],
            vec![0, 0, 0, 6, 3, 0, 4, 5, 2],
            vec![5, 0, 9, 0, 4, 0, 3, 0, 8],
            vec![8, 2, 4, 3, 0, 0, 0, 0, 6],
            vec![1, 3, 0, 0, 0, 5, 0, 4, 9],
        ])
        .unwrap();

    sudoku.solve();

    assert_eq!(
        *sudoku.rows(),
        vec![
            vec![9, 4, 2, 5, 6, 1, 8, 3, 7],
            vec![3, 5, 7, 9, 8, 2, 1, 6, 4],
            vec![6, 1, 8, 4, 7, 3, 2, 9, 5],
            vec![2, 6, 5, 7, 1, 4, 9, 8, 3],
            vec![4, 9, 3, 2, 5, 8, 6, 7, 1],
            vec![7, 8, 1, 6, 3, 9, 4, 5, 2],
            vec![5, 7, 9, 1, 4, 6, 3, 2, 8],
            vec![8, 2, 4, 3, 9, 7, 5, 1, 6],
            vec![1, 3, 6, 8, 2, 5, 7, 4, 9],
        ]
    )
}

#[test]
fn actual_sudoku() {
    let mut sudoku = Sudoku::new();

    sudoku
        .set_board(vec![
            vec![2, 0, 3, 0, 5, 0, 1, 0, 0],
            vec![0, 0, 0, 4, 0, 0, 0, 0, 7],
            vec![0, 9, 0, 0, 0, 0, 0, 0, 0],
            vec![0, 6, 0, 0, 8, 0, 0, 0, 0],
            vec![9, 0, 8, 0, 0, 7, 0, 0, 1],
            vec![0, 5, 0, 0, 0, 0, 9, 0, 0],
            vec![8, 0, 1, 0, 3, 0, 2, 0, 0],
            vec![0, 0, 6, 0, 0, 0, 0, 0, 0],
            vec![0, 0, 0, 0, 0, 5, 0, 3, 0],
        ])
        .unwrap();

    println!("{}", sudoku.render());

    sudoku.solve();

    println!("{}", sudoku.render());
}

#[test]
fn solve_reports_success_on_the_classic_puzzle() {
    let mut sudoku = board_of(classic_puzzle());
    assert!(sudoku.solve());
    assert_eq!(*sudoku.rows(), classic_solution());
}

#[test]
fn solved_board_has_every_digit_once_in_every_unit() {
    let mut sudoku = board_of(classic_puzzle());
    assert!(sudoku.solve());
    assert_solved(sudoku.rows());
    assert_clues_kept(&classic_puzzle(), sudoku.rows());
}

#[test]
fn sparse_puzzle_solves_to_a_valid_board() {
    let mut sudoku = board_of(sparse_puzzle());
    if sudoku.solve() {
        assert_solved(sudoku.rows());
        assert_clues_kept(&sparse_puzzle(), sudoku.rows());
    } else {
        assert_eq!(*sudoku.rows(), sparse_puzzle());
    }
}

#[test]
fn one_empty_cell_is_filled_with_the_missing_digit() {
    let mut rows = classic_solution();
    rows[0][0] = 0;
    let mut sudoku = board_of(rows);
    assert!(sudoku.solve());
    assert_eq!(sudoku.get(0, 0), 9);
    assert_eq!(*sudoku.rows(), classic_solution());
}

#[test]
fn empty_board_solves_to_the_first_grid_in_reading_order() {
    let mut sudoku = Sudoku::new();
    assert!(sudoku.solve());
    assert_eq!(
        *sudoku.rows(),
        vec![
            vec![1, 2, 3, 4, 5, 6, 7, 8, 9],
            vec![4, 5, 6, 7, 8, 9, 1, 2, 3],
            vec![7, 8, 9, 1, 2, 3, 4, 5, 6],
            vec![2, 1, 4, 3, 6, 5, 8, 9, 7],
            vec![3, 6, 5, 8, 9, 7, 2, 1, 4],
            vec![8, 9, 7, 2, 1, 4, 3, 6, 5],
            vec![5, 3, 1, 6, 4, 2, 9, 7, 8],
            vec![6, 4, 2, 9, 7, 8, 5, 3, 1],
            vec![9, 7, 8, 5, 3, 1, 6, 4, 2],
        ]
    );
    assert_solved(sudoku.rows());
}

#[test]
fn cell_without_candidates_makes_solve_fail() {
    let mut rows = vec![vec![0u8; 9]; 9];
    rows[0] = vec![1, 2, 3, 4, 5, 6, 7, 8, 0];
    rows[1][8] = 9;
    let mut sudoku = board_of(rows.clone());
    assert!(!sudoku.solve());
    assert_eq!(*sudoku.rows(), rows);
}

#[test]
fn failed_search_restores_the_board_after_backtracking() {
    // The last two cells of the first row must both take 9: every attempt to
    // fill the cells before them is made and taken back.
    let mut rows = vec![vec![0u8; 9]; 9];
    rows[0] = vec![0, 0, 0, 4, 5, 6, 7, 0, 0];
    rows[1] = vec![0, 0, 0, 0, 0, 0, 1, 2, 3];
    rows[2] = vec![0, 0, 0, 0, 0, 0, 4, 5, 6];
    rows[3][7] = 8;
    rows[3][8] = 8;
    let mut sudoku = board_of(rows.clone());
    assert!(!sudoku.solve());
    assert_eq!(*sudoku.rows(), rows);
}

#[test]
fn contradictory_clues_with_empty_cells_fail_and_stay() {
    let mut rows = classic_puzzle();
    rows[0][1] = 5;
    let mut sudoku = board_of(rows.clone());
    let solved = sudoku.solve();
    if !solved {
        assert_eq!(*sudoku.rows(), rows);
    } else {
        assert_clues_kept(&rows, sudoku.rows());
    }
}

#[test]
fn full_board_solves_at_once_whatever_it_holds() {
    let rows = vec![vec![5u8; 9]; 9];
    let mut sudoku = board_of(rows.clone());
    assert!(sudoku.solve());
    assert_eq!(*sudoku.rows(), rows);
}

#[test]
fn solve_is_deterministic() {
    let mut first = board_of(classic_puzzle());
    let mut second = Sudoku::new();
    for (r, row) in classic_puzzle().iter().enumerate() {
        for (c, d) in row.iter().enumerate() {
            second.set_value(r, c, *d);
        }
    }
    assert_eq!(first, second);
    assert_eq!(first.solve(), second.solve());
    assert_eq!(first, second);

    let mut third = Sudoku::new();
    let mut fourth = Sudoku::new();
    assert_eq!(third.solve(), fourth.solve());
    assert_eq!(third, fourth);
}

#[test]
fn solving_again_changes_nothing() {
    let mut sudoku = board_of(classic_puzzle());
    assert!(sudoku.solve());
    let once = sudoku.rows().clone();
    assert!(sudoku.solve());
    assert_eq!(*sudoku.rows(), once);

    let mut rows = vec![vec![0u8; 9]; 9];
    rows[0] = vec![1, 2, 3, 4, 5, 6, 7, 8, 0];
    rows[1][8] = 9;
    let mut stuck = board_of(rows.clone());
    assert!(!stuck.solve());
    assert!(!stuck.solve());
    assert_eq!(*stuck.rows(), rows);
}

#[test]
fn find_valid_numbers_at_lists_what_the_units_lack() {
    let sudoku = board_of(classic_puzzle());
    assert_eq!(sudoku.find_valid_numbers_at(0, 0), vec![9]);
    assert_eq!(sudoku.find_valid_numbers_at(0, 2), vec![1, 2]);
    assert_eq!(sudoku.find_valid_numbers_at(4, 4), vec![2, 5]);
    assert_eq!(Sudoku::new().find_valid_numbers_at(3, 3), vec![1, 2, 3, 4, 5, 6, 7, 8, 9]);
}

#[test]
fn find_valid_numbers_at_a_filled_cell_leaves_its_digit_out() {
    let mut sudoku = Sudoku::new();
    sudoku.set_value(0, 0, 4);
    assert_eq!(sudoku.find_valid_numbers_at(0, 0), vec![1, 2, 3, 5, 6, 7, 8, 9]);
}

#[test]
fn find_valid_numbers_for_maps_each_listed_cell() {
    let sudoku = board_of(classic_puzzle());
    let list = sudoku.find_empty_positions();
    let numbers = sudoku.find_valid_numbers_for(&list);
    assert_eq!(numbers.len(), list.len());
    for (r, c) in &list {
        let digits = numbers.get(&(9 * r + c)).unwrap();
        assert_eq!(*digits, sudoku.find_valid_numbers_at(*r, *c));
        for d in 1..=9u8 {
            assert_eq!(digits.contains(&d), sudoku.check_if_n_valid(*r, *c, d));
        }
    }
    assert_eq!(numbers.get(&0), Some(&vec![9]));
    assert_eq!(numbers.get(&2), Some(&vec![1, 2]));
    assert_eq!(numbers.get(&1), None);
}

#[test]
fn find_valid_numbers_for_keeps_cells_without_candidates() {
    let mut rows = vec![vec![0u8; 9]; 9];
    rows[0] = vec![1, 2, 3, 4, 5, 6, 7, 8, 0];
    rows[1][8] = 9;
    let sudoku = board_of(rows);
    let numbers = sudoku.find_valid_numbers_for(&vec![(0, 8)]);
    assert_eq!(numbers.len(), 1);
    assert_eq!(numbers.get(&8), Some(&Vec::new()));
}

#[test]
fn find_valid_numbers_for_an_empty_list() {
    let numbers = Sudoku::new().find_valid_numbers_for(&Vec::new());
    assert!(numbers.is_empty());
}

#[test]
fn solve_recursive_with_no_cells_succeeds() {
    let mut sudoku = board_of(classic_puzzle());
    assert!(sudoku.solve_recursive(&[], &HashMap::new()));
    assert_eq!(*sudoku.rows(), classic_puzzle());
}

#[test]
fn solve_recursive_fills_only_the_listed_cells() {
    let mut sudoku = board_of(classic_puzzle());
    let list = vec![(0, 0), (0, 2)];
    let numbers = sudoku.find_valid_numbers_for(&list);
    assert!(sudoku.solve_recursive(&list, &numbers));
    let mut expected = classic_puzzle();
    expected[0][0] = 9;
    expected[0][2] = 1;
    assert_eq!(*sudoku.rows(), expected);
}

#[test]
fn solve_recursive_takes_the_cells_in_the_order_listed() {
    let mut sudoku = Sudoku::new();
    let list = vec![(0, 1), (0, 0)];
    let numbers = sudoku.find_valid_numbers_for(&list);
    assert!(sudoku.solve_recursive(&list, &numbers));
    assert_eq!(sudoku.get(0, 1), 1);
    assert_eq!(sudoku.get(0, 0), 2);
}

#[test]
fn solve_recursive_tries_only_the_candidates_given() {
    let mut sudoku = Sudoku::new();
    let list = vec![(0, 0), (0, 1)];
    let mut numbers: HashMap<usize, Vec<u8>> = HashMap::new();
    numbers.insert(0, vec![3, 7]);
    numbers.insert(1, vec![3]);
    assert!(sudoku.solve_recursive(&list, &numbers));
    assert_eq!(sudoku.get(0, 0), 7);
    assert_eq!(sudoku.get(0, 1), 3);
}

#[test]
fn solve_recursive_fails_on_a_cell_without_an_entry() {
    let mut sudoku = Sudoku::new();
    let list = vec![(0, 0), (5, 5)];
    let mut numbers: HashMap<usize, Vec<u8>> = HashMap::new();
    numbers.insert(0, vec![1, 2]);
    assert!(!sudoku.solve_recursive(&list, &numbers));
    assert_eq!(*sudoku.rows(), vec![vec![0u8; 9]; 9]);
}
