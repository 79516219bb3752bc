use sudokusolve::backtrack;
use sudokusolve::parse_grid;
use sudokusolve::Sudoku;
use sudokusolve::SudokuError;

const PUZZLE: &str = "530070000600195000098000060800060003400803001700020006060000280000419005000080079";
const SOLUTION: &str =
    "534678912672195348198342567859761423426853791713924856961537284287419635345286179";

/// Checks that every row, column, and 3x3 block of `g` contains each of
/// 1..=9 exactly once.
fn assert_valid_complete(g: &[u8]) {
    assert_eq!(g.len(), 81);
    for v in 1..=9u8 {
        for u in 0..9usize {
            let row_count = (0..9).filter(|&i| g[u * 9 + i] == v).count();
            let col_count = (0..9).filter(|&i| g[i * 9 + u] == v).count();
            let block_count = (0..9)
                .filter(|&i| g[((u / 3) * 3 + i / 3) * 9 + (u % 3) * 3 + i % 3] == v)
                .count();
            assert_eq!(row_count, 1, "digit {} appears {} times in row {}", v, row_count, u);
            assert_eq!(col_count, 1, "digit {} appears {} times in column {}", v, col_count, u);
            assert_eq!(block_count, 1, "digit {} appears {} times in block {}", v, block_count, u);
        }
    }
}

#[test]
fn classic_puzzle_yields_its_unique_solution() {
    let mut s = Sudoku::new(parse_grid(PUZZLE));
    let solved = s.solve().expect("the classic puzzle is solvable");
    assert_eq!(solved, parse_grid(SOLUTION));
    assert_valid_complete(&solved);
}

#[test]
fn solution_keeps_every_given_cell() {
    let input = parse_grid(PUZZLE);
    let mut s = Sudoku::new(input.clone());
    let solved = s.solve().expect("the classic puzzle is solvable");
    for i in 0..81 {
        if input[i] != 0 {
            assert_eq!(solved[i], input[i], "given cell {} changed", i);
        }
    }
}

#[test]
fn complete_grid_comes_back_unchanged() {
    let full = parse_grid(SOLUTION);
    let mut s = Sudoku::new(full.clone());
    let solved = s.solve().expect("a complete valid grid solves trivially");
    assert_eq!(solved, full);
}

#[test]
fn empty_grid_solves_to_some_valid_grid() {
    let mut s = Sudoku::new(vec![0u8; 81]);
    let solved = s.solve().expect("the empty grid has completions");
    assert_valid_complete(&solved);
}

#[test]
fn clashing_givens_are_reported_unsolvable() {
    let mut cells = vec![0u8; 81];
    cells[0] = 5;
    cells[5] = 5;
    let mut s = Sudoku::new(cells);
    match s.solve() {
        Ok(_) => panic!("a grid with two 5s in one row must not solve"),
        Err(e) => assert_eq!(e, SudokuError::ImpossibleToSolve),
    }
    assert_eq!(s.cell(0, 0), 5, "the grid is left untouched on failure");
    assert_eq!(s.cell(0, 5), 5);
    assert_eq!(s.cell(0, 1), 0);
}

#[test]
fn unsolvable_but_consistent_grid_is_reported() {
    // Rows 0 and 1 leave no candidate for cell (1, 0): its row already holds
    // 4..=9 and its block already holds 1, 2, 3.
    let mut cells = vec![0u8; 81];
    let row0 = [1u8, 2, 3, 0, 0, 0, 0, 0, 0];
    let row1 = [0u8, 0, 0, 4, 5, 6, 7, 8, 9];
    for i in 0..9 {
        cells[i] = row0[i];
        cells[9 + i] = row1[i];
    }
    let mut s = Sudoku::new(cells);
    assert!(s.check_consistent(), "the givens themselves do not clash");
    assert_eq!(s.solve().unwrap_err(), SudokuError::ImpossibleToSolve);
}

#[test]
fn repeated_solves_are_identical() {
    let mut a = Sudoku::new(parse_grid(PUZZLE));
    let mut b = Sudoku::new(parse_grid(PUZZLE));
    assert_eq!(a.solve().expect("solvable"), b.solve().expect("solvable"));

    let mut c = Sudoku::new(vec![0u8; 81]);
    let mut d = Sudoku::new(vec![0u8; 81]);
    assert_eq!(c.solve().expect("solvable"), d.solve().expect("solvable"));
}

#[test]
fn backtrack_fills_the_grid_in_place() {
    let mut s = Sudoku::new(parse_grid(PUZZLE));
    assert!(backtrack(&mut s, 0));
    assert_eq!(s.snapshot(), parse_grid(SOLUTION));
}

#[test]
fn backtrack_restores_the_grid_on_failure() {
    // Same dead-end layout as above: consistent givens, no completion.
    let mut cells = vec![0u8; 81];
    let row0 = [1u8, 2, 3, 0, 0, 0, 0, 0, 0];
    let row1 = [0u8, 0, 0, 4, 5, 6, 7, 8, 9];
    for i in 0..9 {
        cells[i] = row0[i];
        cells[9 + i] = row1[i];
    }
    let mut s = Sudoku::new(cells.clone());
    assert!(!backtrack(&mut s, 0));
    assert_eq!(s.snapshot(), cells);
}

#[test]
fn empty_cells_in_solution_are_not_marked_given() {
    let mut s = Sudoku::new(parse_grid(PUZZLE));
    s.solve().expect("solvable");
    assert!(s.is_given(0, 0));
    assert!(!s.is_given(0, 2), "a solver-filled cell is not a given");
    assert_ne!(s.cell(0, 2), 0, "yet it is filled after solving");
}
