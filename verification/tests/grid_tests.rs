use sudokusolve::parse_grid;
use sudokusolve::grid::same_unit_cells;
use sudokusolve::Sudoku;

const PUZZLE: &str = "530070000600195000098000060800060003400803001700020006060000280000419005000080079";

#[test]
fn parse_grid_reads_digits() {
    let g = parse_grid(PUZZLE);
    assert_eq!(g.len(), 81);
    assert_eq!(g[0], 5);
    assert_eq!(g[1], 3);
    assert_eq!(g[2], 0);
    assert_eq!(g[4], 7);
    assert_eq!(g[80], 9);
}

#[test]
fn parse_grid_treats_zero_and_nondigits_as_empty() {
    let g = parse_grid("53..7....0a9!");
    assert_eq!(g[0], 5);
    assert_eq!(g[1], 3);
    assert_eq!(g[2], 0);
    assert_eq!(g[3], 0);
    assert_eq!(g[4], 7);
    assert_eq!(g[9], 0);
    assert_eq!(g[10], 0);
    assert_eq!(g[11], 9);
    assert_eq!(g[12], 0);
}

#[test]
fn parse_grid_short_string_leaves_rest_empty() {
    let g = parse_grid("12");
    assert_eq!(g.len(), 81);
    assert_eq!(g[0], 1);
    assert_eq!(g[1], 2);
    for i in 2..81 {
        assert_eq!(g[i], 0);
    }
}

#[test]
fn parse_grid_empty_string_gives_empty_grid() {
    let g = parse_grid("");
    assert_eq!(g.len(), 81);
    assert!(g.iter().all(|&v| v == 0));
}

#[test]
fn parse_grid_ignores_characters_past_81() {
    let mut long = String::new();
    for _ in 0..81 {
        long.push('1');
    }
    long.push_str("999");
    let g = parse_grid(&long);
    assert_eq!(g.len(), 81);
    assert!(g.iter().all(|&v| v == 1));
}

#[test]
fn is_available_excludes_row_column_and_block() {
    let mut cells = vec![0u8; 81];
    cells[0] = 5;
    let s = Sudoku::new(cells);
    assert!(!s.is_available(0, 4, 5), "5 already sits in row 0");
    assert!(!s.is_available(4, 0, 5), "5 already sits in column 0");
    assert!(!s.is_available(1, 1, 5), "5 already sits in the top-left block");
    assert!(s.is_available(4, 4, 5), "no 5 shares a unit with (4, 4)");
    assert!(s.is_available(0, 4, 6), "6 appears nowhere");
}

#[test]
fn check_consistent_accepts_a_legal_grid() {
    let s = Sudoku::new(parse_grid(PUZZLE));
    assert!(s.check_consistent());
}

#[test]
fn check_consistent_rejects_a_row_clash() {
    let mut cells = vec![0u8; 81];
    cells[0] = 5;
    cells[8] = 5;
    let s = Sudoku::new(cells);
    assert!(!s.check_consistent());
}

#[test]
fn check_consistent_rejects_a_block_clash() {
    let mut cells = vec![0u8; 81];
    cells[0] = 7;
    cells[10] = 7;
    let s = Sudoku::new(cells);
    assert!(!s.check_consistent());
}

#[test]
fn new_records_givens() {
    let s = Sudoku::new(parse_grid(PUZZLE));
    assert_eq!(s.cell(0, 0), 5);
    assert!(s.is_given(0, 0));
    assert_eq!(s.cell(0, 2), 0);
    assert!(!s.is_given(0, 2));
}

#[test]
fn assign_and_retract_mutate_one_cell() {
    let mut s = Sudoku::new(vec![0u8; 81]);
    s.assign(3, 4, 8);
    assert_eq!(s.cell(3, 4), 8);
    assert!(!s.is_given(3, 4), "assignment does not make a cell given");
    s.retract(3, 4);
    assert_eq!(s.cell(3, 4), 0);
}

#[test]
fn snapshot_copies_current_cells() {
    let mut s = Sudoku::new(vec![0u8; 81]);
    s.assign(0, 0, 9);
    let snap = s.snapshot();
    assert_eq!(snap.len(), 81);
    assert_eq!(snap[0], 9);
    assert!(snap[1..].iter().all(|&v| v == 0));
}

#[test]
fn same_unit_cells_matches_rows_columns_blocks() {
    assert!(same_unit_cells(0, 8), "same row");
    assert!(same_unit_cells(0, 72), "same column");
    assert!(same_unit_cells(0, 20), "same block");
    assert!(!same_unit_cells(0, 40), "no shared unit");
}
