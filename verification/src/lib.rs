//! A verified 9x9 Sudoku solver.
//!
//! The grid is a flat sequence of 81 cells in row-major order; a cell holds
//! a value in 1..=9 or 0 for "empty". The solver fills the empty cells by
//! exhaustive backtracking, visiting cells in row-major order and trying
//! candidate values in ascending order, so the search is deterministic.

pub mod grid;
pub mod laws;
pub mod solver;

pub use grid::parse_grid;
pub use grid::Sudoku;
pub use solver::backtrack;
pub use solver::SudokuError;
