//! The backtracking search. A linear cursor walks the 81 cells in row-major
//! order; at each empty cell the candidate values 1..=9 are tried in
//! ascending order, so the search — and hence which solution is found first —
//! is fully deterministic. The spec functions `solve_from` and `try_values`
//! define that search mathematically; the executable solver is proved to
//! return exactly their outcome.

use crate::grid::consistent;
use crate::grid::is_solution;
use crate::grid::lemma_pos_parts;
use crate::grid::spec_available;
use crate::grid::Sudoku;
use crate::laws::lemma_no_solution_when_failed;
use crate::laws::lemma_solve_from_sound;
use vstd::prelude::*;

verus! {

/// The outcome of the search started at cell `idx`, with every cell before
/// `idx` considered settled: the first completion found in candidate order,
/// or `None` when every branch is exhausted.
pub open spec fn solve_from(g: Seq<u8>, idx: int) -> Option<Seq<u8>>
    decreases 81 - idx, 10int,
    when 0 <= idx <= 81
{
    if idx == 81 {
        Some(g)
    } else if g[idx] != 0 {
        solve_from(g, idx + 1)
    } else {
        try_values(g, idx, 1)
    }
}

/// The outcome of trying candidates `v..=9` at the empty cell `idx`, in
/// ascending order: the first candidate whose branch completes wins.
pub open spec fn try_values(g: Seq<u8>, idx: int, v: u8) -> Option<Seq<u8>>
    decreases 81 - idx, 10 - v,
    when 0 <= idx < 81 && 1 <= v <= 10
{
    if v >= 10 {
        None
    } else if spec_available(g, idx, v) {
        match solve_from(g.update(idx, v), idx + 1) {
            Some(r) => Some(r),
            None => try_values(g, idx, (v + 1) as u8),
        }
    } else {
        try_values(g, idx, (v + 1) as u8)
    }
}

/// The outcome of solving puzzle `g`: the search result when the given
/// values are mutually consistent, and failure outright when they already
/// clash.
pub open spec fn solve_outcome(g: Seq<u8>) -> Option<Seq<u8>> {
    if consistent(g) {
        solve_from(g, 0)
    } else {
        None
    }
}

/// The one domain error: exhaustive search found no valid assignment.
#[derive(Clone, Copy, Debug, PartialEq, Eq, Structural)]
pub enum SudokuError {
    ImpossibleToSolve,
}

impl Sudoku {
    /// Solves the puzzle in place: rejects a grid whose given values already
    /// clash, then runs the backtracking search from cell 0. On success the
    /// returned cells are exactly the grid that `solve_outcome` describes — a
    /// valid complete grid keeping every given value. On failure
    /// (`solve_outcome` is `None`) the grid is left untouched.
    pub fn solve(&mut self) -> (r: Result<Vec<u8>, SudokuError>)
        requires
            old(self).wf(),
        ensures
            final(self).wf(),
            final(self).givens_view() == old(self).givens_view(),
            match r {
                Ok(sol) => {
                    &&& Some(sol@) == solve_outcome(old(self).grid_view())
                    &&& final(self).grid_view() == sol@
                    &&& is_solution(old(self).grid_view(), sol@)
                },
                Err(e) => {
                    &&& solve_outcome(old(self).grid_view()) is None
                    &&& forall|t: Seq<u8>| !is_solution(old(self).grid_view(), t)
                    &&& final(self).grid_view() == old(self).grid_view()
                    &&& e == SudokuError::ImpossibleToSolve
                },
            },
    {
        let ghost g0 = self.grid_view();
        if !self.check_consistent() {
            proof {
                lemma_no_solution_when_failed(g0);
            }
            return Err(SudokuError::ImpossibleToSolve);
        }
        proof {
            lemma_solve_from_sound(self.grid_view(), 0);
        }
        if backtrack(self, 0) {
            Ok(self.snapshot())
        } else {
            proof {
                lemma_no_solution_when_failed(g0);
            }
            Err(SudokuError::ImpossibleToSolve)
        }
    }
}

/// Backtracking search from cell `idx`. On success the grid holds the
/// completion that `solve_from` describes; on failure the grid is restored
/// exactly as it was.
pub fn backtrack(sudoku: &mut Sudoku, idx: usize) -> (found: bool)
    requires
        old(sudoku).wf(),
        idx <= 81,
    ensures
        final(sudoku).wf(),
        final(sudoku).givens_view() == old(sudoku).givens_view(),
        found == (solve_from(old(sudoku).grid_view(), idx as int) is Some),
        found ==> Some(final(sudoku).grid_view()) == solve_from(
            old(sudoku).grid_view(),
            idx as int,
        ),
        !found ==> final(sudoku).grid_view() == old(sudoku).grid_view(),
    decreases 81 - idx,
{
    if idx == 81 {
        return true;
    }
    proof {
        lemma_pos_parts(idx as int);
    }
    let row = idx / 9;
    let col = idx % 9;
    let element = sudoku.cell(row, col);
    if element != 0 {
        return backtrack(sudoku, idx + 1);
    }
    let ghost g0 = sudoku.grid_view();
    let mut i: u8 = 1;
    while i < 10
        invariant
            sudoku.wf(),
            g0 == old(sudoku).grid_view(),
            sudoku.grid_view() == g0,
            sudoku.givens_view() == old(sudoku).givens_view(),
            idx < 81,
            row < 9,
            col < 9,
            idx as int == row as int * 9 + col as int,
            g0[idx as int] == 0,
            1 <= i <= 10,
            solve_from(g0, idx as int) == try_values(g0, idx as int, i),
        decreases 10 - i,
    {
        if sudoku.is_available(row, col, i) {
            sudoku.assign(row, col, i);
            proof {
                assert(sudoku.grid_view() == g0.update(idx as int, i));
            }
            if backtrack(sudoku, idx + 1) {
                return true;
            }
            sudoku.retract(row, col);
            proof {
                assert(sudoku.grid_view() =~= g0);
            }
        }
        i = i + 1;
    }
    false
}

} // verus!
