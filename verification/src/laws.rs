//! The solver's laws: soundness (whatever the search returns is a valid
//! completion of the puzzle), completeness (a solvable puzzle is solved),
//! and their consequences — a unique solution is found exactly, a full valid
//! grid comes back unchanged, clashing givens are unsolvable, the outcome is
//! a function of the input alone, and every unit of a completed grid holds
//! each digit exactly once.

use crate::grid::block_cell;
use crate::grid::col_cell;
use crate::grid::consistent;
use crate::grid::extends;
use crate::grid::is_solution;
use crate::grid::lemma_block_cell_injective;
use crate::grid::lemma_block_cell_parts;
use crate::grid::lemma_pos_compose;
use crate::grid::row_cell;
use crate::grid::same_unit;
use crate::grid::spec_available;
use crate::grid::valid_complete;
use crate::grid::wf_grid;
use crate::solver::solve_from;
use crate::solver::solve_outcome;
use crate::solver::try_values;
use vstd::prelude::*;
use vstd::set_lib::lemma_int_range;
use vstd::set_lib::lemma_subset_equality;
use vstd::set_lib::set_int_range;

verus! {

/// Placing an available value in an empty cell keeps the grid consistent.
pub proof fn lemma_consistent_update(g: Seq<u8>, idx: int, v: u8)
    requires
        g.len() == 81,
        consistent(g),
        0 <= idx < 81,
        g[idx] == 0,
        1 <= v <= 9,
        spec_available(g, idx, v),
    ensures
        consistent(g.update(idx, v)),
{
    let g1 = g.update(idx, v);
    assert forall|p: int, q: int|
        0 <= p < 81 && 0 <= q < 81 && p != q && #[trigger] same_unit(p, q) && g1[p]
            != 0 implies g1[p] != g1[q] by {
        if p == idx {
            assert(same_unit(idx, q));
        } else if q == idx {
            assert(same_unit(idx, p));
        }
    }
}

/// Soundness of the search: whatever `solve_from` returns is a valid
/// complete grid that keeps every value already filled in.
pub proof fn lemma_solve_from_sound(g: Seq<u8>, idx: int)
    requires
        wf_grid(g),
        consistent(g),
        0 <= idx <= 81,
        forall|p: int| 0 <= p < idx ==> g[p] != 0,
    ensures
        solve_from(g, idx) matches Some(r) ==> valid_complete(r) && extends(r, g),
    decreases 81 - idx, 10int,
{
    if idx == 81 {
    } else if g[idx] != 0 {
        lemma_solve_from_sound(g, idx + 1);
    } else {
        lemma_try_sound(g, idx, 1);
    }
}

/// Soundness of the candidate scan at one empty cell.
pub proof fn lemma_try_sound(g: Seq<u8>, idx: int, v: u8)
    requires
        wf_grid(g),
        consistent(g),
        0 <= idx < 81,
        forall|p: int| 0 <= p < idx ==> g[p] != 0,
        g[idx] == 0,
        1 <= v <= 10,
    ensures
        try_values(g, idx, v) matches Some(r) ==> valid_complete(r) && extends(r, g),
    decreases 81 - idx, 10 - v,
{
    if v >= 10 {
    } else if spec_available(g, idx, v) {
        let g1 = g.update(idx, v);
        lemma_consistent_update(g, idx, v);
        lemma_solve_from_sound(g1, idx + 1);
        if solve_from(g1, idx + 1) is Some {
            let r = solve_from(g1, idx + 1)->Some_0;
            assert forall|p: int| 0 <= p < 81 && g[p] != 0 implies r[p] == g[p] by {
                assert(g1[p] == g[p]);
            }
        } else {
            lemma_try_sound(g, idx, (v + 1) as u8);
        }
    } else {
        lemma_try_sound(g, idx, (v + 1) as u8);
    }
}

/// The solution's own value for an empty cell is always available there.
pub proof fn lemma_solution_value_available(g: Seq<u8>, idx: int, s: Seq<u8>)
    requires
        g.len() == 81,
        0 <= idx < 81,
        g[idx] == 0,
        is_solution(g, s),
    ensures
        spec_available(g, idx, s[idx]),
{
    assert forall|q: int| 0 <= q < 81 && #[trigger] same_unit(idx, q) implies g[q] != s[idx] by {
        if g[q] != 0 && g[q] == s[idx] {
            assert(s[q] == g[q]);
            assert(s[idx] != s[q]);
            assert(false);
        }
    }
}

/// Completeness of the search: when a solution extending the current grid
/// exists, `solve_from` finds one.
pub proof fn lemma_solve_from_complete(g: Seq<u8>, idx: int, s: Seq<u8>)
    requires
        wf_grid(g),
        0 <= idx <= 81,
        forall|p: int| 0 <= p < idx ==> g[p] != 0,
        is_solution(g, s),
    ensures
        solve_from(g, idx) is Some,
    decreases 81 - idx, 10int,
{
    if idx == 81 {
    } else if g[idx] != 0 {
        lemma_solve_from_complete(g, idx + 1, s);
    } else {
        lemma_try_complete(g, idx, 1, s);
    }
}

/// Completeness of the candidate scan: it cannot pass the solution's own
/// value for this cell without succeeding first.
pub proof fn lemma_try_complete(g: Seq<u8>, idx: int, v: u8, s: Seq<u8>)
    requires
        wf_grid(g),
        0 <= idx < 81,
        forall|p: int| 0 <= p < idx ==> g[p] != 0,
        g[idx] == 0,
        is_solution(g, s),
        1 <= v <= s[idx],
    ensures
        try_values(g, idx, v) is Some,
    decreases 81 - idx, 10 - v,
{
    lemma_solution_value_available(g, idx, s);
    if spec_available(g, idx, v) {
        if solve_from(g.update(idx, v), idx + 1) is Some {
        } else if v == s[idx] {
            let g1 = g.update(idx, v);
            assert(extends(s, g1));
            lemma_solve_from_complete(g1, idx + 1, s);
            assert(false);
        } else {
            lemma_try_complete(g, idx, (v + 1) as u8, s);
        }
    } else {
        assert(v != s[idx]);
        lemma_try_complete(g, idx, (v + 1) as u8, s);
    }
}

/// A solvable puzzle is solved: when any valid completion of `g` exists,
/// solving returns one.
pub proof fn lemma_solvable_finds_solution(g: Seq<u8>, s: Seq<u8>)
    requires
        wf_grid(g),
        is_solution(g, s),
    ensures
        solve_outcome(g) is Some,
        is_solution(g, solve_outcome(g)->Some_0),
{
    lemma_solution_implies_consistent(g, s);
    lemma_solve_from_complete(g, 0, s);
    lemma_solve_from_sound(g, 0);
}

/// The failure report is honest: when solving fails, no solution exists.
pub proof fn lemma_no_solution_when_failed(g: Seq<u8>)
    requires
        wf_grid(g),
        solve_outcome(g) is None,
    ensures
        forall|t: Seq<u8>| !is_solution(g, t),
{
    assert forall|t: Seq<u8>| !is_solution(g, t) by {
        if is_solution(g, t) {
            lemma_solvable_finds_solution(g, t);
            assert(false);
        }
    }
}

/// A puzzle with exactly one solution is solved to exactly that solution.
pub proof fn lemma_unique_solution_found(g: Seq<u8>, s: Seq<u8>)
    requires
        wf_grid(g),
        is_solution(g, s),
        forall|t: Seq<u8>| is_solution(g, t) ==> t == s,
    ensures
        solve_outcome(g) == Some(s),
{
    lemma_solvable_finds_solution(g, s);
    let r = solve_outcome(g)->Some_0;
    assert(is_solution(g, r));
}

/// A grid already fully and validly filled is returned unchanged: the cursor
/// walks straight to the end without any candidate search.
pub proof fn lemma_filled_grid_unchanged(g: Seq<u8>)
    requires
        valid_complete(g),
    ensures
        solve_outcome(g) == Some(g),
{
    lemma_filled_from(g, 0);
}

proof fn lemma_filled_from(g: Seq<u8>, idx: int)
    requires
        valid_complete(g),
        0 <= idx <= 81,
    ensures
        solve_from(g, idx) == Some(g),
    decreases 81 - idx,
{
    if idx < 81 {
        lemma_filled_from(g, idx + 1);
    }
}

/// Given values that already clash make the puzzle unsolvable: solving
/// reports failure rather than completing a grid around the clash.
pub proof fn lemma_inconsistent_unsolvable(g: Seq<u8>)
    requires
        !consistent(g),
    ensures
        solve_outcome(g) is None,
{
}

/// Determinism: the outcome is a function of the input grid alone, so
/// repeated solves of equal grids agree in every assignment they make.
pub proof fn lemma_deterministic(g1: Seq<u8>, g2: Seq<u8>)
    requires
        g1 == g2,
    ensures
        solve_outcome(g1) == solve_outcome(g2),
{
}

/// Pigeonhole: nine cells holding pairwise-distinct digits, each in 1..=9,
/// cover every digit of 1..=9.
proof fn lemma_distinct_digits_cover(s: Seq<u8>, cells: Seq<int>, v: u8)
    requires
        s.len() == 81,
        cells.len() == 9,
        forall|i: int| 0 <= i < 9 ==> 0 <= #[trigger] cells[i] < 81,
        forall|i: int| 0 <= i < 9 ==> 1 <= #[trigger] s[cells[i]] && s[cells[i]] <= 9,
        forall|i: int, j: int|
            0 <= i < 9 && 0 <= j < 9 && i != j ==> #[trigger] s[cells[i]] != #[trigger] s[cells[j]],
        1 <= v <= 9,
    ensures
        exists|i: int| 0 <= i < 9 && #[trigger] s[cells[i]] == v,
{
    broadcast use vstd::seq_lib::seq_to_set_is_finite;

    let vals = Seq::new(9, |i: int| s[cells[i]] as int);
    assert(vals.no_duplicates());
    vals.unique_seq_to_set();
    let range = set_int_range(1, 10);
    lemma_int_range(1, 10);
    assert(vals.to_set().subset_of(range)) by {
        assert forall|x: int| vals.to_set().contains(x) implies range.contains(x) by {
            let i = choose|i: int| 0 <= i < vals.len() && vals[i] == x;
            assert(1 <= s[cells[i]] <= 9);
        }
    }
    lemma_subset_equality(vals.to_set(), range);
    assert(range.contains(v as int));
    let i = choose|i: int| 0 <= i < vals.len() && vals[i] == v as int;
    assert(s[cells[i]] == v);
}

/// Every row, every column, and every block of a valid complete grid
/// contains each digit 1..=9 exactly once: at least once here, and at most
/// once because `valid_complete` includes `consistent`.
#[verifier::rlimit(50)]
pub proof fn lemma_unit_contains_digit(s: Seq<u8>, u: int, v: u8)
    requires
        valid_complete(s),
        0 <= u < 9,
        1 <= v <= 9,
    ensures
        exists|i: int| 0 <= i < 9 && #[trigger] s[row_cell(u, i)] == v,
        exists|i: int| 0 <= i < 9 && #[trigger] s[col_cell(u, i)] == v,
        exists|i: int| 0 <= i < 9 && #[trigger] s[block_cell(u, i)] == v,
        forall|i: int, j: int|
            0 <= i < 9 && 0 <= j < 9 && i != j ==> !(#[trigger] s[row_cell(u, i)] == v
                && #[trigger] s[row_cell(u, j)] == v),
        forall|i: int, j: int|
            0 <= i < 9 && 0 <= j < 9 && i != j ==> !(#[trigger] s[col_cell(u, i)] == v
                && #[trigger] s[col_cell(u, j)] == v),
        forall|i: int, j: int|
            0 <= i < 9 && 0 <= j < 9 && i != j ==> !(#[trigger] s[block_cell(u, i)] == v
                && #[trigger] s[block_cell(u, j)] == v),
{
    let rows = Seq::new(9, |i: int| row_cell(u, i));
    let cols = Seq::new(9, |i: int| col_cell(u, i));
    let blocks = Seq::new(9, |i: int| block_cell(u, i));
    assert forall|i: int| 0 <= i < 9 implies 0 <= #[trigger] rows[i] < 81 && 0 <= #[trigger] cols[i]
        < 81 && 0 <= #[trigger] blocks[i] < 81 by {
        lemma_pos_compose(u, i);
        lemma_pos_compose(i, u);
        lemma_block_cell_parts(u, i);
    }
    assert forall|i: int, j: int|
        0 <= i < 9 && 0 <= j < 9 && i != j implies #[trigger] s[rows[i]]
        != #[trigger] s[rows[j]] by {
        lemma_pos_compose(u, i);
        lemma_pos_compose(u, j);
        assert(same_unit(row_cell(u, i), row_cell(u, j)));
    }
    assert forall|i: int, j: int|
        0 <= i < 9 && 0 <= j < 9 && i != j implies #[trigger] s[cols[i]]
        != #[trigger] s[cols[j]] by {
        lemma_pos_compose(i, u);
        lemma_pos_compose(j, u);
        assert(same_unit(col_cell(u, i), col_cell(u, j)));
    }
    assert forall|i: int, j: int|
        0 <= i < 9 && 0 <= j < 9 && i != j implies #[trigger] s[blocks[i]]
        != #[trigger] s[blocks[j]] by {
        lemma_block_cell_parts(u, i);
        lemma_block_cell_parts(u, j);
        lemma_block_cell_injective(u, i, j);
        assert(same_unit(block_cell(u, i), block_cell(u, j)));
    }
    assert forall|i: int, j: int|
        0 <= i < 9 && 0 <= j < 9 && i != j implies !(#[trigger] s[row_cell(u, i)] == v
        && #[trigger] s[row_cell(u, j)] == v) by {
        lemma_pos_compose(u, i);
        lemma_pos_compose(u, j);
        assert(same_unit(row_cell(u, i), row_cell(u, j)));
    }
    assert forall|i: int, j: int|
        0 <= i < 9 && 0 <= j < 9 && i != j implies !(#[trigger] s[col_cell(u, i)] == v
        && #[trigger] s[col_cell(u, j)] == v) by {
        lemma_pos_compose(i, u);
        lemma_pos_compose(j, u);
        assert(same_unit(col_cell(u, i), col_cell(u, j)));
    }
    assert forall|i: int, j: int|
        0 <= i < 9 && 0 <= j < 9 && i != j implies !(#[trigger] s[block_cell(u, i)] == v
        && #[trigger] s[block_cell(u, j)] == v) by {
        lemma_block_cell_parts(u, i);
        lemma_block_cell_parts(u, j);
        lemma_block_cell_injective(u, i, j);
        assert(same_unit(block_cell(u, i), block_cell(u, j)));
    }
    lemma_distinct_digits_cover(s, rows, v);
    lemma_distinct_digits_cover(s, cols, v);
    lemma_distinct_digits_cover(s, blocks, v);
    assert(exists|i: int| 0 <= i < 9 && #[trigger] s[rows[i]] == v);
    assert(exists|i: int| 0 <= i < 9 && #[trigger] s[row_cell(u, i)] == v) by {
        let i = choose|i: int| 0 <= i < 9 && #[trigger] s[rows[i]] == v;
        assert(s[row_cell(u, i)] == v);
    }
    assert(exists|i: int| 0 <= i < 9 && #[trigger] s[col_cell(u, i)] == v) by {
        let i = choose|i: int| 0 <= i < 9 && #[trigger] s[cols[i]] == v;
        assert(s[col_cell(u, i)] == v);
    }
    assert(exists|i: int| 0 <= i < 9 && #[trigger] s[block_cell(u, i)] == v) by {
        let i = choose|i: int| 0 <= i < 9 && #[trigger] s[blocks[i]] == v;
        assert(s[block_cell(u, i)] == v);
    }
}

/// A puzzle that has any solution at all has consistent givens.
pub proof fn lemma_solution_implies_consistent(g: Seq<u8>, s: Seq<u8>)
    requires
        g.len() == 81,
        is_solution(g, s),
    ensures
        consistent(g),
{
    assert forall|p: int, q: int|
        0 <= p < 81 && 0 <= q < 81 && p != q && #[trigger] same_unit(p, q) && g[p]
            != 0 implies g[p] != g[q] by {
        if g[q] != 0 {
            assert(s[p] == g[p] && s[q] == g[q]);
        }
    }
}

} // verus!
