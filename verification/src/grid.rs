//! The puzzle grid: a flat, row-major sequence of 81 cells, each holding 0
//! (empty) or a digit 1..=9, together with the constraint queries the solver
//! needs ("can value v legally occupy cell (row, col) right now?").

use vstd::arithmetic::div_mod::lemma_fundamental_div_mod;
use vstd::arithmetic::div_mod::lemma_fundamental_div_mod_converse;
use vstd::arithmetic::div_mod::lemma_mod_bound;
use vstd::pervasive::VecAdditionalExecFns;
use vstd::prelude::*;
use vstd::string::StrSliceExecFns;

verus! {

/// A grid is well formed when it has exactly 81 cells, each in 0..=9.
pub open spec fn wf_grid(g: Seq<u8>) -> bool {
    &&& g.len() == 81
    &&& forall|p: int| 0 <= p < 81 ==> g[p] <= 9
}

/// Row index of flat position `p`.
pub open spec fn row_of(p: int) -> int {
    p / 9
}

/// Column index of flat position `p`.
pub open spec fn col_of(p: int) -> int {
    p % 9
}

/// Index (row-major, in 0..9) of the 3x3 block containing position `p`.
pub open spec fn block_of(p: int) -> int {
    (row_of(p) / 3) * 3 + col_of(p) / 3
}

/// Flat position of the `i`-th cell of row `r`.
pub open spec fn row_cell(r: int, i: int) -> int {
    r * 9 + i
}

/// Flat position of the `i`-th cell of column `c`.
pub open spec fn col_cell(c: int, i: int) -> int {
    i * 9 + c
}

/// Flat position of the `i`-th cell of block `b` (cells numbered row-major
/// within the block).
pub open spec fn block_cell(b: int, i: int) -> int {
    ((b / 3) * 3 + i / 3) * 9 + (b % 3) * 3 + i % 3
}

/// Two flat positions share a row, a column, or a 3x3 block.
pub open spec fn same_unit(p: int, q: int) -> bool {
    ||| row_of(p) == row_of(q)
    ||| col_of(p) == col_of(q)
    ||| block_of(p) == block_of(q)
}

/// Value `v` may be placed at position `p`: `v` appears nowhere in `p`'s
/// row, column, or block (the scan includes `p` itself, as the solver only
/// asks about empty cells).
pub open spec fn spec_available(g: Seq<u8>, p: int, v: u8) -> bool {
    forall|q: int| 0 <= q < 81 && #[trigger] same_unit(p, q) ==> g[q] != v
}

/// No two distinct cells that share a unit hold the same non-zero value.
pub open spec fn consistent(g: Seq<u8>) -> bool {
    forall|p: int, q: int|
        0 <= p < 81 && 0 <= q < 81 && p != q && #[trigger] same_unit(p, q) && g[p] != 0
            ==> g[p] != g[q]
}

/// A completely and validly filled grid: every cell holds a digit 1..=9 and
/// no digit repeats within a row, column, or block.
pub open spec fn valid_complete(g: Seq<u8>) -> bool {
    &&& g.len() == 81
    &&& forall|p: int| 0 <= p < 81 ==> 1 <= #[trigger] g[p] && g[p] <= 9
    &&& consistent(g)
}

/// `s` agrees with `g` on every cell that is filled (non-zero) in `g`.
pub open spec fn extends(s: Seq<u8>, g: Seq<u8>) -> bool {
    &&& s.len() == 81
    &&& forall|p: int| 0 <= p < 81 && g[p] != 0 ==> s[p] == g[p]
}

/// `s` is a solution of puzzle `g`: a valid complete grid that keeps all of
/// `g`'s given values.
pub open spec fn is_solution(g: Seq<u8>, s: Seq<u8>) -> bool {
    &&& valid_complete(s)
    &&& extends(s, g)
}

/// A flat position decomposes as its row times 9 plus its column.
pub proof fn lemma_pos_parts(p: int)
    requires
        0 <= p < 81,
    ensures
        p == row_of(p) * 9 + col_of(p),
        0 <= row_of(p) < 9,
        0 <= col_of(p) < 9,
{
    lemma_fundamental_div_mod(p, 9);
    lemma_mod_bound(p, 9);
}

/// A row and a column determine a flat position in range.
pub proof fn lemma_pos_compose(r: int, c: int)
    requires
        0 <= r < 9,
        0 <= c < 9,
    ensures
        0 <= r * 9 + c < 81,
        row_of(r * 9 + c) == r,
        col_of(r * 9 + c) == c,
{
    lemma_fundamental_div_mod_converse(r * 9 + c, 9, r, c);
}

/// The `i`-th cell of block `b` lies in range, inside block `b`, at the row
/// and column the block layout gives it.
pub proof fn lemma_block_cell_parts(b: int, i: int)
    requires
        0 <= b < 9,
        0 <= i < 9,
    ensures
        0 <= block_cell(b, i) < 81,
        block_of(block_cell(b, i)) == b,
        row_of(block_cell(b, i)) == (b / 3) * 3 + i / 3,
        col_of(block_cell(b, i)) == (b % 3) * 3 + i % 3,
{
    lemma_fundamental_div_mod(b, 3);
    lemma_mod_bound(b, 3);
    lemma_fundamental_div_mod(i, 3);
    lemma_mod_bound(i, 3);
    let r3 = (b / 3) * 3 + i / 3;
    let c3 = (b % 3) * 3 + i % 3;
    lemma_pos_compose(r3, c3);
    lemma_fundamental_div_mod_converse(r3, 3, b / 3, i / 3);
    lemma_fundamental_div_mod_converse(c3, 3, b % 3, i % 3);
}

/// Distinct indices name distinct cells within one block.
pub proof fn lemma_block_cell_injective(b: int, i: int, j: int)
    requires
        0 <= b < 9,
        0 <= i < 9,
        0 <= j < 9,
        i != j,
    ensures
        block_cell(b, i) != block_cell(b, j),
{
    lemma_block_cell_parts(b, i);
    lemma_block_cell_parts(b, j);
    lemma_fundamental_div_mod(i, 3);
    lemma_fundamental_div_mod(j, 3);
}

/// Each of the three scans made by `is_available` visits only in-range
/// positions that share a unit with (row, col); the block scan's `i`-th
/// position is the one the scanning code computes.
proof fn lemma_scan_positions(row: int, col: int, i: int)
    requires
        0 <= row < 9,
        0 <= col < 9,
        0 <= i < 9,
    ensures
        0 <= row_cell(row, i) < 81,
        same_unit(row * 9 + col, row_cell(row, i)),
        0 <= col_cell(col, i) < 81,
        same_unit(row * 9 + col, col_cell(col, i)),
        0 <= block_cell(block_of(row * 9 + col), i) < 81,
        same_unit(row * 9 + col, block_cell(block_of(row * 9 + col), i)),
        block_cell(block_of(row * 9 + col), i) == ((row / 3) * 3 + i / 3) * 9 + (col / 3) * 3 + i
            % 3,
{
    lemma_pos_compose(row, col);
    lemma_pos_compose(row, i);
    lemma_pos_compose(i, col);
    lemma_fundamental_div_mod(i, 3);
    lemma_mod_bound(i, 3);
    lemma_fundamental_div_mod(row, 3);
    lemma_mod_bound(row, 3);
    lemma_fundamental_div_mod(col, 3);
    lemma_mod_bound(col, 3);
    let p = row * 9 + col;
    let b = block_of(p);
    lemma_fundamental_div_mod_converse(b, 3, row / 3, col / 3);
    let r3 = (row / 3) * 3 + i / 3;
    let c3 = (col / 3) * 3 + i % 3;
    assert(block_cell(b, i) == r3 * 9 + c3);
    lemma_pos_compose(r3, c3);
    lemma_fundamental_div_mod_converse(r3, 3, row / 3, i / 3);
    lemma_fundamental_div_mod_converse(c3, 3, col / 3, i % 3);
}

/// Every position sharing a unit with (row, col) appears in one of the three
/// 9-cell scans (along the row, along the column, across the 3x3 block), so
/// a value absent from all scanned cells is absent from the whole unit.
proof fn lemma_unit_cover(g: Seq<u8>, row: int, col: int, q: int, val: u8)
    requires
        g.len() == 81,
        0 <= row < 9,
        0 <= col < 9,
        0 <= q < 81,
        same_unit(row * 9 + col, q),
        forall|i: int| 0 <= i < 9 ==> #[trigger] g[row_cell(row, i)] != val,
        forall|i: int| 0 <= i < 9 ==> #[trigger] g[col_cell(col, i)] != val,
        forall|i: int| 0 <= i < 9 ==> #[trigger] g[block_cell(block_of(row * 9 + col), i)] != val,
    ensures
        g[q] != val,
{
    lemma_pos_compose(row, col);
    lemma_pos_parts(q);
    let qr = row_of(q);
    let qc = col_of(q);
    if qr == row {
        assert(q == row_cell(row, qc));
        assert(g[row_cell(row, qc)] != val);
    } else if qc == col {
        assert(q == col_cell(col, qr));
        assert(g[col_cell(col, qr)] != val);
    } else {
        lemma_fundamental_div_mod(qr, 3);
        lemma_mod_bound(qr, 3);
        lemma_fundamental_div_mod(qc, 3);
        lemma_mod_bound(qc, 3);
        let b = block_of(q);
        lemma_fundamental_div_mod_converse(b, 3, qr / 3, qc / 3);
        let i = (qr % 3) * 3 + qc % 3;
        lemma_fundamental_div_mod_converse(i, 3, qr % 3, qc % 3);
        assert(q == block_cell(b, i));
        assert(g[block_cell(block_of(row * 9 + col), i)] != val);
    }
}

/// Whether flat positions `p` and `q` share a row, a column, or a 3x3 block.
pub fn same_unit_cells(p: usize, q: usize) -> (r: bool)
    requires
        p < 81,
        q < 81,
    ensures
        r == same_unit(p as int, q as int),
{
    p / 9 == q / 9 || p % 9 == q % 9 || (p / 9 / 3 == q / 9 / 3 && p % 9 / 3 == q % 9 / 3)
}

/// The puzzle state: the mutable grid the solver works on, plus an immutable
/// copy of the original given values (so a renderer can tell given cells from
/// solver-filled ones).
pub struct Sudoku {
    grid: Vec<u8>,
    givens: Vec<u8>,
}

impl Sudoku {
    /// Current cell values, row-major.
    pub closed spec fn grid_view(&self) -> Seq<u8> {
        self.grid@
    }

    /// The original given values; set once at construction, never mutated.
    pub closed spec fn givens_view(&self) -> Seq<u8> {
        self.givens@
    }

    pub open spec fn wf(&self) -> bool {
        &&& wf_grid(self.grid_view())
        &&& wf_grid(self.givens_view())
    }

    pub fn new(initial_grid: Vec<u8>) -> (s: Sudoku)
        requires
            wf_grid(initial_grid@),
        ensures
            s.wf(),
            s.grid_view() == initial_grid@,
            s.givens_view() == initial_grid@,
    {
        let givens = copy_cells(&initial_grid);
        Sudoku { grid: initial_grid, givens }
    }

    /// The value at (row, col).
    pub fn cell(&self, row: usize, col: usize) -> (v: u8)
        requires
            self.wf(),
            row < 9,
            col < 9,
        ensures
            v == self.grid_view()[row as int * 9 + col as int],
    {
        self.grid[row * 9 + col]
    }

    /// Whether (row, col) held a given value in the original puzzle.
    pub fn is_given(&self, row: usize, col: usize) -> (b: bool)
        requires
            self.wf(),
            row < 9,
            col < 9,
        ensures
            b == (self.givens_view()[row as int * 9 + col as int] != 0),
    {
        self.givens[row * 9 + col] != 0
    }

    /// Writes `value` into cell (row, col). No validation: checking that the
    /// value is legal there is the caller's responsibility.
    pub fn assign(&mut self, row: usize, col: usize, value: u8)
        requires
            old(self).wf(),
            row < 9,
            col < 9,
            value <= 9,
        ensures
            final(self).wf(),
            final(self).grid_view() == old(self).grid_view().update(
                row as int * 9 + col as int,
                value,
            ),
            final(self).givens_view() == old(self).givens_view(),
    {
        self.grid.set(row * 9 + col, value);
    }

    /// Empties cell (row, col) again (the solver's backtracking step).
    pub fn retract(&mut self, row: usize, col: usize)
        requires
            old(self).wf(),
            row < 9,
            col < 9,
        ensures
            final(self).wf(),
            final(self).grid_view() == old(self).grid_view().update(
                row as int * 9 + col as int,
                0u8,
            ),
            final(self).givens_view() == old(self).givens_view(),
    {
        self.grid.set(row * 9 + col, 0);
    }

    /// A copy of the current grid contents (the render hook's snapshot).
    pub fn snapshot(&self) -> (r: Vec<u8>)
        ensures
            r@ == self.grid_view(),
    {
        copy_cells(&self.grid)
    }

    /// Answers "can `val` legally occupy (row, col) right now?" by scanning
    /// the 9 row cells, the 9 column cells, and the 9 block cells.
    pub fn is_available(&self, row: usize, col: usize, val: u8) -> (r: bool)
        requires
            self.wf(),
            row < 9,
            col < 9,
        ensures
            r == spec_available(self.grid_view(), row as int * 9 + col as int, val),
    {
        let row_chunk_pointer = (row / 3) * 3;
        let col_chunk_pointer = (col / 3) * 3;
        let mut idx: usize = 0;
        while idx < 9
            invariant
                self.wf(),
                row < 9,
                col < 9,
                idx <= 9,
                row_chunk_pointer == (row / 3) * 3,
                col_chunk_pointer == (col / 3) * 3,
                forall|i: int|
                    0 <= i < idx ==> #[trigger] self.grid_view()[row_cell(row as int, i)] != val,
                forall|i: int|
                    0 <= i < idx ==> #[trigger] self.grid_view()[col_cell(col as int, i)] != val,
                forall|i: int|
                    0 <= i < idx ==> #[trigger] self.grid_view()[block_cell(
                        block_of(row as int * 9 + col as int),
                        i,
                    )] != val,
            decreases 9 - idx,
        {
            proof {
                lemma_scan_positions(row as int, col as int, idx as int);
            }
            if self.grid[row * 9 + idx] == val {
                return false;
            }
            if self.grid[idx * 9 + col] == val {
                return false;
            }
            let current_row = row_chunk_pointer + idx / 3;
            let current_col = col_chunk_pointer + idx % 3;
            if self.grid[current_row * 9 + current_col] == val {
                return false;
            }
            idx = idx + 1;
        }
        proof {
            assert forall|q: int|
                0 <= q < 81 && #[trigger] same_unit(row as int * 9 + col as int, q)
                    implies self.grid_view()[q] != val by {
                lemma_unit_cover(self.grid_view(), row as int, col as int, q, val);
            }
        }
        true
    }

    /// True iff the current grid is consistent: no two distinct cells that
    /// share a unit hold the same non-zero value.
    pub fn check_consistent(&self) -> (b: bool)
        requires
            self.wf(),
        ensures
            b == consistent(self.grid_view()),
    {
        let mut p: usize = 0;
        while p < 81
            invariant
                self.wf(),
                p <= 81,
                forall|p2: int, q2: int|
                    0 <= p2 < p && 0 <= q2 < 81 && p2 != q2 && #[trigger] same_unit(p2, q2)
                        && self.grid_view()[p2] != 0 ==> self.grid_view()[p2]
                        != self.grid_view()[q2],
            decreases 81 - p,
        {
            let vp = self.grid[p];
            if vp != 0 {
                let mut q: usize = 0;
                while q < 81
                    invariant
                        self.wf(),
                        p < 81,
                        q <= 81,
                        vp == self.grid_view()[p as int],
                        vp != 0,
                        forall|q2: int|
                            0 <= q2 < q && p != q2 && #[trigger] same_unit(p as int, q2)
                                ==> self.grid_view()[p as int] != self.grid_view()[q2],
                    decreases 81 - q,
                {
                    if q != p && same_unit_cells(p, q) && self.grid[q] == vp {
                        return false;
                    }
                    q = q + 1;
                }
            }
            p = p + 1;
        }
        true
    }
}

/// The cell value an input character denotes: the digit itself for
/// '1'..='9', and 0 (an empty cell) for '0' and every other character.
pub open spec fn char_value(c: char) -> u8 {
    if '1' as u32 <= c as u32 && c as u32 <= '9' as u32 {
        (c as u32 - '0' as u32) as u8
    } else {
        0
    }
}

/// The grid a puzzle string denotes, cell by cell: the i-th character fills
/// cell i; characters past the 81st are ignored; a short string leaves the
/// remaining cells empty.
pub open spec fn parsed_grid(s: Seq<char>) -> Seq<u8> {
    Seq::new(
        81,
        |i: int|
            if i < s.len() {
                char_value(s[i])
            } else {
                0u8
            },
    )
}

/// Builds the 81-cell grid a puzzle string denotes.
pub fn parse_grid(grid_str: &str) -> (g: Vec<u8>)
    ensures
        g@ == parsed_grid(grid_str@),
        wf_grid(g@),
{
    let n = grid_str.unicode_len();
    let mut g: Vec<u8> = Vec::new();
    let mut i: usize = 0;
    while i < 81
        invariant
            i <= 81,
            g@.len() == i,
            n == grid_str@.len(),
            forall|j: int| 0 <= j < i ==> g@[j] == parsed_grid(grid_str@)[j],
        decreases 81 - i,
    {
        let mut v: u8 = 0;
        if i < n {
            let c = grid_str.get_char(i);
            let u = c as u32;
            if '1' as u32 <= u && u <= '9' as u32 {
                v = (u - '0' as u32) as u8;
            }
        }
        g.push(v);
        i = i + 1;
    }
    proof {
        assert(g@ =~= parsed_grid(grid_str@));
    }
    g
}

/// An element-for-element copy of a grid's cells.
fn copy_cells(v: &Vec<u8>) -> (r: Vec<u8>)
    ensures
        r@ == v@,
{
    let mut r: Vec<u8> = Vec::new();
    let mut i: usize = 0;
    while i < v.len()
        invariant
            i <= v@.len(),
            r@.len() == i,
            forall|j: int| 0 <= j < i ==> r@[j] == v@[j],
        decreases v@.len() - i,
    {
        r.push(v[i]);
        i = i + 1;
    }
    proof {
        assert(r@ =~= v@);
    }
    r
}

} // verus!
