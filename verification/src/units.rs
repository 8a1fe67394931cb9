//! Grid geometry: positions, rows, columns and 3x3 subgrids.
//!
//! A board stores its 81 squares in row-major order.  Rows and columns are
//! 1-based; subgrids are addressed by a 0-based pair of grid coordinates.
//! Two distinct positions are "peers" when they share a row, a column or a
//! subgrid; the distinctness constraint of the puzzle applies exactly to
//! peers.

use vstd::arithmetic::div_mod::{lemma_fundamental_div_mod, lemma_fundamental_div_mod_converse};
use vstd::prelude::*;
use vstd::set_lib::{lemma_int_range, lemma_len_subset, set_int_range};

verus! {

/// Row-major index of the square at 1-based `(row, col)`.
pub open spec fn spec_position(row: int, col: int) -> int {
    (row - 1) * 9 + (col - 1)
}

/// 1-based row of the square stored at index `p`.
pub open spec fn row_of(p: int) -> int {
    p / 9 + 1
}

/// 1-based column of the square stored at index `p`.
pub open spec fn col_of(p: int) -> int {
    p % 9 + 1
}

/// 0-based row of the subgrid holding index `p`.
pub open spec fn grid_row_of(p: int) -> int {
    (row_of(p) - 1) / 3
}

/// 0-based column of the subgrid holding index `p`.
pub open spec fn grid_col_of(p: int) -> int {
    (col_of(p) - 1) / 3
}

/// Position of `p` within its subgrid, in row-major order over the nine
/// squares of the subgrid.
pub open spec fn grid_slot_of(p: int) -> int {
    ((row_of(p) - 1) % 3) * 3 + (col_of(p) - 1) % 3
}

pub open spec fn same_row(p: int, q: int) -> bool {
    row_of(p) == row_of(q)
}

pub open spec fn same_col(p: int, q: int) -> bool {
    col_of(p) == col_of(q)
}

pub open spec fn same_grid(p: int, q: int) -> bool {
    grid_row_of(p) == grid_row_of(q) && grid_col_of(p) == grid_col_of(q)
}

/// The two positions lie in a common unit (row, column or subgrid), so the
/// distinctness constraint relates them.
pub open spec fn same_unit(p: int, q: int) -> bool {
    same_row(p, q) || same_col(p, q) || same_grid(p, q)
}

/// A 1-based coordinate pair maps to an index inside the grid, and the row
/// and column can be read back from that index.
pub proof fn lemma_position_of(row: int, col: int)
    requires
        1 <= row <= 9,
        1 <= col <= 9,
    ensures
        0 <= spec_position(row, col) < 81,
        row_of(spec_position(row, col)) == row,
        col_of(spec_position(row, col)) == col,
{
    let p = spec_position(row, col);
    lemma_fundamental_div_mod_converse(p, 9, row - 1, col - 1);
}

/// An index inside the grid decomposes into its row, column and subgrid
/// coordinates.
pub proof fn lemma_position_decompose(p: int)
    requires
        0 <= p < 81,
    ensures
        1 <= row_of(p) <= 9,
        1 <= col_of(p) <= 9,
        spec_position(row_of(p), col_of(p)) == p,
        0 <= grid_row_of(p) <= 2,
        0 <= grid_col_of(p) <= 2,
        0 <= grid_slot_of(p) < 9,
        row_of(p) - 1 == grid_row_of(p) * 3 + grid_slot_of(p) / 3,
        col_of(p) - 1 == grid_col_of(p) * 3 + grid_slot_of(p) % 3,
{
    lemma_fundamental_div_mod(p, 9);
    let r = p / 9;
    let c = p % 9;
    assert(0 <= c < 9) by {
        lemma_fundamental_div_mod_converse(p, 9, r, c);
    }
    assert(0 <= r <= 8) by {
        assert(p == r * 9 + c);
    }
    lemma_fundamental_div_mod(r, 3);
    lemma_fundamental_div_mod(c, 3);
    let a = r % 3;
    let b = c % 3;
    assert(0 <= a < 3 && 0 <= b < 3) by {
        lemma_fundamental_div_mod_converse(r, 3, r / 3, a);
        lemma_fundamental_div_mod_converse(c, 3, c / 3, b);
    }
    let slot = a * 3 + b;
    lemma_fundamental_div_mod_converse(slot, 3, a, b);
}

/// The `i`-th square (row-major) of the subgrid at grid coordinates
/// `(rg, cg)` lies inside the grid and inside that subgrid.
pub proof fn lemma_grid_member(rg: int, cg: int, i: int)
    requires
        0 <= rg <= 2,
        0 <= cg <= 2,
        0 <= i < 9,
    ensures
        1 <= rg * 3 + i / 3 + 1 <= 9,
        1 <= cg * 3 + i % 3 + 1 <= 9,
        0 <= spec_position(rg * 3 + i / 3 + 1, cg * 3 + i % 3 + 1) < 81,
        grid_row_of(spec_position(rg * 3 + i / 3 + 1, cg * 3 + i % 3 + 1)) == rg,
        grid_col_of(spec_position(rg * 3 + i / 3 + 1, cg * 3 + i % 3 + 1)) == cg,
        grid_slot_of(spec_position(rg * 3 + i / 3 + 1, cg * 3 + i % 3 + 1)) == i,
{
    lemma_fundamental_div_mod(i, 3);
    vstd::arithmetic::div_mod::lemma_mod_pos_bound(i, 3);
    let r = rg * 3 + i / 3 + 1;
    let c = cg * 3 + i % 3 + 1;
    lemma_position_of(r, c);
    assert((r - 1) / 3 == rg && (r - 1) % 3 == i / 3) by {
        lemma_fundamental_div_mod_converse(r - 1, 3, rg, i / 3);
    }
    assert((c - 1) / 3 == cg && (c - 1) % 3 == i % 3) by {
        lemma_fundamental_div_mod_converse(c - 1, 3, cg, i % 3);
    }
}

/// The values taken by `f` on `0..k`.
pub open spec fn image_prefix(f: spec_fn(int) -> int, k: int) -> Set<int> {
    Set::new(|v: int| exists|i: int| 0 <= i < k && #[trigger] f(i) == v)
}

proof fn lemma_image_prefix_len(f: spec_fn(int) -> int, k: int)
    requires
        0 <= k,
        forall|i: int, j: int| 0 <= i < j < k ==> #[trigger] f(i) != #[trigger] f(j),
    ensures
        image_prefix(f, k).finite(),
        image_prefix(f, k).len() == k,
    decreases k,
{
    if k == 0 {
        assert(image_prefix(f, 0) =~= Set::empty());
    } else {
        lemma_image_prefix_len(f, k - 1);
        assert(image_prefix(f, k) =~= image_prefix(f, k - 1).insert(f(k - 1)));
        assert(!image_prefix(f, k - 1).contains(f(k - 1)));
    }
}

/// Pigeonhole over nine slots: nine pairwise distinct values from `1..=9`
/// hit every digit of `1..=9`.
pub proof fn lemma_nine_distinct_values(f: spec_fn(int) -> int, d: int)
    requires
        forall|i: int| 0 <= i < 9 ==> 1 <= #[trigger] f(i) <= 9,
        forall|i: int, j: int| 0 <= i < j < 9 ==> #[trigger] f(i) != #[trigger] f(j),
        1 <= d <= 9,
    ensures
        exists|i: int| 0 <= i < 9 && #[trigger] f(i) == d,
{
    let s = image_prefix(f, 9);
    lemma_image_prefix_len(f, 9);
    let range = set_int_range(1, 10);
    lemma_int_range(1, 10);
    if forall|i: int| 0 <= i < 9 ==> #[trigger] f(i) != d {
        let smaller = range.remove(d);
        assert(s.subset_of(smaller));
        lemma_len_subset(s, smaller);
        assert(range.contains(d));
        assert(smaller.len() == 9 - 1);
        assert(false);
    }
}

} // verus!
