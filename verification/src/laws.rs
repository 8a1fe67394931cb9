//! The library-wide laws, stated and proved over the board model.
//!
//! * a solved board holds each digit exactly once in every row, column and
//!   subgrid;
//! * the given digits of the input reappear unchanged in any solution;
//! * a board is solved exactly when its candidate total is 81.

use crate::square_value::{lemma_known_value, lemma_narrows_count};
use crate::sudoku::{given_at, Board};
use crate::units::{
    col_of, grid_col_of, grid_row_of, lemma_grid_member, lemma_nine_distinct_values,
    lemma_position_decompose, lemma_position_of, row_of, same_col, same_grid, same_row, same_unit,
    spec_position,
};
use vstd::prelude::*;

verus! {

/// A solved board is complete in every direction: for any position `p` and
/// digit `d`, the row of `p`, the column of `p` and the subgrid of `p` each
/// hold the digit `d` in exactly one of their squares.  Together with
/// `Board::valid_solution` (pairwise distinctness of peers) this is the
/// statement that every row, column and subgrid contains each of 1-9
/// exactly once.
#[verifier::rlimit(50)]
pub proof fn lemma_solution_complete(b: Board, p: int, d: int)
    requires
        b.wf(),
        b.valid_solution(),
        0 <= p < 81,
        1 <= d <= 9,
    ensures
        exists|q: int| 0 <= q < 81 && #[trigger] same_row(p, q) && b.square(q).value_spec() == d,
        exists|q: int| 0 <= q < 81 && #[trigger] same_col(p, q) && b.square(q).value_spec() == d,
        exists|q: int| 0 <= q < 81 && #[trigger] same_grid(p, q) && b.square(q).value_spec() == d,
        forall|q1: int, q2: int|
            0 <= q1 < 81 && 0 <= q2 < 81 && #[trigger] same_unit(q1, q2) && b.square(
                q1,
            ).value_spec() == b.square(q2).value_spec() ==> q1 == q2,
{
    lemma_position_decompose(p);
    let row = row_of(p);
    let col = col_of(p);
    let rg = grid_row_of(p);
    let cg = grid_col_of(p);
    let frow = |i: int| b.square(spec_position(row, i + 1)).value_spec();
    let fcol = |i: int| b.square(spec_position(i + 1, col)).value_spec();
    let fgrid = |i: int| b.square(spec_position(rg * 3 + i / 3 + 1, cg * 3 + i % 3 + 1)).value_spec();
    assert forall|i: int| 0 <= i < 9 implies 1 <= #[trigger] frow(i) <= 9 by {
        lemma_position_of(row, i + 1);
        lemma_known_value(b.square(spec_position(row, i + 1)));
    }
    assert forall|i: int| 0 <= i < 9 implies 1 <= #[trigger] fcol(i) <= 9 by {
        lemma_position_of(i + 1, col);
        lemma_known_value(b.square(spec_position(i + 1, col)));
    }
    assert forall|i: int| 0 <= i < 9 implies 1 <= #[trigger] fgrid(i) <= 9 by {
        lemma_grid_member(rg, cg, i);
        lemma_known_value(b.square(spec_position(rg * 3 + i / 3 + 1, cg * 3 + i % 3 + 1)));
    }
    assert forall|i: int, j: int| 0 <= i < j < 9 implies #[trigger] frow(i) != #[trigger] frow(
        j,
    ) by {
        lemma_position_of(row, i + 1);
        lemma_position_of(row, j + 1);
        assert(same_unit(spec_position(row, i + 1), spec_position(row, j + 1)));
    }
    assert forall|i: int, j: int| 0 <= i < j < 9 implies #[trigger] fcol(i) != #[trigger] fcol(
        j,
    ) by {
        lemma_position_of(i + 1, col);
        lemma_position_of(j + 1, col);
        assert(same_unit(spec_position(i + 1, col), spec_position(j + 1, col)));
    }
    assert forall|i: int, j: int| 0 <= i < j < 9 implies #[trigger] fgrid(i) != #[trigger] fgrid(
        j,
    ) by {
        lemma_grid_member(rg, cg, i);
        lemma_grid_member(rg, cg, j);
        let gi = spec_position(rg * 3 + i / 3 + 1, cg * 3 + i % 3 + 1);
        let gj = spec_position(rg * 3 + j / 3 + 1, cg * 3 + j % 3 + 1);
        lemma_position_decompose(gi);
        lemma_position_decompose(gj);
        assert(gi != gj) by {
            if gi == gj {
                vstd::arithmetic::div_mod::lemma_fundamental_div_mod(i, 3);
                vstd::arithmetic::div_mod::lemma_fundamental_div_mod(j, 3);
                vstd::arithmetic::div_mod::lemma_mod_pos_bound(i, 3);
                vstd::arithmetic::div_mod::lemma_mod_pos_bound(j, 3);
            }
        }
        assert(same_unit(gi, gj));
    }
    lemma_nine_distinct_values(frow, d);
    lemma_nine_distinct_values(fcol, d);
    lemma_nine_distinct_values(fgrid, d);
    let wi = choose|i: int| 0 <= i < 9 && #[trigger] frow(i) == d;
    lemma_position_of(row, wi + 1);
    assert(same_row(p, spec_position(row, wi + 1)));
    let wj = choose|i: int| 0 <= i < 9 && #[trigger] fcol(i) == d;
    lemma_position_of(wj + 1, col);
    assert(same_col(p, spec_position(wj + 1, col)));
    let wk = choose|i: int| 0 <= i < 9 && #[trigger] fgrid(i) == d;
    lemma_grid_member(rg, cg, wk);
    assert(same_grid(p, spec_position(rg * 3 + wk / 3 + 1, cg * 3 + wk % 3 + 1)));
}

/// The given digits of the input reappear unchanged in any solution: a board
/// loaded from an input text only ever narrows, so once it is fully known,
/// every square that held a given digit still shows exactly that digit.
pub proof fn lemma_givens_preserved(pre: Board, post: Board, given: Seq<char>, p: int)
    requires
        pre.loaded_from(given),
        post.evolves_from(pre),
        post.all_known(),
        0 <= p < 81,
        given_at(given, p) != 0,
    ensures
        post.square(p).value_spec() == given_at(given, p),
{
    let s = post.square(p);
    lemma_known_value(s);
    let v = s.value_spec();
    assert(pre.square(p).allows(v)) by {
        assert(s.evolves_from(pre.square(p)));
    }
    assert(0 <= given_at(given, p) <= 9);
}

/// A board is solved exactly when its candidate total is 81: a fully known
/// board always sums to 81, and short of a contradiction the candidate total
/// 81 forces every square down to a single candidate.  (On a contradictory
/// board the equivalence can fail: an empty square and a two-candidate
/// square also sum to 81 with 79 known squares.)
pub proof fn lemma_solved_characterization(b: Board)
    ensures
        b.all_known() ==> b.total_count() == 81,
        !b.has_contradiction() ==> (b.all_known() <==> b.total_count() == 81),
{
    if b.all_known() {
        lemma_total_all_known(b, 0);
    }
    if !b.has_contradiction() && b.total_count() == 81 && !b.all_known() {
        let j = choose|j: int| 0 <= j < 81 && b.square(j).count() != 1;
        assert(b.square(j).count() >= 2);
        lemma_total_with_open(b, 0, j);
    }
}

proof fn lemma_total_all_known(b: Board, p: int)
    requires
        0 <= p <= 81,
        b.all_known(),
    ensures
        b.total_from(p) == 81 - p,
    decreases 81 - p,
{
    if p < 81 {
        lemma_total_all_known(b, p + 1);
    }
}

proof fn lemma_total_with_open(b: Board, p: int, j: int)
    requires
        0 <= p <= 81,
        p <= j < 81,
        !b.has_contradiction(),
        b.square(j).count() >= 2,
    ensures
        b.total_from(p) >= 81 - p + 1,
    decreases 81 - p,
{
    assert(b.square(p).count() != 0);
    if p < j {
        lemma_total_with_open(b, p + 1, j);
    } else {
        crate::sudoku::lemma_total_from_at_least(b, p + 1);
    }
}

/// Monotonic narrowing: across any step of a board's deduction or search
/// lifetime, a square's candidate count never increases.
pub proof fn lemma_possibilities_never_increase(pre: Board, post: Board, p: int)
    requires
        post.evolves_from(pre),
        0 <= p < 81,
    ensures
        post.square(p).count() <= pre.square(p).count(),
{
    lemma_narrows_count(post.square(p), pre.square(p));
}

} // verus!
