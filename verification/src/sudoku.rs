//! The board and its deduction engine, and the game wrapper that adds
//! guess-and-backtrack search on top of it.
//!
//! A board owns 81 squares in row-major order.  `Board::solve` runs the
//! three deductive techniques (unit propagation, naked-pair elimination,
//! singleton promotion) to a fixpoint and reports whether they alone solved
//! the grid.  `Game::solve` escalates to a breadth-first search over
//! speculative boards when deduction stalls.
//!
//! The verified backbone: candidate sets only shrink while a board is
//! deduced (monotonic narrowing), and a square marked as propagated has its
//! value absent from every peer.  Together these give the headline result:
//! a board reported as solved is a valid Sudoku grid.

use crate::search::{
    generate_experiments, lemma_pow10_monotone, lemma_pow10_pos, lemma_queue_measure_drop_last,
    pop_experiment, pow10, queue_measure, sorted_descending, Experimental,
};
use crate::square_value::{
    lemma_allows_counts, lemma_count_agree_from, lemma_count_bound, lemma_count_remove,
    lemma_known_value, lemma_narrows_count, lemma_narrows_known_value, lemma_two_candidates,
    SquareValue,
};
use crate::units::{
    col_of, grid_col_of, grid_row_of, grid_slot_of, lemma_grid_member, lemma_position_decompose,
    lemma_position_of, row_of, same_col, same_grid, same_row, same_unit, spec_position,
};
use vstd::prelude::*;

verus! {

/// A named 9x9 board: 81 squares in row-major order and the number of
/// guesses taken from the original board to reach this one.
pub struct Board {
    pub name: String,
    pub values: [SquareValue; 81],
    pub depth: usize,
}

/// A sudoku game: a board plus the search that solves it.
pub struct Game {
    pub board: Board,
}

impl Board {
    /// The square stored at index `p`.
    pub open spec fn square(self, p: int) -> SquareValue {
        self.values@[p]
    }

    /// Every square records the position it is stored at.
    pub open spec fn wf(self) -> bool {
        forall|p: int|
            0 <= p < 81 ==> (#[trigger] self.square(p)).row == row_of(p) && self.square(p).col
                == col_of(p)
    }

    /// Every square holds exactly one candidate.
    pub open spec fn all_known(self) -> bool {
        forall|p: int| 0 <= p < 81 ==> (#[trigger] self.square(p)).count() == 1
    }

    /// Some square has no candidate left: this board is unsatisfiable.
    pub open spec fn has_contradiction(self) -> bool {
        exists|p: int| 0 <= p < 81 && (#[trigger] self.square(p)).count() == 0
    }

    /// Sum of the candidate counts of the squares at indices `p..81`.
    pub open spec fn total_from(self, p: int) -> nat
        decreases 81 - p,
    {
        if p < 0 || 81 <= p {
            0
        } else {
            self.square(p).count() + self.total_from(p + 1)
        }
    }

    /// Sum of the candidate counts of all 81 squares: 81 on a solved board,
    /// 729 on a fully open one.
    pub open spec fn total_count(self) -> nat {
        self.total_from(0)
    }

    /// Number of squares at indices `p..81` whose value has been propagated.
    pub open spec fn propagated_from(self, p: int) -> nat
        decreases 81 - p,
    {
        if p < 0 || 81 <= p {
            0
        } else {
            (if self.square(p).propagated {
                1nat
            } else {
                0nat
            }) + self.propagated_from(p + 1)
        }
    }

    /// Number of squares whose value has been propagated.
    pub open spec fn propagated_count(self) -> nat {
        self.propagated_from(0)
    }

    /// The two boards hold exactly the same squares.
    pub open spec fn same_squares(self, other: Board) -> bool {
        forall|p: int| 0 <= p < 81 ==> (#[trigger] self.square(p)) == other.square(p)
    }

    /// Candidate sets have only shrunk relative to `prev`, and positions and
    /// propagation markers are untouched.
    pub open spec fn narrowed_keeping_flags(self, prev: Board) -> bool {
        forall|p: int|
            0 <= p < 81 ==> {
                let a = #[trigger] self.square(p);
                let b = prev.square(p);
                &&& a.row == b.row
                &&& a.col == b.col
                &&& a.propagated == b.propagated
                &&& a.narrows(b)
            }
    }

    /// `self` is a legal successor of `prev` within one deduction lifetime:
    /// positions unchanged, candidate sets only shrunk, propagation markers
    /// never cleared.
    pub open spec fn evolves_from(self, prev: Board) -> bool {
        forall|p: int| 0 <= p < 81 ==> (#[trigger] self.square(p)).evolves_from(prev.square(p))
    }

    /// A square marked as propagated has at most one candidate left, and if
    /// it still holds a value, that value is no candidate of any peer.  This
    /// is the invariant that makes a fully deduced board a valid grid.
    pub open spec fn propagation_complete(self) -> bool {
        forall|p: int|
            0 <= p < 81 && (#[trigger] self.square(p)).propagated ==> {
                let s = self.square(p);
                &&& s.count() <= 1
                &&& s.count() == 1 ==> forall|q: int|
                    0 <= q < 81 && q != p && same_unit(p, q) ==> !(#[trigger] self.square(q)).allows(
                        s.value_spec(),
                    )
            }
    }

    /// No square holds a known value that still waits to be pushed out to
    /// its peers: unit propagation has nothing left to do.
    pub open spec fn no_pending_propagation(self) -> bool {
        forall|p: int|
            0 <= p < 81 ==> !(!(#[trigger] self.square(p)).propagated && self.square(p).count()
                == 1)
    }

    /// Index of the first square (in row-major order) among `q..81` whose
    /// known value still waits to be pushed out to its peers, or 81 when
    /// there is none.
    pub open spec fn first_pending_from(self, q: int) -> int
        decreases 81 - q,
    {
        if q < 0 || 81 <= q {
            81
        } else if !self.square(q).propagated && self.square(q).count() == 1 {
            q
        } else {
            self.first_pending_from(q + 1)
        }
    }

    /// Index of the first square whose known value still waits to be pushed
    /// out to its peers, or 81 when no square does.
    pub open spec fn first_pending(self) -> int {
        self.first_pending_from(0)
    }

    /// No other square of the row of `p` can hold the digit `d`.
    pub open spec fn row_unique(self, p: int, d: int) -> bool {
        forall|q: int|
            0 <= q < 81 && q != p && same_row(p, q) ==> !(#[trigger] self.square(q)).allows(d)
    }

    /// No other square of the column of `p` can hold the digit `d`.
    pub open spec fn col_unique(self, p: int, d: int) -> bool {
        forall|q: int|
            0 <= q < 81 && q != p && same_col(p, q) ==> !(#[trigger] self.square(q)).allows(d)
    }

    /// No other square of the subgrid of `p` can hold the digit `d`.
    pub open spec fn grid_unique(self, p: int, d: int) -> bool {
        forall|q: int|
            0 <= q < 81 && q != p && same_grid(p, q) ==> !(#[trigger] self.square(q)).allows(d)
    }

    /// Singleton promotion has nothing left to do: every square that is the
    /// only place of its row, column or subgrid for some digit already holds
    /// a known value.
    pub open spec fn singleton_free(self) -> bool {
        forall|p: int, d: int|
            0 <= p < 81 && 1 <= d <= 9 && #[trigger] self.square(p).allows(d) && (self.row_unique(
                p,
                d,
            ) || self.col_unique(p, d) || self.grid_unique(p, d)) ==> self.square(p).count() == 1
    }

    /// `singleton_free`, restricted to the rows before row `r`.
    pub open spec fn rows_singleton_free_upto(self, r: int) -> bool {
        forall|p: int, d: int|
            0 <= p < 81 && 1 <= d <= 9 && row_of(p) < r && #[trigger] self.square(p).allows(d)
                && self.row_unique(p, d) ==> self.square(p).count() == 1
    }

    /// `singleton_free`, restricted to the columns before column `c`.
    pub open spec fn cols_singleton_free_upto(self, c: int) -> bool {
        forall|p: int, d: int|
            0 <= p < 81 && 1 <= d <= 9 && col_of(p) < c && #[trigger] self.square(p).allows(d)
                && self.col_unique(p, d) ==> self.square(p).count() == 1
    }

    /// `singleton_free`, restricted to the first `k` subgrids in row-major
    /// grid order.
    pub open spec fn grids_singleton_free_upto(self, k: int) -> bool {
        forall|p: int, d: int|
            0 <= p < 81 && 1 <= d <= 9 && grid_row_of(p) * 3 + grid_col_of(p) < k
                && #[trigger] self.square(p).allows(d) && self.grid_unique(p, d) ==> self.square(
                p,
            ).count() == 1
    }

    /// The digits `v1 != v2` can both go only to `p1` and `p2` within the
    /// row of `p1`, and the pair qualifies there: either both squares hold
    /// exactly two candidates (the pure-pair relaxation), or no other square
    /// of the row can hold either digit.
    pub open spec fn row_pair_qualifies(self, p1: int, p2: int, v1: int, v2: int) -> bool {
        &&& same_row(p1, p2)
        &&& self.square(p1).allows(v1) && self.square(p1).allows(v2)
        &&& self.square(p2).allows(v1) && self.square(p2).allows(v2)
        &&& forall|q: int|
            0 <= q < 81 && q != p1 && q != p2 && same_row(p1, q) ==> !((#[trigger] self.square(
                q,
            )).allows(v1) && self.square(q).allows(v2))
        &&& ((self.square(p1).count() == 2 && self.square(p2).count() == 2) || (forall|q: int|
            0 <= q < 81 && q != p1 && q != p2 && same_row(p1, q) ==> !(#[trigger] self.square(
                q,
            )).allows(v1) && !self.square(q).allows(v2)))
    }

    /// `row_pair_qualifies`, within the column of `p1`.
    pub open spec fn col_pair_qualifies(self, p1: int, p2: int, v1: int, v2: int) -> bool {
        &&& same_col(p1, p2)
        &&& self.square(p1).allows(v1) && self.square(p1).allows(v2)
        &&& self.square(p2).allows(v1) && self.square(p2).allows(v2)
        &&& forall|q: int|
            0 <= q < 81 && q != p1 && q != p2 && same_col(p1, q) ==> !((#[trigger] self.square(
                q,
            )).allows(v1) && self.square(q).allows(v2))
        &&& ((self.square(p1).count() == 2 && self.square(p2).count() == 2) || (forall|q: int|
            0 <= q < 81 && q != p1 && q != p2 && same_col(p1, q) ==> !(#[trigger] self.square(
                q,
            )).allows(v1) && !self.square(q).allows(v2)))
    }

    /// `row_pair_qualifies`, within the subgrid of `p1`.
    pub open spec fn grid_pair_qualifies(self, p1: int, p2: int, v1: int, v2: int) -> bool {
        &&& same_grid(p1, p2)
        &&& self.square(p1).allows(v1) && self.square(p1).allows(v2)
        &&& self.square(p2).allows(v1) && self.square(p2).allows(v2)
        &&& forall|q: int|
            0 <= q < 81 && q != p1 && q != p2 && same_grid(p1, q) ==> !((#[trigger] self.square(
                q,
            )).allows(v1) && self.square(q).allows(v2))
        &&& ((self.square(p1).count() == 2 && self.square(p2).count() == 2) || (forall|q: int|
            0 <= q < 81 && q != p1 && q != p2 && same_grid(p1, q) ==> !(#[trigger] self.square(
                q,
            )).allows(v1) && !self.square(q).allows(v2)))
    }

    /// The effects of the naked pair `(p1, p2, {v1, v2})` are already in
    /// place: the two squares hold no other candidate, and no other square
    /// of a unit shared by both still holds either digit.
    pub open spec fn pair_applied(self, p1: int, p2: int, v1: int, v2: int) -> bool {
        &&& forall|u: int|
            1 <= u <= 9 && u != v1 && u != v2 ==> !(#[trigger] self.square(p1).allows(u))
                && !self.square(p2).allows(u)
        &&& same_row(p1, p2) ==> forall|q: int|
            0 <= q < 81 && q != p1 && q != p2 && same_row(p1, q) ==> !(#[trigger] self.square(
                q,
            )).allows(v1) && !self.square(q).allows(v2)
        &&& same_col(p1, p2) ==> forall|q: int|
            0 <= q < 81 && q != p1 && q != p2 && same_col(p1, q) ==> !(#[trigger] self.square(
                q,
            )).allows(v1) && !self.square(q).allows(v2)
        &&& same_grid(p1, p2) ==> forall|q: int|
            0 <= q < 81 && q != p1 && q != p2 && same_grid(p1, q) ==> !(#[trigger] self.square(
                q,
            )).allows(v1) && !self.square(q).allows(v2)
    }

    /// Naked-pair elimination has nothing left to do: wherever a pair of
    /// digits qualifies on two squares within some unit, all of the pair's
    /// eliminations are already in place.
    pub open spec fn pair_free(self) -> bool {
        forall|p1: int, p2: int, v1: int, v2: int|
            #![trigger self.row_pair_qualifies(p1, p2, v1, v2)]
            #![trigger self.col_pair_qualifies(p1, p2, v1, v2)]
            #![trigger self.grid_pair_qualifies(p1, p2, v1, v2)]
            0 <= p1 < 81 && 0 <= p2 < 81 && p1 != p2 && 1 <= v1 <= 9 && 1 <= v2 <= 9 && v1 < v2
                && (self.row_pair_qualifies(p1, p2, v1, v2) || self.col_pair_qualifies(
                p1,
                p2,
                v1,
                v2,
            ) || self.grid_pair_qualifies(p1, p2, v1, v2)) ==> self.pair_applied(p1, p2, v1, v2)
    }

    /// `pair_free`, restricted to pairs discovered in the rows before `r`.
    pub open spec fn rows_pair_free_upto(self, r: int) -> bool {
        forall|p1: int, p2: int, v1: int, v2: int|
            #![trigger self.row_pair_qualifies(p1, p2, v1, v2)]
            0 <= p1 < 81 && 0 <= p2 < 81 && p1 != p2 && 1 <= v1 <= 9 && 1 <= v2 <= 9 && v1 < v2
                && row_of(p1) < r && self.row_pair_qualifies(p1, p2, v1, v2) ==> self.pair_applied(
                p1,
                p2,
                v1,
                v2,
            )
    }

    /// `pair_free`, restricted to pairs discovered in the columns before `c`.
    pub open spec fn cols_pair_free_upto(self, c: int) -> bool {
        forall|p1: int, p2: int, v1: int, v2: int|
            #![trigger self.col_pair_qualifies(p1, p2, v1, v2)]
            0 <= p1 < 81 && 0 <= p2 < 81 && p1 != p2 && 1 <= v1 <= 9 && 1 <= v2 <= 9 && v1 < v2
                && col_of(p1) < c && self.col_pair_qualifies(p1, p2, v1, v2) ==> self.pair_applied(
                p1,
                p2,
                v1,
                v2,
            )
    }

    /// `pair_free`, restricted to pairs discovered in the first `k` subgrids
    /// in row-major grid order.
    pub open spec fn grids_pair_free_upto(self, k: int) -> bool {
        forall|p1: int, p2: int, v1: int, v2: int|
            #![trigger self.grid_pair_qualifies(p1, p2, v1, v2)]
            0 <= p1 < 81 && 0 <= p2 < 81 && p1 != p2 && 1 <= v1 <= 9 && 1 <= v2 <= 9 && v1 < v2
                && grid_row_of(p1) * 3 + grid_col_of(p1) < k && self.grid_pair_qualifies(
                p1,
                p2,
                v1,
                v2,
            ) ==> self.pair_applied(p1, p2, v1, v2)
    }

    /// Every square is known, and no two peers hold the same digit: the
    /// board is a correctly solved Sudoku.
    pub open spec fn valid_solution(self) -> bool {
        &&& self.all_known()
        &&& forall|p: int, q: int|
            0 <= p < 81 && 0 <= q < 81 && p != q && #[trigger] same_unit(p, q)
                ==> self.square(p).value_spec() != self.square(q).value_spec()
    }
}

/// The candidate-count sum over `p..81` is bounded by nine per square.
pub proof fn lemma_total_from_bound(b: Board, p: int)
    requires
        0 <= p <= 81,
    ensures
        b.total_from(p) <= 9 * (81 - p),
    decreases 81 - p,
{
    if p < 81 {
        lemma_count_bound(b.square(p));
        lemma_total_from_bound(b, p + 1);
    }
}

/// Without a contradiction, every square contributes at least one candidate.
pub proof fn lemma_total_from_at_least(b: Board, p: int)
    requires
        0 <= p <= 81,
        !b.has_contradiction(),
    ensures
        b.total_from(p) >= 81 - p,
    decreases 81 - p,
{
    if p < 81 {
        assert(b.square(p).count() != 0);
        lemma_total_from_at_least(b, p + 1);
    }
}

/// Changing a single square shifts the candidate total by exactly the
/// difference of that square's counts.
pub proof fn lemma_total_update(a: Board, b: Board, j: int, p: int)
    requires
        0 <= p <= 81,
        0 <= j < 81,
        forall|q: int| 0 <= q < 81 && q != j ==> (#[trigger] b.square(q)) == a.square(q),
    ensures
        p <= j ==> b.total_from(p) + a.square(j).count() == a.total_from(p) + b.square(j).count(),
        p > j ==> b.total_from(p) == a.total_from(p),
    decreases 81 - p,
{
    if p < 81 {
        lemma_total_update(a, b, j, p + 1);
    }
}

/// Squares that only narrow can only lower the candidate total.
pub proof fn lemma_total_monotone(a: Board, b: Board, p: int)
    requires
        0 <= p <= 81,
        b.narrowed_keeping_flags(a) || b.evolves_from(a),
    ensures
        b.total_from(p) <= a.total_from(p),
    decreases 81 - p,
{
    if p < 81 {
        lemma_narrows_count(b.square(p), a.square(p));
        lemma_total_monotone(a, b, p + 1);
    }
}

/// The number of propagated squares is bounded by the number of squares.
pub proof fn lemma_propagated_from_bound(b: Board, p: int)
    requires
        0 <= p <= 81,
    ensures
        b.propagated_from(p) <= 81 - p,
    decreases 81 - p,
{
    if p < 81 {
        lemma_propagated_from_bound(b, p + 1);
    }
}

/// Boards whose squares carry the same propagation markers have the same
/// propagated count.
pub proof fn lemma_propagated_same(a: Board, b: Board, p: int)
    requires
        0 <= p <= 81,
        forall|q: int|
            0 <= q < 81 ==> (#[trigger] b.square(q)).propagated == a.square(q).propagated,
    ensures
        b.propagated_from(p) == a.propagated_from(p),
    decreases 81 - p,
{
    if p < 81 {
        lemma_propagated_same(a, b, p + 1);
    }
}

/// Marking a single square as propagated raises the propagated count by one.
pub proof fn lemma_propagated_update(a: Board, b: Board, j: int, p: int)
    requires
        0 <= p <= 81,
        0 <= j < 81,
        forall|q: int|
            0 <= q < 81 && q != j ==> (#[trigger] b.square(q)).propagated == a.square(
                q,
            ).propagated,
        !a.square(j).propagated,
        b.square(j).propagated,
    ensures
        p <= j ==> b.propagated_from(p) == a.propagated_from(p) + 1,
        p > j ==> b.propagated_from(p) == a.propagated_from(p),
    decreases 81 - p,
{
    if p < 81 {
        lemma_propagated_update(a, b, j, p + 1);
    }
}

/// The successor relation between boards composes.
pub proof fn lemma_evolves_transitive(a: Board, b: Board, c: Board)
    requires
        b.evolves_from(a),
        c.evolves_from(b),
    ensures
        c.evolves_from(a),
{
    assert forall|p: int| 0 <= p < 81 implies (#[trigger] c.square(p)).evolves_from(
        a.square(p),
    ) by {
        assert(b.square(p).evolves_from(a.square(p)));
        assert(c.square(p).evolves_from(b.square(p)));
    }
}

/// Narrowing while keeping markers is a special case of evolving.
pub proof fn lemma_narrowed_evolves(a: Board, b: Board)
    requires
        b.narrowed_keeping_flags(a),
    ensures
        b.evolves_from(a),
{
    assert forall|p: int| 0 <= p < 81 implies (#[trigger] b.square(p)).evolves_from(
        a.square(p),
    ) by {
        assert(b.square(p).narrows(a.square(p)));
    }
}

/// Narrowing squares without touching the propagation markers preserves the
/// propagation invariant: propagated values remain absent from peers.
pub proof fn lemma_narrow_preserves_completeness(a: Board, b: Board)
    requires
        a.propagation_complete(),
        b.narrowed_keeping_flags(a),
    ensures
        b.propagation_complete(),
{
    assert forall|p: int| 0 <= p < 81 && (#[trigger] b.square(p)).propagated implies {
        let s = b.square(p);
        &&& s.count() <= 1
        &&& s.count() == 1 ==> forall|q: int|
            0 <= q < 81 && q != p && same_unit(p, q) ==> !(#[trigger] b.square(q)).allows(
                s.value_spec(),
            )
    } by {
        let sa = a.square(p);
        let sb = b.square(p);
        assert(sa.propagated);
        lemma_narrows_count(sb, sa);
        if sb.count() == 1 {
            assert(sa.count() == 1);
            lemma_narrows_known_value(sb, sa);
            assert forall|q: int| 0 <= q < 81 && q != p && same_unit(p, q) implies !(
            #[trigger] b.square(q)).allows(sb.value_spec()) by {
                assert(!a.square(q).allows(sa.value_spec()));
                assert(b.square(q).narrows(a.square(q)));
            }
        }
    }
}

/// A fully known board on which nothing is left to propagate is a valid
/// solution: every propagated square excludes its value from its peers, so
/// peers hold pairwise distinct digits.
pub proof fn lemma_deduced_board_valid(b: Board)
    requires
        b.propagation_complete(),
        b.all_known(),
        forall|p: int|
            0 <= p < 81 ==> !(!(#[trigger] b.square(p)).propagated && b.square(p).count() == 1),
    ensures
        b.valid_solution(),
{
    assert forall|p: int, q: int|
        0 <= p < 81 && 0 <= q < 81 && p != q && #[trigger] same_unit(p, q) implies b.square(
        p,
    ).value_spec() != b.square(q).value_spec() by {
        let sp = b.square(p);
        let sq = b.square(q);
        assert(sp.count() == 1 && sq.count() == 1);
        assert(sp.propagated);
        assert(!sq.allows(sp.value_spec()));
        lemma_known_value(sq);
        assert(sq.allows(sq.value_spec()));
    }
}

impl Board {
    /// Row-major index of the square at 1-based `(row, col)`.
    pub fn position_of(row: usize, col: usize) -> (p: usize)
        requires
            1 <= row <= 9,
            1 <= col <= 9,
        ensures
            p == spec_position(row as int, col as int),
            p < 81,
    {
        proof {
            lemma_position_of(row as int, col as int);
        }
        (row - 1) * 9 + (col - 1)
    }

    /// Sum of the candidate counts over the whole board.  81 means solved;
    /// 729 means every square is still fully open.
    pub fn possibilities(&self) -> (n: usize)
        ensures
            n == self.total_count(),
    {
        proof {
            lemma_total_from_bound(*self, 0);
        }
        let mut n: usize = 0;
        for p in 0..81usize
            invariant
                n + self.total_from(p as int) == self.total_count(),
                self.total_count() <= 729,
                n <= 729,
        {
            proof {
                lemma_total_from_bound(*self, p as int + 1);
                lemma_count_bound(self.square(p as int));
            }
            let c = self.values[p].possibilities();
            n = n + c;
        }
        n
    }

    /// Every square has settled on a single value.
    pub fn solved(&self) -> (b: bool)
        ensures
            b == self.all_known(),
    {
        for p in 0..81usize
            invariant
                forall|q: int| 0 <= q < p ==> (#[trigger] self.square(q)).count() == 1,
        {
            if !self.values[p].has_known_value() {
                assert(self.square(p as int).count() != 1);
                return false;
            }
        }
        true
    }

    /// Some square has run out of candidates, so this board cannot be
    /// completed: the branch must be abandoned.
    pub fn contains_contradiction(&self) -> (b: bool)
        ensures
            b == self.has_contradiction(),
    {
        for p in 0..81usize
            invariant
                forall|q: int| 0 <= q < p ==> (#[trigger] self.square(q)).count() != 0,
        {
            if self.values[p].is_contradiction() {
                assert(self.square(p as int).count() == 0);
                return true;
            }
        }
        false
    }

    /// Indices of the nine squares of row `row`, left to right.
    pub fn all_values_in_row(row: usize) -> (ps: [usize; 9])
        requires
            1 <= row <= 9,
        ensures
            forall|i: int| 0 <= i < 9 ==> (#[trigger] ps@[i]) == spec_position(row as int, i + 1),
            forall|i: int| 0 <= i < 9 ==> (#[trigger] ps@[i]) < 81,
            forall|i: int, j: int| 0 <= i < j < 9 ==> ps@[i] != ps@[j],
            forall|q: int|
                0 <= q < 81 && row_of(q) == row ==> ps@[col_of(q) - 1] == q && #[trigger] same_row(
                    spec_position(row as int, 1),
                    q,
                ),
    {
        let mut ps = [0usize; 9];
        for col in 1..10usize
            invariant
                1 <= row <= 9,
                forall|i: int|
                    0 <= i < col - 1 ==> (#[trigger] ps@[i]) == spec_position(row as int, i + 1)
                        && ps@[i] < 81,
        {
            ps[col - 1] = Board::position_of(row, col);
        }
        proof {
            assert forall|q: int| 0 <= q < 81 && row_of(q) == row implies ps@[col_of(q) - 1] == q
                && same_row(spec_position(row as int, 1), q) by {
                lemma_position_decompose(q);
                lemma_position_of(row as int, 1);
            }
        }
        ps
    }

    /// Indices of the nine squares of column `col`, top to bottom.
    pub fn all_values_in_column(col: usize) -> (ps: [usize; 9])
        requires
            1 <= col <= 9,
        ensures
            forall|i: int| 0 <= i < 9 ==> (#[trigger] ps@[i]) == spec_position(i + 1, col as int),
            forall|i: int| 0 <= i < 9 ==> (#[trigger] ps@[i]) < 81,
            forall|i: int, j: int| 0 <= i < j < 9 ==> ps@[i] != ps@[j],
            forall|q: int|
                0 <= q < 81 && col_of(q) == col ==> ps@[row_of(q) - 1] == q && #[trigger] same_col(
                    spec_position(1, col as int),
                    q,
                ),
    {
        let mut ps = [0usize; 9];
        for row in 1..10usize
            invariant
                1 <= col <= 9,
                forall|i: int|
                    0 <= i < row - 1 ==> (#[trigger] ps@[i]) == spec_position(i + 1, col as int)
                        && ps@[i] < 81,
        {
            ps[row - 1] = Board::position_of(row, col);
        }
        proof {
            assert forall|q: int| 0 <= q < 81 && col_of(q) == col implies ps@[row_of(q) - 1] == q
                && same_col(spec_position(1, col as int), q) by {
                lemma_position_decompose(q);
                lemma_position_of(1, col as int);
            }
        }
        ps
    }

    /// Indices of the nine squares of the subgrid at 0-based grid
    /// coordinates `(rowgrid, colgrid)`, in row-major order.
    pub fn all_values_in_subgrid(rowgrid: usize, colgrid: usize) -> (ps: [usize; 9])
        requires
            rowgrid <= 2,
            colgrid <= 2,
        ensures
            forall|i: int|
                0 <= i < 9 ==> (#[trigger] ps@[i]) == spec_position(
                    rowgrid * 3 + i / 3 + 1,
                    colgrid * 3 + i % 3 + 1,
                ),
            forall|i: int| 0 <= i < 9 ==> (#[trigger] ps@[i]) < 81,
            forall|i: int, j: int| 0 <= i < j < 9 ==> ps@[i] != ps@[j],
            forall|q: int|
                0 <= q < 81 && grid_row_of(q) == rowgrid && grid_col_of(q) == colgrid ==> ps@[
                    grid_slot_of(q)
                ] == q,
    {
        let mut ps = [0usize; 9];
        let row_offset = rowgrid * 3;
        let col_offset = colgrid * 3;
        let mut pos: usize = 0;
        for r in 1..4usize
            invariant
                rowgrid <= 2,
                colgrid <= 2,
                row_offset == rowgrid * 3,
                col_offset == colgrid * 3,
                pos == (r - 1) * 3,
                forall|i: int|
                    0 <= i < pos ==> (#[trigger] ps@[i]) == spec_position(
                        rowgrid * 3 + i / 3 + 1,
                        colgrid * 3 + i % 3 + 1,
                    ) && ps@[i] < 81,
        {
            for c in 1..4usize
                invariant
                    rowgrid <= 2,
                    colgrid <= 2,
                    row_offset == rowgrid * 3,
                    col_offset == colgrid * 3,
                    1 <= r <= 3,
                    pos == (r - 1) * 3 + (c - 1),
                    forall|i: int|
                        0 <= i < pos ==> (#[trigger] ps@[i]) == spec_position(
                            rowgrid * 3 + i / 3 + 1,
                            colgrid * 3 + i % 3 + 1,
                        ) && ps@[i] < 81,
            {
                ps[pos] = Board::position_of(row_offset + r, col_offset + c);
                proof {
                    vstd::arithmetic::div_mod::lemma_fundamental_div_mod_converse(
                        pos as int,
                        3,
                        r - 1,
                        c - 1,
                    );
                }
                pos = pos + 1;
            }
        }
        proof {
            assert forall|q: int|
                0 <= q < 81 && grid_row_of(q) == rowgrid && grid_col_of(q)
                    == colgrid implies ps@[grid_slot_of(q)] == q by {
                lemma_position_decompose(q);
            }
            assert forall|i: int, j: int| 0 <= i < j < 9 implies ps@[i] != ps@[j] by {
                vstd::arithmetic::div_mod::lemma_fundamental_div_mod(i, 3);
                vstd::arithmetic::div_mod::lemma_fundamental_div_mod(j, 3);
                vstd::arithmetic::div_mod::lemma_mod_pos_bound(i, 3);
                vstd::arithmetic::div_mod::lemma_mod_pos_bound(j, 3);
                lemma_position_of(rowgrid * 3 + i / 3 + 1, colgrid * 3 + i % 3 + 1);
                lemma_position_of(rowgrid * 3 + j / 3 + 1, colgrid * 3 + j % 3 + 1);
            }
        }
        ps
    }
}

/// What `first_pending` points at: a pending square with no pending square
/// before it, or 81 exactly when no square is pending at all.
pub proof fn lemma_first_pending(b: Board)
    ensures
        0 <= b.first_pending() <= 81,
        b.first_pending() < 81 ==> !b.square(b.first_pending()).propagated && b.square(
            b.first_pending(),
        ).count() == 1,
        forall|q: int|
            0 <= q < b.first_pending() ==> !(!(#[trigger] b.square(q)).propagated && b.square(
                q,
            ).count() == 1),
        (b.first_pending() == 81) <==> b.no_pending_propagation(),
{
    lemma_first_pending_from(b, 0);
    if b.first_pending() < 81 {
        assert(!b.no_pending_propagation());
    }
}

proof fn lemma_first_pending_from(b: Board, q0: int)
    requires
        0 <= q0 <= 81,
    ensures
        q0 <= b.first_pending_from(q0) <= 81,
        b.first_pending_from(q0) < 81 ==> !b.square(b.first_pending_from(q0)).propagated
            && b.square(b.first_pending_from(q0)).count() == 1,
        forall|q: int|
            q0 <= q < b.first_pending_from(q0) ==> !(!(#[trigger] b.square(q)).propagated
                && b.square(q).count() == 1),
    decreases 81 - q0,
{
    if q0 < 81 && !(!b.square(q0).propagated && b.square(q0).count() == 1) {
        lemma_first_pending_from(b, q0 + 1);
    }
}

/// `c` is a fully solved valid grid drawn from the candidates of `b`: the
/// boards that count as answers to the puzzle `b` poses.
pub open spec fn solution_within(c: Board, b: Board) -> bool {
    &&& c.all_known()
    &&& c.valid_solution()
    &&& forall|p: int| 0 <= p < 81 ==> (#[trigger] c.square(p)).narrows(b.square(p))
}

/// A solution within a narrowed board is a solution within the board the
/// narrowing started from.
pub proof fn lemma_solution_within_narrowed(c: Board, b2: Board, b1: Board)
    requires
        solution_within(c, b2),
        b2.narrowed_keeping_flags(b1) || b2.evolves_from(b1),
    ensures
        solution_within(c, b1),
{
    assert forall|p: int| 0 <= p < 81 implies (#[trigger] c.square(p)).narrows(b1.square(p)) by {
        assert(c.square(p).narrows(b2.square(p)));
        if b2.narrowed_keeping_flags(b1) {
            assert(b2.square(p).narrows(b1.square(p)));
        } else {
            assert(b2.square(p).evolves_from(b1.square(p)));
        }
    }
}

/// A board with an empty square admits no solution.
pub proof fn lemma_contradiction_refutes_solutions(b: Board, c: Board)
    requires
        b.has_contradiction(),
    ensures
        !solution_within(c, b),
{
    if solution_within(c, b) {
        let q = choose|q: int| 0 <= q < 81 && (#[trigger] b.square(q)).count() == 0;
        lemma_known_value(c.square(q));
        assert(b.square(q).allows(c.square(q).value_spec()));
        lemma_allows_counts(b.square(q), 1, c.square(q).value_spec());
    }
}

/// A solution agrees with every known square of the board it solves.
pub proof fn lemma_solution_keeps_known(c: Board, b: Board, q: int)
    requires
        solution_within(c, b),
        0 <= q < 81,
        b.square(q).count() == 1,
    ensures
        c.square(q).value_spec() == b.square(q).value_spec(),
{
    lemma_known_value(c.square(q));
    lemma_known_value(b.square(q));
    assert(b.square(q).allows(c.square(q).value_spec()));
}

/// No solution repeats a known value among the peers of its square.
pub proof fn lemma_peer_value_excluded(c: Board, b: Board, sp: int, q: int)
    requires
        solution_within(c, b),
        0 <= sp < 81,
        0 <= q < 81,
        q != sp,
        same_unit(sp, q),
        b.square(sp).count() == 1,
    ensures
        c.square(q).value_spec() != b.square(sp).value_spec(),
{
    lemma_solution_keeps_known(c, b, sp);
}

/// Removing a digit that the solution does not place at `q` keeps the
/// solution.
pub proof fn lemma_removal_keeps_solution(c: Board, b1: Board, b2: Board, q: int, v: int)
    requires
        0 <= q < 81,
        forall|p: int| 0 <= p < 81 && p != q ==> (#[trigger] b2.square(p)) == b1.square(p),
        forall|u: int| b2.square(q).allows(u) <==> b1.square(q).allows(u) && u != v,
        solution_within(c, b1),
        c.square(q).value_spec() != v,
    ensures
        solution_within(c, b2),
{
    lemma_known_value(c.square(q));
    assert forall|p: int| 0 <= p < 81 implies (#[trigger] c.square(p)).narrows(b2.square(p)) by {
        if p == q {
            assert forall|u: int| c.square(q).allows(u) implies b2.square(q).allows(u) by {
                assert(u == c.square(q).value_spec());
                assert(b1.square(q).allows(u));
            }
        } else {
            assert(c.square(p).narrows(b1.square(p)));
        }
    }
}

/// Pinning a square to the digit the solution places there keeps the
/// solution.
pub proof fn lemma_pinning_keeps_solution(c: Board, b1: Board, b2: Board, q: int, v: int)
    requires
        0 <= q < 81,
        forall|p: int| 0 <= p < 81 && p != q ==> (#[trigger] b2.square(p)) == b1.square(p),
        forall|u: int| b2.square(q).allows(u) <==> u == v,
        solution_within(c, b1),
        c.square(q).value_spec() == v,
    ensures
        solution_within(c, b2),
{
    lemma_known_value(c.square(q));
    assert forall|p: int| 0 <= p < 81 implies (#[trigger] c.square(p)).narrows(b2.square(p)) by {
        if p == q {
            assert forall|u: int| c.square(q).allows(u) implies b2.square(q).allows(u) by {
                assert(u == c.square(q).value_spec());
            }
        } else {
            assert(c.square(p).narrows(b1.square(p)));
        }
    }
}

/// Within a solution, every digit appears among the nine squares of a unit.
pub proof fn lemma_solution_covers_unit(c: Board, positions: Seq<usize>, d: int)
    requires
        c.all_known(),
        c.valid_solution(),
        positions.len() == 9,
        forall|i: int| 0 <= i < 9 ==> (#[trigger] positions[i]) < 81,
        forall|i: int, j: int| 0 <= i < j < 9 ==> positions[i] != positions[j],
        forall|i: int, j: int|
            0 <= i < 9 && 0 <= j < 9 ==> #[trigger] same_unit(
                positions[i] as int,
                positions[j] as int,
            ),
        1 <= d <= 9,
    ensures
        exists|i: int| 0 <= i < 9 && c.square(#[trigger] positions[i] as int).value_spec() == d,
{
    let f = |i: int| c.square(positions[i] as int).value_spec();
    assert forall|i: int| 0 <= i < 9 implies 1 <= #[trigger] f(i) <= 9 by {
        lemma_known_value(c.square(positions[i] as int));
    }
    assert forall|i: int, j: int| 0 <= i < j < 9 implies #[trigger] f(i) != #[trigger] f(j) by {
        assert(same_unit(positions[i] as int, positions[j] as int));
    }
    crate::units::lemma_nine_distinct_values(f, d);
    let wi = choose|i: int| 0 <= i < 9 && #[trigger] f(i) == d;
    assert(c.square(positions[wi] as int).value_spec() == d);
}

/// The squares of one row form a unit.
proof fn lemma_row_list_units(row: int, ps: Seq<usize>)
    requires
        1 <= row <= 9,
        ps.len() == 9,
        forall|i: int| 0 <= i < 9 ==> (#[trigger] ps[i]) == spec_position(row, i + 1),
    ensures
        forall|i: int, j: int|
            0 <= i < 9 && 0 <= j < 9 ==> #[trigger] same_unit(ps[i] as int, ps[j] as int),
{
    assert forall|i: int, j: int| 0 <= i < 9 && 0 <= j < 9 implies #[trigger] same_unit(
        ps[i] as int,
        ps[j] as int,
    ) by {
        lemma_position_of(row, i + 1);
        lemma_position_of(row, j + 1);
        assert(same_row(ps[i] as int, ps[j] as int));
    }
}

/// The squares of one column form a unit.
proof fn lemma_col_list_units(col: int, ps: Seq<usize>)
    requires
        1 <= col <= 9,
        ps.len() == 9,
        forall|i: int| 0 <= i < 9 ==> (#[trigger] ps[i]) == spec_position(i + 1, col),
    ensures
        forall|i: int, j: int|
            0 <= i < 9 && 0 <= j < 9 ==> #[trigger] same_unit(ps[i] as int, ps[j] as int),
{
    assert forall|i: int, j: int| 0 <= i < 9 && 0 <= j < 9 implies #[trigger] same_unit(
        ps[i] as int,
        ps[j] as int,
    ) by {
        lemma_position_of(i + 1, col);
        lemma_position_of(j + 1, col);
        assert(same_col(ps[i] as int, ps[j] as int));
    }
}

/// The squares of one subgrid form a unit.
proof fn lemma_grid_list_units(rg: int, cg: int, ps: Seq<usize>)
    requires
        0 <= rg <= 2,
        0 <= cg <= 2,
        ps.len() == 9,
        forall|i: int|
            0 <= i < 9 ==> (#[trigger] ps[i]) == spec_position(
                rg * 3 + i / 3 + 1,
                cg * 3 + i % 3 + 1,
            ),
    ensures
        forall|i: int, j: int|
            0 <= i < 9 && 0 <= j < 9 ==> #[trigger] same_unit(ps[i] as int, ps[j] as int),
{
    assert forall|i: int, j: int| 0 <= i < 9 && 0 <= j < 9 implies #[trigger] same_unit(
        ps[i] as int,
        ps[j] as int,
    ) by {
        lemma_grid_member(rg, cg, i);
        lemma_grid_member(rg, cg, j);
        assert(same_grid(ps[i] as int, ps[j] as int));
    }
}

/// After a popped experiment's board runs into a contradiction, the
/// remaining queue still covers every solution of the stalled base board.
proof fn lemma_cover_after_discard(
    base: Board,
    q_at_entry: Seq<Experimental>,
    queue: Seq<Experimental>,
    e_board0: Board,
    e_post: Board,
)
    requires
        q_at_entry.len() > 0,
        queue == q_at_entry.drop_last(),
        e_board0 == q_at_entry.last().board,
        e_post.has_contradiction(),
        forall|c: Board| #[trigger] solution_within(c, e_board0) ==> solution_within(c, e_post),
        forall|c: Board|
            #[trigger] solution_within(c, base) ==> exists|i: int|
                0 <= i < q_at_entry.len() && solution_within(c, q_at_entry[i].board),
    ensures
        forall|c: Board|
            #[trigger] solution_within(c, base) ==> exists|i: int|
                0 <= i < queue.len() && solution_within(c, queue[i].board),
{
    assert forall|c: Board| #[trigger] solution_within(c, base) implies exists|i: int|
        0 <= i < queue.len() && solution_within(c, queue[i].board) by {
        let i0 = choose|i0: int|
            0 <= i0 < q_at_entry.len() && solution_within(c, q_at_entry[i0].board);
        if i0 < q_at_entry.len() - 1 {
            assert(queue[i0] == q_at_entry[i0]);
            assert(solution_within(c, queue[i0].board));
        } else {
            assert(solution_within(c, e_board0));
            assert(solution_within(c, e_post));
            lemma_contradiction_refutes_solutions(e_post, c);
        }
    }
}

/// After a stalled popped experiment spawns its children, the grown queue
/// still covers every solution of the stalled base board.
proof fn lemma_cover_after_generate(
    base: Board,
    q_at_entry: Seq<Experimental>,
    q_before: Seq<Experimental>,
    queue: Seq<Experimental>,
    e_board0: Board,
    e_post: Board,
)
    requires
        q_at_entry.len() > 0,
        q_before == q_at_entry.drop_last(),
        e_board0 == q_at_entry.last().board,
        forall|c: Board| #[trigger] solution_within(c, e_board0) ==> solution_within(c, e_post),
        forall|j: int| 0 <= j < q_before.len() ==> queue.contains(#[trigger] q_before[j]),
        forall|c: Board|
            #[trigger] solution_within(c, e_post) ==> exists|i: int|
                0 <= i < queue.len() && solution_within(c, queue[i].board),
        forall|c: Board|
            #[trigger] solution_within(c, base) ==> exists|i: int|
                0 <= i < q_at_entry.len() && solution_within(c, q_at_entry[i].board),
    ensures
        forall|c: Board|
            #[trigger] solution_within(c, base) ==> exists|i: int|
                0 <= i < queue.len() && solution_within(c, queue[i].board),
{
    assert forall|c: Board| #[trigger] solution_within(c, base) implies exists|i: int|
        0 <= i < queue.len() && solution_within(c, queue[i].board) by {
        let i0 = choose|i0: int|
            0 <= i0 < q_at_entry.len() && solution_within(c, q_at_entry[i0].board);
        if i0 < q_at_entry.len() - 1 {
            assert(q_before[i0] == q_at_entry[i0]);
            assert(queue.contains(q_before[i0]));
            let xn = choose|xn: int| 0 <= xn < queue.len() && queue[xn] == q_before[i0];
            assert(solution_within(c, queue[xn].board));
        } else {
            assert(solution_within(c, e_board0));
            assert(solution_within(c, e_post));
        }
    }
}

/// Boards with the same squares agree on the absence of singletons.
pub proof fn lemma_singleton_prefixes_transfer(a: Board, b: Board, r: int, c: int, k: int)
    requires
        b.same_squares(a),
        a.rows_singleton_free_upto(r),
        a.cols_singleton_free_upto(c),
        a.grids_singleton_free_upto(k),
    ensures
        b.rows_singleton_free_upto(r),
        b.cols_singleton_free_upto(c),
        b.grids_singleton_free_upto(k),
{
    assert forall|p: int, d: int|
        0 <= p < 81 && 1 <= d <= 9 && row_of(p) < r && #[trigger] b.square(p).allows(d)
            && b.row_unique(p, d) implies b.square(p).count() == 1 by {
        assert(b.square(p) == a.square(p));
        assert(a.row_unique(p, d)) by {
            assert forall|q: int| 0 <= q < 81 && q != p && same_row(p, q) implies !(
            #[trigger] a.square(q)).allows(d) by {
                assert(a.square(q) == b.square(q));
                assert(!b.square(q).allows(d));
            }
        }
        assert(a.square(p).allows(d) && a.square(p).count() == 1);
    }
    assert forall|p: int, d: int|
        0 <= p < 81 && 1 <= d <= 9 && col_of(p) < c && #[trigger] b.square(p).allows(d)
            && b.col_unique(p, d) implies b.square(p).count() == 1 by {
        assert(b.square(p) == a.square(p));
        assert(a.col_unique(p, d)) by {
            assert forall|q: int| 0 <= q < 81 && q != p && same_col(p, q) implies !(
            #[trigger] a.square(q)).allows(d) by {
                assert(a.square(q) == b.square(q));
                assert(!b.square(q).allows(d));
            }
        }
        assert(a.square(p).allows(d) && a.square(p).count() == 1);
    }
    assert forall|p: int, d: int|
        0 <= p < 81 && 1 <= d <= 9 && grid_row_of(p) * 3 + grid_col_of(p) < k
            && #[trigger] b.square(p).allows(d) && b.grid_unique(p, d) implies b.square(
        p,
    ).count() == 1 by {
        assert(b.square(p) == a.square(p));
        assert(a.grid_unique(p, d)) by {
            assert forall|q: int| 0 <= q < 81 && q != p && same_grid(p, q) implies !(
            #[trigger] a.square(q)).allows(d) by {
                assert(a.square(q) == b.square(q));
                assert(!b.square(q).allows(d));
            }
        }
        assert(a.square(p).allows(d) && a.square(p).count() == 1);
    }
}

/// Board narrowing composes.
pub proof fn lemma_narrowed_transitive(a: Board, b: Board, c: Board)
    requires
        b.narrowed_keeping_flags(a),
        c.narrowed_keeping_flags(b),
    ensures
        c.narrowed_keeping_flags(a),
{
    assert forall|p: int| 0 <= p < 81 implies {
        let x = #[trigger] c.square(p);
        let y = a.square(p);
        x.row == y.row && x.col == y.col && x.propagated == y.propagated && x.narrows(y)
    } by {
        assert(b.square(p).narrows(a.square(p)));
        assert(c.square(p).narrows(b.square(p)));
    }
}

/// Every board is a successor of itself.
pub proof fn lemma_evolves_reflexive(b: Board)
    ensures
        b.evolves_from(b),
        b.narrowed_keeping_flags(b),
{
    assert forall|p: int| 0 <= p < 81 implies (#[trigger] b.square(p)).evolves_from(
        b.square(p),
    ) by {
        assert(b.square(p).narrows(b.square(p)));
    }
}

impl Board {
    /// Remove `value` from the candidates of the square at index `pos`,
    /// reporting whether that actually narrowed the square.
    fn remove_candidate(&mut self, pos: usize, value: usize) -> (removed: bool)
        requires
            pos < 81,
            1 <= value <= 9,
        ensures
            removed == old(self).square(pos as int).allows(value as int),
            forall|p: int|
                0 <= p < 81 && p != pos ==> (#[trigger] final(self).square(p)) == old(self).square(
                    p,
                ),
            forall|u: int|
                final(self).square(pos as int).allows(u) <==> old(self).square(pos as int).allows(u)
                    && u != value,
            final(self).square(pos as int).row == old(self).square(pos as int).row,
            final(self).square(pos as int).col == old(self).square(pos as int).col,
            final(self).square(pos as int).propagated == old(self).square(pos as int).propagated,
            final(self).narrowed_keeping_flags(*old(self)),
            final(self).name == old(self).name,
            final(self).depth == old(self).depth,
            final(self).total_count() <= old(self).total_count(),
            removed ==> final(self).total_count() + 1 == old(self).total_count(),
            !removed ==> final(self).same_squares(*old(self)),
            !removed ==> *final(self) == *old(self),
            old(self).wf() ==> final(self).wf(),
            old(self).propagation_complete() ==> final(self).propagation_complete(),
    {
        let sq = self.values[pos];
        if sq.is_possibly(value) {
            let mut s = sq;
            s.cant_have_value(value);
            self.values[pos] = s;
            proof {
                lemma_count_remove(sq, s, value as int);
                lemma_total_update(*old(self), *self, pos as int, 0);
                if old(self).wf() {
                    assert forall|p: int| 0 <= p < 81 implies (#[trigger] self.square(p)).row
                        == row_of(p) && self.square(p).col == col_of(p) by {
                        if p != pos {
                            assert(self.square(p) == old(self).square(p));
                        }
                        assert(old(self).square(p).row == row_of(p));
                    }
                }
                if old(self).propagation_complete() {
                    lemma_narrow_preserves_completeness(*old(self), *self);
                }
            }
            true
        } else {
            false
        }
    }

    /// Find a square holding a known value that has not yet been pushed out
    /// to its peers.
    fn find_cell_to_propagate(&self) -> (r: Option<SquareValue>)
        requires
            self.wf(),
        ensures
            match r {
                Some(sq) => {
                    &&& 1 <= sq.row <= 9
                    &&& 1 <= sq.col <= 9
                    &&& 0 <= spec_position(sq.row as int, sq.col as int) < 81
                    &&& self.square(spec_position(sq.row as int, sq.col as int)) == sq
                    &&& sq.count() == 1
                    &&& !sq.propagated
                    &&& spec_position(sq.row as int, sq.col as int) == self.first_pending()
                },
                None => self.no_pending_propagation() && self.first_pending() == 81,
            },
    {
        for p in 0..81usize
            invariant
                self.wf(),
                forall|q: int|
                    0 <= q < p ==> !(!(#[trigger] self.square(q)).propagated && self.square(
                        q,
                    ).count() == 1),
        {
            if self.values[p].needs_to_be_propagated() {
                proof {
                    lemma_position_decompose(p as int);
                    assert(self.square(p as int).row == row_of(p as int));
                    assert(self.square(p as int).col == col_of(p as int));
                    assert(spec_position(
                        self.square(p as int).row as int,
                        self.square(p as int).col as int,
                    ) == p as int);
                    lemma_first_pending(*self);
                    assert(self.first_pending() == p as int) by {
                        if self.first_pending() < p as int {
                            let fp = self.first_pending();
                            assert(!(!self.square(fp).propagated && self.square(fp).count() == 1));
                        }
                        if self.first_pending() > p as int {
                            assert(!(!self.square(p as int).propagated && self.square(
                                p as int,
                            ).count() == 1));
                        }
                    }
                }
                return Some(self.values[p]);
            }
        }
        proof {
            lemma_first_pending(*self);
        }
        None
    }

    /// Remove the known value of `square` from every listed position except
    /// the square's own.
    fn propagate_known_values_in_all_except(&mut self, square: &SquareValue, positions: [usize; 9])
        requires
            forall|i: int| 0 <= i < 9 ==> (#[trigger] positions@[i]) < 81,
            square.count() == 1,
            1 <= square.row <= 9,
            1 <= square.col <= 9,
            old(self).square(spec_position(square.row as int, square.col as int)) == *square,
            forall|i: int|
                0 <= i < 9 ==> #[trigger] same_unit(
                    spec_position(square.row as int, square.col as int),
                    positions@[i] as int,
                ),
        ensures
            forall|c: Board|
                #[trigger] solution_within(c, *old(self)) ==> solution_within(c, *final(self)),
            final(self).narrowed_keeping_flags(*old(self)),
            final(self).name == old(self).name,
            final(self).depth == old(self).depth,
            final(self).total_count() <= old(self).total_count(),
            forall|i: int|
                0 <= i < 9 && (#[trigger] positions@[i]) != spec_position(
                    square.row as int,
                    square.col as int,
                ) ==> !final(self).square(positions@[i] as int).allows(square.value_spec()),
            forall|p: int, u: int|
                0 <= p < 81 && u != square.value_spec() ==> (final(self).square(p).allows(u) <==> old(
                    self,
                ).square(p).allows(u)),
            final(self).square(spec_position(square.row as int, square.col as int)) == old(
                self,
            ).square(spec_position(square.row as int, square.col as int)),
            forall|q: int|
                0 <= q < 81 && (forall|i: int| 0 <= i < 9 ==> positions@[i] != q) ==> (
                #[trigger] final(self).square(q)) == old(self).square(q),
    {
        proof {
            lemma_known_value(*square);
            lemma_position_of(square.row as int, square.col as int);
            lemma_evolves_reflexive(*old(self));
        }
        let known_position = Board::position_of(square.row, square.col);
        let known_value = square.value();
        for i in 0..9usize
            invariant
                forall|j: int| 0 <= j < 9 ==> (#[trigger] positions@[j]) < 81,
                square.count() == 1,
                1 <= square.row <= 9,
                1 <= square.col <= 9,
                known_position == spec_position(square.row as int, square.col as int),
                known_position < 81,
                known_value == square.value_spec(),
                1 <= known_value <= 9,
                old(self).square(known_position as int) == *square,
                forall|j: int|
                    0 <= j < 9 ==> #[trigger] same_unit(
                        known_position as int,
                        positions@[j] as int,
                    ),
                forall|c: Board|
                    #[trigger] solution_within(c, *old(self)) ==> solution_within(c, *self),
                self.narrowed_keeping_flags(*old(self)),
                self.name == old(self).name,
                self.depth == old(self).depth,
                self.total_count() <= old(self).total_count(),
                forall|j: int|
                    0 <= j < i && (#[trigger] positions@[j]) != known_position ==> !self.square(
                        positions@[j] as int,
                    ).allows(known_value as int),
                forall|p: int, u: int|
                    0 <= p < 81 && u != known_value ==> (self.square(p).allows(u) <==> old(
                        self,
                    ).square(p).allows(u)),
                self.square(known_position as int) == old(self).square(known_position as int),
                forall|q: int|
                    0 <= q < 81 && (forall|j: int| 0 <= j < 9 ==> positions@[j] != q) ==> (
                    #[trigger] self.square(q)) == old(self).square(q),
        {
            let pos = positions[i];
            if pos != known_position {
                let ghost prev = *self;
                let _ = self.remove_candidate(pos, known_value);
                proof {
                    lemma_narrowed_transitive(*old(self), prev, *self);
                    lemma_total_monotone(prev, *self, 0);
                    assert forall|j: int|
                        0 <= j < i + 1 && (#[trigger] positions@[j])
                            != known_position implies !self.square(positions@[j] as int).allows(
                        known_value as int,
                    ) by {
                        if j < i {
                            assert(!prev.square(positions@[j] as int).allows(known_value as int));
                            assert(self.square(positions@[j] as int).narrows(
                                prev.square(positions@[j] as int),
                            ));
                        }
                    }
                    assert forall|c: Board|
                        #[trigger] solution_within(c, *old(self)) implies solution_within(
                        c,
                        *self,
                    ) by {
                        assert(solution_within(c, prev));
                        assert(prev.square(known_position as int).count() == 1);
                        lemma_peer_value_excluded(
                            c,
                            prev,
                            known_position as int,
                            pos as int,
                        );
                        lemma_removal_keeps_solution(
                            c,
                            prev,
                            *self,
                            pos as int,
                            known_value as int,
                        );
                    }
                    assert forall|q: int|
                        0 <= q < 81 && (forall|j: int| 0 <= j < 9 ==> positions@[j]
                            != q) implies (#[trigger] self.square(q)) == old(self).square(q) by {
                        assert(positions@[i as int] != q);
                        assert(self.square(q) == prev.square(q));
                    }
                }
            }
        }
    }

    /// Unit propagation: push one square's known value out to its row,
    /// column and subgrid, then mark the square as propagated.  Reports
    /// whether any square was left to propagate.
    fn propagate_known_values(&mut self) -> (progress: bool)
        requires
            old(self).wf(),
            old(self).propagation_complete(),
        ensures
            final(self).wf(),
            final(self).propagation_complete(),
            final(self).evolves_from(*old(self)),
            final(self).name == old(self).name,
            final(self).depth == old(self).depth,
            final(self).total_count() <= old(self).total_count(),
            final(self).propagated_count() >= old(self).propagated_count(),
            !progress ==> final(self).same_squares(*old(self)) && (forall|p: int|
                0 <= p < 81 ==> !(!(#[trigger] final(self).square(p)).propagated
                    && final(self).square(p).count() == 1)),
            progress ==> final(self).propagated_count() == old(self).propagated_count() + 1,
            forall|c: Board|
                #[trigger] solution_within(c, *old(self)) ==> solution_within(c, *final(self)),
            progress <==> old(self).first_pending() < 81,
            progress ==> ({
                let p = old(self).first_pending();
                let v = old(self).square(p).value_spec();
                &&& final(self).square(p).propagated
                &&& forall|u: int|
                    final(self).square(p).allows(u) <==> old(self).square(p).allows(u)
                &&& forall|q: int|
                    0 <= q < 81 && q != p && same_unit(p, q) ==> !(#[trigger] final(self).square(
                        q,
                    )).allows(v) && (forall|u: int|
                        u != v ==> (final(self).square(q).allows(u) <==> old(self).square(q).allows(
                            u,
                        ))) && final(self).square(q).propagated == old(self).square(q).propagated
                &&& forall|q: int|
                    0 <= q < 81 && q != p && !same_unit(p, q) ==> (#[trigger] final(self).square(q))
                        == old(self).square(q)
            }),
    {
        let candidate = self.find_cell_to_propagate();
        match candidate {
            None => {
                proof {
                    lemma_evolves_reflexive(*self);
                }
                false
            },
            Some(value) => {
                let ghost b0 = *self;
                let ghost pos_spec = spec_position(value.row as int, value.col as int);
                let ghost v = value.value_spec();
                proof {
                    lemma_known_value(value);
                    lemma_position_decompose(pos_spec);
                }
                let column_list = Board::all_values_in_column(value.col);
                proof {
                    assert(self.square(pos_spec) == value);
                    assert forall|i: int| 0 <= i < 9 implies #[trigger] same_unit(
                        pos_spec,
                        column_list@[i] as int,
                    ) by {
                        lemma_position_of(i + 1, value.col as int);
                        assert(same_col(pos_spec, column_list@[i] as int));
                    }
                }
                self.propagate_known_values_in_all_except(&value, column_list);
                let ghost b1 = *self;
                let row_list = Board::all_values_in_row(value.row);
                proof {
                    assert(b1.square(pos_spec) == value);
                    assert forall|i: int| 0 <= i < 9 implies #[trigger] same_unit(
                        pos_spec,
                        row_list@[i] as int,
                    ) by {
                        lemma_position_of(value.row as int, i + 1);
                        assert(same_row(pos_spec, row_list@[i] as int));
                    }
                }
                self.propagate_known_values_in_all_except(&value, row_list);
                let ghost b2 = *self;
                let rg = value.row_grid();
                let cg = value.col_grid();
                proof {
                    assert(rg == grid_row_of(pos_spec) && cg == grid_col_of(pos_spec)) by {
                        lemma_position_decompose(pos_spec);
                    }
                }
                let grid_list = Board::all_values_in_subgrid(rg, cg);
                proof {
                    assert(b2.square(pos_spec) == value);
                    assert forall|i: int| 0 <= i < 9 implies #[trigger] same_unit(
                        pos_spec,
                        grid_list@[i] as int,
                    ) by {
                        lemma_grid_member(rg as int, cg as int, i);
                        assert(same_grid(pos_spec, grid_list@[i] as int));
                    }
                }
                self.propagate_known_values_in_all_except(&value, grid_list);
                let ghost b3 = *self;
                proof {
                    lemma_narrowed_transitive(b0, b1, b2);
                    lemma_narrowed_transitive(b0, b2, b3);
                    lemma_narrow_preserves_completeness(b0, b3);
                    lemma_total_monotone(b0, b3, 0);
                    // The value is now absent from every peer of the square.
                    assert forall|q: int|
                        0 <= q < 81 && q != pos_spec && same_unit(pos_spec, q) implies !b3.square(
                        q,
                    ).allows(v) by {
                        lemma_position_decompose(q);
                        if same_col(pos_spec, q) {
                            assert(column_list@[row_of(q) - 1] == q);
                            assert(!b1.square(q).allows(v));
                            assert(b2.square(q).narrows(b1.square(q)));
                            assert(b3.square(q).narrows(b2.square(q)));
                        } else if same_row(pos_spec, q) {
                            assert(row_list@[col_of(q) - 1] == q);
                            assert(!b2.square(q).allows(v));
                            assert(b3.square(q).narrows(b2.square(q)));
                        } else {
                            assert(same_grid(pos_spec, q));
                            assert(grid_list@[grid_slot_of(q)] == q);
                            assert(!b3.square(q).allows(v));
                        }
                    }
                }
                let pos = Board::position_of(value.row, value.col);
                let mut s = self.values[pos];
                s.has_been_propagated();
                self.values[pos] = s;
                proof {
                    let b4 = *self;
                    assert(b3.square(pos_spec) == b0.square(pos_spec));
                    assert(b4.square(pos_spec).count() == 1) by {
                        lemma_count_agree_from(b3.square(pos_spec), b4.square(pos_spec), 1);
                    }
                    assert(b4.square(pos_spec).value_spec() == v) by {
                        lemma_narrows_known_value(b4.square(pos_spec), b3.square(pos_spec));
                    }
                    assert forall|p: int| 0 <= p < 81 implies (#[trigger] b4.square(p)).row
                        == row_of(p) && b4.square(p).col == col_of(p) by {
                        if p != pos_spec {
                            assert(b4.square(p) == b3.square(p));
                        }
                        assert(b3.square(p).row == row_of(p) && b3.square(p).col == col_of(p));
                    }
                    assert(b4.wf());
                    assert(b4.evolves_from(b3)) by {
                        assert forall|p: int| 0 <= p < 81 implies (#[trigger] b4.square(
                            p,
                        )).evolves_from(b3.square(p)) by {
                            assert(b4.square(p).narrows(b3.square(p)));
                        }
                    }
                    lemma_narrowed_evolves(b0, b3);
                    lemma_evolves_transitive(b0, b3, b4);
                    assert(b4.propagation_complete()) by {
                        assert forall|p: int|
                            0 <= p < 81 && (#[trigger] b4.square(p)).propagated implies {
                            let s2 = b4.square(p);
                            &&& s2.count() <= 1
                            &&& s2.count() == 1 ==> forall|q: int|
                                0 <= q < 81 && q != p && same_unit(p, q) ==> !(
                                #[trigger] b4.square(q)).allows(s2.value_spec())
                        } by {
                            if p == pos_spec {
                                assert forall|q: int|
                                    0 <= q < 81 && q != p && same_unit(p, q) implies !(
                                #[trigger] b4.square(q)).allows(b4.square(p).value_spec()) by {
                                    assert(!b3.square(q).allows(v));
                                    assert(b4.square(q) == b3.square(q));
                                }
                            } else {
                                assert(b3.square(p).propagated);
                                assert(b3.square(p).count() <= 1);
                                assert(b4.square(p) == b3.square(p));
                                if b4.square(p).count() == 1 {
                                    assert forall|q: int|
                                        0 <= q < 81 && q != p && same_unit(p, q) implies !(
                                    #[trigger] b4.square(q)).allows(b4.square(p).value_spec()) by {
                                        assert(!b3.square(q).allows(b3.square(p).value_spec()));
                                        if q == pos_spec {
                                            assert(b4.square(q).narrows(b3.square(q)));
                                        } else {
                                            assert(b4.square(q) == b3.square(q));
                                        }
                                    }
                                }
                            }
                        }
                    }
                    lemma_propagated_same(b0, b3, 0);
                    lemma_propagated_update(b3, b4, pos_spec, 0);
                    lemma_total_update(b3, b4, pos_spec, 0);
                    lemma_position_of(value.row as int, value.col as int);
                    assert(pos_spec == old(self).first_pending());
                    assert(b4.square(pos_spec).propagated);
                    assert forall|u: int|
                        b4.square(pos_spec).allows(u) <==> old(self).square(pos_spec).allows(
                        u,
                    ) by {
                        assert(b4.square(pos_spec).possible_values@ == b3.square(
                            pos_spec,
                        ).possible_values@);
                    }
                    assert forall|q: int|
                        0 <= q < 81 && q != pos_spec && same_unit(pos_spec, q) implies !(
                    #[trigger] b4.square(q)).allows(v) && (forall|u: int|
                        u != v ==> (b4.square(q).allows(u) <==> old(self).square(q).allows(u)))
                        && b4.square(q).propagated == old(self).square(q).propagated by {
                        assert(b4.square(q) == b3.square(q));
                        assert(!b3.square(q).allows(v));
                        assert forall|u: int|
                            u != v implies (b4.square(q).allows(u) <==> old(self).square(q).allows(
                            u,
                        )) by {
                            assert(b3.square(q).allows(u) <==> b2.square(q).allows(u));
                            assert(b2.square(q).allows(u) <==> b1.square(q).allows(u));
                            assert(b1.square(q).allows(u) <==> b0.square(q).allows(u));
                        }
                        assert(b3.square(q).propagated == b0.square(q).propagated);
                    }
                    assert forall|q: int|
                        0 <= q < 81 && q != pos_spec && !same_unit(pos_spec, q) implies (
                    #[trigger] b4.square(q)) == old(self).square(q) by {
                        lemma_position_decompose(q);
                        assert forall|i: int| 0 <= i < 9 implies column_list@[i] != q by {
                            lemma_position_of(i + 1, value.col as int);
                            if column_list@[i] == q {
                                assert(same_col(pos_spec, q));
                            }
                        }
                        assert forall|i: int| 0 <= i < 9 implies row_list@[i] != q by {
                            lemma_position_of(value.row as int, i + 1);
                            if row_list@[i] == q {
                                assert(same_row(pos_spec, q));
                            }
                        }
                        assert forall|i: int| 0 <= i < 9 implies grid_list@[i] != q by {
                            lemma_grid_member(rg as int, cg as int, i);
                            if grid_list@[i] == q {
                                assert(same_grid(pos_spec, q));
                            }
                        }
                        assert(b1.square(q) == b0.square(q));
                        assert(b2.square(q) == b1.square(q));
                        assert(b3.square(q) == b2.square(q));
                        assert(b4.square(q) == b3.square(q));
                    }
                    assert forall|c: Board|
                        #[trigger] solution_within(c, b0) implies solution_within(c, b4) by {
                        assert(solution_within(c, b1));
                        assert(solution_within(c, b2));
                        assert(solution_within(c, b3));
                        assert forall|p: int| 0 <= p < 81 implies (#[trigger] c.square(p)).narrows(
                            b4.square(p),
                        ) by {
                            assert(c.square(p).narrows(b3.square(p)));
                            if p == pos_spec {
                                assert forall|u: int| c.square(p).allows(u) implies b4.square(
                                    p,
                                ).allows(u) by {
                                    assert(b3.square(p).allows(u));
                                }
                            } else {
                                assert(b4.square(p) == b3.square(p));
                            }
                        }
                    }
                }
                true
            },
        }
    }

    /// Run unit propagation until no square is left to propagate.  Reports
    /// whether anything was propagated at all.
    fn propagate_all_known_values(&mut self) -> (progress: bool)
        requires
            old(self).wf(),
            old(self).propagation_complete(),
        ensures
            final(self).wf(),
            final(self).propagation_complete(),
            final(self).evolves_from(*old(self)),
            final(self).name == old(self).name,
            final(self).depth == old(self).depth,
            final(self).total_count() <= old(self).total_count(),
            final(self).propagated_count() >= old(self).propagated_count(),
            forall|p: int|
                0 <= p < 81 ==> !(!(#[trigger] final(self).square(p)).propagated
                    && final(self).square(p).count() == 1),
            !progress ==> final(self).same_squares(*old(self)),
            progress ==> final(self).propagated_count() > old(self).propagated_count(),
            forall|c: Board|
                #[trigger] solution_within(c, *old(self)) ==> solution_within(c, *final(self)),
    {
        proof {
            lemma_evolves_reflexive(*self);
            lemma_propagated_from_bound(*self, 0);
        }
        let mut progress = false;
        loop
            invariant
                self.wf(),
                self.propagation_complete(),
                self.evolves_from(*old(self)),
                self.name == old(self).name,
                self.depth == old(self).depth,
                self.total_count() <= old(self).total_count(),
                self.propagated_count() >= old(self).propagated_count(),
                self.propagated_count() <= 81,
                !progress ==> self.same_squares(*old(self)),
                progress ==> self.propagated_count() > old(self).propagated_count(),
                forall|c: Board|
                    #[trigger] solution_within(c, *old(self)) ==> solution_within(c, *self),
            ensures
                self.wf(),
                self.propagation_complete(),
                self.evolves_from(*old(self)),
                self.name == old(self).name,
                self.depth == old(self).depth,
                self.total_count() <= old(self).total_count(),
                self.propagated_count() >= old(self).propagated_count(),
                forall|p: int|
                    0 <= p < 81 ==> !(!(#[trigger] self.square(p)).propagated && self.square(
                        p,
                    ).count() == 1),
                !progress ==> self.same_squares(*old(self)),
                progress ==> self.propagated_count() > old(self).propagated_count(),
                forall|c: Board|
                    #[trigger] solution_within(c, *old(self)) ==> solution_within(c, *self),
            decreases 81 - self.propagated_count(),
        {
            let ghost prev = *self;
            let stepped = self.propagate_known_values();
            proof {
                lemma_evolves_transitive(*old(self), prev, *self);
                lemma_propagated_from_bound(*self, 0);
                assert forall|c: Board|
                    #[trigger] solution_within(c, *old(self)) implies solution_within(
                    c,
                    *self,
                ) by {
                    assert(solution_within(c, prev));
                }
            }
            if !stepped {
                proof {
                    if !progress {
                        assert forall|p: int| 0 <= p < 81 implies (#[trigger] self.square(p)) == old(
                            self,
                        ).square(p) by {
                            assert(prev.square(p) == old(self).square(p));
                        }
                    }
                }
                break;
            }
            progress = true;
        }
        progress
    }
}

/// A transient finding of naked-pair elimination: within some unit, the two
/// digits `value1 < value2` are confined to the two squares at `pos1` and
/// `pos2`, so those squares hold exactly those digits between them and no
/// square sharing a unit with both may hold either digit.  Recorded only to
/// avoid reprocessing the same pair within one pass.
#[derive(Copy, Clone, PartialEq, Eq, Structural)]
pub struct NakedPair {
    pub pos1: usize,
    pub pos2: usize,
    pub value1: usize,
    pub value2: usize,
}

/// The fields of a pair record are in range.
pub open spec fn pair_bounds(pair: NakedPair) -> bool {
    &&& pair.pos1 < 81
    &&& pair.pos2 < 81
    &&& pair.pos1 != pair.pos2
    &&& 1 <= pair.value1 <= 9
    &&& 1 <= pair.value2 <= 9
    &&& pair.value1 != pair.value2
}

/// Within the unit listed by `positions`, the digits `v1` and `v2` qualify
/// as a naked pair on the squares at list indices `a` and `b2`: only those
/// two listed squares can hold both digits, and either both hold exactly two
/// candidates or no other listed square holds either digit.
pub open spec fn list_pair_qualifies(
    b: Board,
    positions: Seq<usize>,
    a: int,
    b2: int,
    v1: int,
    v2: int,
) -> bool {
    &&& 0 <= a < 9 && 0 <= b2 < 9 && a != b2
    &&& b.square(positions[a] as int).allows(v1) && b.square(positions[a] as int).allows(v2)
    &&& b.square(positions[b2] as int).allows(v1) && b.square(positions[b2] as int).allows(v2)
    &&& forall|j: int|
        0 <= j < 9 && j != a && j != b2 ==> !((#[trigger] b.square(positions[j] as int)).allows(v1)
            && b.square(positions[j] as int).allows(v2))
    &&& ((b.square(positions[a] as int).count() == 2 && b.square(positions[b2] as int).count()
        == 2) || (forall|j: int|
        0 <= j < 9 && j != a && j != b2 ==> !(#[trigger] b.square(positions[j] as int)).allows(v1)
            && !b.square(positions[j] as int).allows(v2)))
}

/// `pair_applied` does not care which of the two squares is named first.
proof fn lemma_pair_applied_swap(b: Board, p1: int, p2: int, v1: int, v2: int)
    requires
        b.pair_applied(p1, p2, v1, v2),
    ensures
        b.pair_applied(p2, p1, v1, v2),
{
    assert forall|u: int|
        1 <= u <= 9 && u != v1 && u != v2 implies !(#[trigger] b.square(p2).allows(u))
        && !b.square(p1).allows(u) by {
        assert(!b.square(p1).allows(u));
    }
    if same_row(p2, p1) {
        assert forall|q: int|
            0 <= q < 81 && q != p2 && q != p1 && same_row(p2, q) implies !(#[trigger] b.square(
            q,
        )).allows(v1) && !b.square(q).allows(v2) by {
            assert(same_row(p1, q));
        }
    }
    if same_col(p2, p1) {
        assert forall|q: int|
            0 <= q < 81 && q != p2 && q != p1 && same_col(p2, q) implies !(#[trigger] b.square(
            q,
        )).allows(v1) && !b.square(q).allows(v2) by {
            assert(same_col(p1, q));
        }
    }
    if same_grid(p2, p1) {
        assert forall|q: int|
            0 <= q < 81 && q != p2 && q != p1 && same_grid(p2, q) implies !(#[trigger] b.square(
            q,
        )).allows(v1) && !b.square(q).allows(v2) by {
            assert(same_grid(p1, q));
        }
    }
}

/// Every solution of `b` places the pair's two digits on its two squares,
/// in one of the two orders.  This is what a qualifying naked pair asserts,
/// and it justifies every candidate the pair removes.
pub open spec fn pair_pinned(b: Board, pair: NakedPair) -> bool {
    forall|c: Board|
        #[trigger] solution_within(c, b) ==> ((c.square(pair.pos1 as int).value_spec()
            == pair.value1 && c.square(pair.pos2 as int).value_spec() == pair.value2) || (c.square(
            pair.pos1 as int,
        ).value_spec() == pair.value2 && c.square(pair.pos2 as int).value_spec() == pair.value1))
}

impl Board {
    /// Whether this pair was already handled in the current pass.
    fn pair_recorded(found: &Vec<NakedPair>, pair: NakedPair) -> (b: bool)
        ensures
            b == found@.contains(pair),
    {
        for i in 0..found.len()
            invariant
                forall|j: int| 0 <= j < i ==> found@[j] != pair,
        {
            if found[i] == pair {
                assert(found@.contains(pair));
                return true;
            }
        }
        false
    }

    /// Restrict the two paired squares to the pair's digits and remove both
    /// digits from every other square of each unit the two squares share.
    #[verifier::rlimit(100)]
    fn apply_naked_pair(&mut self, pair: NakedPair) -> (changed: bool)
        requires
            old(self).wf(),
            old(self).propagation_complete(),
            pair.pos1 < 81,
            pair.pos2 < 81,
            pair.pos1 != pair.pos2,
            1 <= pair.value1 <= 9,
            1 <= pair.value2 <= 9,
            pair_pinned(*old(self), pair),
        ensures
            final(self).wf(),
            final(self).propagation_complete(),
            final(self).narrowed_keeping_flags(*old(self)),
            final(self).name == old(self).name,
            final(self).depth == old(self).depth,
            final(self).total_count() <= old(self).total_count(),
            !changed ==> final(self).same_squares(*old(self)),
            !changed ==> *final(self) == *old(self),
            changed ==> final(self).total_count() < old(self).total_count(),
            forall|c: Board|
                #[trigger] solution_within(c, *old(self)) ==> solution_within(c, *final(self)),
            !changed ==> final(self).pair_applied(
                pair.pos1 as int,
                pair.pos2 as int,
                pair.value1 as int,
                pair.value2 as int,
            ),
    {
        proof {
            lemma_evolves_reflexive(*self);
        }
        let ghost snap = *old(self);
        let mut changed = false;
        for v in 1..10usize
            invariant
                old(self).wf(),
                old(self).propagation_complete(),
                snap == *old(self),
                pair.pos1 < 81,
                pair.pos2 < 81,
                pair.pos1 != pair.pos2,
                1 <= pair.value1 <= 9,
                1 <= pair.value2 <= 9,
                pair_pinned(*old(self), pair),
                !changed ==> forall|u: int|
                    1 <= u < v && u != pair.value1 && u != pair.value2 ==> !(#[trigger] snap.square(
                        pair.pos1 as int,
                    ).allows(u)),
                !changed ==> forall|u: int|
                    1 <= u < v && u != pair.value1 && u != pair.value2 ==> !(#[trigger] snap.square(
                        pair.pos2 as int,
                    ).allows(u)),
                self.wf(),
                self.propagation_complete(),
                self.narrowed_keeping_flags(*old(self)),
                self.name == old(self).name,
                self.depth == old(self).depth,
                self.total_count() <= old(self).total_count(),
                !changed ==> self.same_squares(*old(self)),
                !changed ==> *self == *old(self),
                changed ==> self.total_count() < old(self).total_count(),
                forall|c: Board|
                    #[trigger] solution_within(c, *old(self)) ==> solution_within(c, *self),
        {
            if v != pair.value1 && v != pair.value2 {
                let ghost prev = *self;
                let removed1 = self.remove_candidate(pair.pos1, v);
                let ghost mid = *self;
                let removed2 = self.remove_candidate(pair.pos2, v);
                changed = removed1 || removed2 || changed;
                proof {
                    lemma_narrowed_transitive(*old(self), prev, *self);
                    if !changed {
                        assert forall|u: int|
                            1 <= u < v + 1 && u != pair.value1 && u != pair.value2 implies !(
                            #[trigger] snap.square(pair.pos1 as int).allows(u)) by {
                            if u == v {
                                assert(!prev.square(pair.pos1 as int).allows(v as int));
                                assert(prev.square(pair.pos1 as int) == snap.square(
                                    pair.pos1 as int,
                                ));
                            } else {
                                assert(1 <= u < v);
                            }
                        }
                        assert forall|u: int|
                            1 <= u < v + 1 && u != pair.value1 && u != pair.value2 implies !(
                            #[trigger] snap.square(pair.pos2 as int).allows(u)) by {
                            if u == v {
                                assert(!mid.square(pair.pos2 as int).allows(v as int));
                                assert(mid.square(pair.pos2 as int) == prev.square(
                                    pair.pos2 as int,
                                ));
                                assert(prev.square(pair.pos2 as int) == snap.square(
                                    pair.pos2 as int,
                                ));
                            } else {
                                assert(1 <= u < v);
                            }
                        }
                    }
                    assert forall|c: Board|
                        #[trigger] solution_within(c, *old(self)) implies solution_within(
                        c,
                        *self,
                    ) by {
                        assert(solution_within(c, prev));
                        lemma_removal_keeps_solution(
                            c,
                            prev,
                            mid,
                            pair.pos1 as int,
                            v as int,
                        );
                        lemma_removal_keeps_solution(
                            c,
                            mid,
                            *self,
                            pair.pos2 as int,
                            v as int,
                        );
                    }
                }
            } else {
                proof {
                    if !changed {
                        assert forall|u: int|
                            1 <= u < v + 1 && u != pair.value1 && u != pair.value2 implies !(
                            #[trigger] snap.square(pair.pos1 as int).allows(u)) by {
                            assert(u != v);
                        }
                        assert forall|u: int|
                            1 <= u < v + 1 && u != pair.value1 && u != pair.value2 implies !(
                            #[trigger] snap.square(pair.pos2 as int).allows(u)) by {
                            assert(u != v);
                        }
                    }
                }
            }
        }
        let sq1 = self.values[pair.pos1];
        let sq2 = self.values[pair.pos2];
        proof {
            lemma_position_decompose(pair.pos1 as int);
            lemma_position_decompose(pair.pos2 as int);
            assert(sq1 == self.square(pair.pos1 as int));
            assert(sq2 == self.square(pair.pos2 as int));
            assert(sq1.row == row_of(pair.pos1 as int) && sq1.col == col_of(pair.pos1 as int));
            assert(sq2.row == row_of(pair.pos2 as int) && sq2.col == col_of(pair.pos2 as int));
        }
        if sq1.row == sq2.row {
            let ghost prev = *self;
            let list = Board::all_values_in_row(sq1.row);
            proof {
                assert forall|c: Board| #[trigger] solution_within(c, prev) implies solution_within(
                    c,
                    *old(self),
                ) by {
                    lemma_solution_within_narrowed(c, prev, *old(self));
                }
                assert forall|i: int|
                    0 <= i < 9 implies #[trigger] same_unit(pair.pos1 as int, list@[i] as int)
                    && same_unit(pair.pos2 as int, list@[i] as int) by {
                    lemma_position_of(sq1.row as int, i + 1);
                    assert(same_row(pair.pos1 as int, list@[i] as int));
                    assert(same_row(pair.pos2 as int, list@[i] as int));
                }
            }
            let c = self.eliminate_pair_from(list, pair);
            changed = c || changed;
            proof {
                lemma_narrowed_transitive(*old(self), prev, *self);
                assert forall|c: Board|
                    #[trigger] solution_within(c, *old(self)) implies solution_within(
                    c,
                    *self,
                ) by {
                    assert(solution_within(c, prev));
                }
                if !changed {
                    assert forall|q: int|
                        0 <= q < 81 && q != pair.pos1 && q != pair.pos2 && same_row(
                            pair.pos1 as int,
                            q,
                        ) implies !(#[trigger] old(self).square(q)).allows(pair.value1 as int)
                        && !old(self).square(q).allows(pair.value2 as int) by {
                        lemma_position_decompose(q);
                        assert(list@[col_of(q) - 1] == q);
                        assert(!self.square(q).allows(pair.value1 as int));
                        assert(!self.square(q).allows(pair.value2 as int));
                        assert(self.square(q) == old(self).square(q));
                    }
                }
            }
        }
        if sq1.col == sq2.col {
            let ghost prev = *self;
            let list = Board::all_values_in_column(sq1.col);
            proof {
                assert forall|c: Board| #[trigger] solution_within(c, prev) implies solution_within(
                    c,
                    *old(self),
                ) by {
                    lemma_solution_within_narrowed(c, prev, *old(self));
                }
                assert forall|i: int|
                    0 <= i < 9 implies #[trigger] same_unit(pair.pos1 as int, list@[i] as int)
                    && same_unit(pair.pos2 as int, list@[i] as int) by {
                    lemma_position_of(i + 1, sq1.col as int);
                    assert(same_col(pair.pos1 as int, list@[i] as int));
                    assert(same_col(pair.pos2 as int, list@[i] as int));
                }
            }
            let c = self.eliminate_pair_from(list, pair);
            changed = c || changed;
            proof {
                lemma_narrowed_transitive(*old(self), prev, *self);
                assert forall|c: Board|
                    #[trigger] solution_within(c, *old(self)) implies solution_within(
                    c,
                    *self,
                ) by {
                    assert(solution_within(c, prev));
                }
                if !changed {
                    assert forall|q: int|
                        0 <= q < 81 && q != pair.pos1 && q != pair.pos2 && same_col(
                            pair.pos1 as int,
                            q,
                        ) implies !(#[trigger] old(self).square(q)).allows(pair.value1 as int)
                        && !old(self).square(q).allows(pair.value2 as int) by {
                        lemma_position_decompose(q);
                        assert(list@[row_of(q) - 1] == q);
                        assert(!self.square(q).allows(pair.value1 as int));
                        assert(!self.square(q).allows(pair.value2 as int));
                        assert(self.square(q) == old(self).square(q));
                    }
                }
            }
        }
        let rg1 = sq1.row_grid();
        let cg1 = sq1.col_grid();
        let rg2 = sq2.row_grid();
        let cg2 = sq2.col_grid();
        if rg1 == rg2 && cg1 == cg2 {
            let ghost prev = *self;
            let list = Board::all_values_in_subgrid(rg1, cg1);
            proof {
                assert forall|c: Board| #[trigger] solution_within(c, prev) implies solution_within(
                    c,
                    *old(self),
                ) by {
                    lemma_solution_within_narrowed(c, prev, *old(self));
                }
                assert forall|i: int|
                    0 <= i < 9 implies #[trigger] same_unit(pair.pos1 as int, list@[i] as int)
                    && same_unit(pair.pos2 as int, list@[i] as int) by {
                    lemma_grid_member(rg1 as int, cg1 as int, i);
                    assert(same_grid(pair.pos1 as int, list@[i] as int));
                    assert(same_grid(pair.pos2 as int, list@[i] as int));
                }
            }
            let c = self.eliminate_pair_from(list, pair);
            changed = c || changed;
            proof {
                lemma_narrowed_transitive(*old(self), prev, *self);
                assert forall|c: Board|
                    #[trigger] solution_within(c, *old(self)) implies solution_within(
                    c,
                    *self,
                ) by {
                    assert(solution_within(c, prev));
                }
                if !changed {
                    assert forall|q: int|
                        0 <= q < 81 && q != pair.pos1 && q != pair.pos2 && same_grid(
                            pair.pos1 as int,
                            q,
                        ) implies !(#[trigger] old(self).square(q)).allows(pair.value1 as int)
                        && !old(self).square(q).allows(pair.value2 as int) by {
                        lemma_position_decompose(q);
                        assert(list@[grid_slot_of(q)] == q);
                        assert(!self.square(q).allows(pair.value1 as int));
                        assert(!self.square(q).allows(pair.value2 as int));
                        assert(self.square(q) == old(self).square(q));
                    }
                }
            }
        }
        proof {
            lemma_narrow_preserves_completeness(*old(self), *self);
            if !changed {
                let p1 = pair.pos1 as int;
                let p2 = pair.pos2 as int;
                let v1 = pair.value1 as int;
                let v2 = pair.value2 as int;
                assert(same_row(p1, p2) ==> sq1.row == sq2.row);
                assert(same_col(p1, p2) ==> sq1.col == sq2.col);
                assert(same_grid(p1, p2) ==> rg1 == rg2 && cg1 == cg2);
                assert forall|u: int|
                    1 <= u <= 9 && u != v1 && u != v2 implies !(#[trigger] self.square(p1).allows(
                    u,
                )) && !self.square(p2).allows(u) by {
                    assert(!snap.square(p1).allows(u));
                    assert(!snap.square(p2).allows(u));
                    assert(self.square(p1) == old(self).square(p1));
                    assert(self.square(p2) == old(self).square(p2));
                }
                if same_row(p1, p2) {
                    assert forall|q: int|
                        0 <= q < 81 && q != p1 && q != p2 && same_row(p1, q) implies !(
                    #[trigger] self.square(q)).allows(v1) && !self.square(q).allows(v2) by {
                        assert(!old(self).square(q).allows(v1));
                        assert(!old(self).square(q).allows(v2));
                        assert(self.square(q) == old(self).square(q));
                    }
                }
                if same_col(p1, p2) {
                    assert forall|q: int|
                        0 <= q < 81 && q != p1 && q != p2 && same_col(p1, q) implies !(
                    #[trigger] self.square(q)).allows(v1) && !self.square(q).allows(v2) by {
                        assert(!old(self).square(q).allows(v1));
                        assert(!old(self).square(q).allows(v2));
                        assert(self.square(q) == old(self).square(q));
                    }
                }
                if same_grid(p1, p2) {
                    assert forall|q: int|
                        0 <= q < 81 && q != p1 && q != p2 && same_grid(p1, q) implies !(
                    #[trigger] self.square(q)).allows(v1) && !self.square(q).allows(v2) by {
                        assert(!old(self).square(q).allows(v1));
                        assert(!old(self).square(q).allows(v2));
                        assert(self.square(q) == old(self).square(q));
                    }
                }
                assert(self.pair_applied(p1, p2, v1, v2));
            }
        }
        changed
    }

    /// Remove both digits of the pair from every listed square other than
    /// the two paired ones.
    fn eliminate_pair_from(&mut self, positions: [usize; 9], pair: NakedPair) -> (changed: bool)
        requires
            old(self).wf(),
            old(self).propagation_complete(),
            forall|i: int| 0 <= i < 9 ==> (#[trigger] positions@[i]) < 81,
            1 <= pair.value1 <= 9,
            1 <= pair.value2 <= 9,
            pair.pos1 < 81,
            pair.pos2 < 81,
            pair.pos1 != pair.pos2,
            pair_pinned(*old(self), pair),
            forall|i: int|
                0 <= i < 9 ==> #[trigger] same_unit(pair.pos1 as int, positions@[i] as int)
                    && same_unit(pair.pos2 as int, positions@[i] as int),
        ensures
            final(self).wf(),
            final(self).propagation_complete(),
            final(self).narrowed_keeping_flags(*old(self)),
            final(self).name == old(self).name,
            final(self).depth == old(self).depth,
            final(self).total_count() <= old(self).total_count(),
            !changed ==> final(self).same_squares(*old(self)),
            !changed ==> *final(self) == *old(self),
            changed ==> final(self).total_count() < old(self).total_count(),
            forall|c: Board|
                #[trigger] solution_within(c, *old(self)) ==> solution_within(c, *final(self)),
            !changed ==> forall|j: int|
                0 <= j < 9 && positions@[j] != pair.pos1 && positions@[j] != pair.pos2 ==> !(
                #[trigger] final(self).square(positions@[j] as int)).allows(pair.value1 as int)
                    && !final(self).square(positions@[j] as int).allows(pair.value2 as int),
    {
        proof {
            lemma_evolves_reflexive(*self);
        }
        let mut changed = false;
        for i in 0..9usize
            invariant
                forall|j: int| 0 <= j < 9 ==> (#[trigger] positions@[j]) < 81,
                1 <= pair.value1 <= 9,
                1 <= pair.value2 <= 9,
                pair.pos1 < 81,
                pair.pos2 < 81,
                pair.pos1 != pair.pos2,
                pair_pinned(*old(self), pair),
                forall|j: int|
                    0 <= j < 9 ==> #[trigger] same_unit(pair.pos1 as int, positions@[j] as int)
                        && same_unit(pair.pos2 as int, positions@[j] as int),
                self.wf(),
                self.propagation_complete(),
                self.narrowed_keeping_flags(*old(self)),
                self.name == old(self).name,
                self.depth == old(self).depth,
                self.total_count() <= old(self).total_count(),
                !changed ==> self.same_squares(*old(self)),
                !changed ==> *self == *old(self),
                changed ==> self.total_count() < old(self).total_count(),
                forall|c: Board|
                    #[trigger] solution_within(c, *old(self)) ==> solution_within(c, *self),
                !changed ==> forall|j: int|
                    0 <= j < i && positions@[j] != pair.pos1 && positions@[j] != pair.pos2 ==> !(
                    #[trigger] old(self).square(positions@[j] as int)).allows(pair.value1 as int)
                        && !old(self).square(positions@[j] as int).allows(pair.value2 as int),
        {
            let pos = positions[i];
            if pos != pair.pos1 && pos != pair.pos2 {
                let ghost prev = *self;
                let removed1 = self.remove_candidate(pos, pair.value1);
                let ghost mid = *self;
                let removed2 = self.remove_candidate(pos, pair.value2);
                changed = removed1 || removed2 || changed;
                proof {
                    lemma_narrowed_transitive(*old(self), prev, *self);
                    if !changed {
                        assert forall|j: int|
                            0 <= j < i + 1 && positions@[j] != pair.pos1 && positions@[j]
                                != pair.pos2 implies !(#[trigger] old(self).square(
                            positions@[j] as int,
                        )).allows(pair.value1 as int) && !old(self).square(
                            positions@[j] as int,
                        ).allows(pair.value2 as int) by {
                            if j == i {
                                assert(!prev.square(pos as int).allows(pair.value1 as int));
                                assert(!mid.square(pos as int).allows(pair.value2 as int));
                                assert(prev.square(pos as int) == old(self).square(pos as int));
                                assert(mid.square(pos as int) == prev.square(pos as int));
                            }
                        }
                    }
                    assert forall|c: Board|
                        #[trigger] solution_within(c, *old(self)) implies solution_within(
                        c,
                        *self,
                    ) by {
                        assert(solution_within(c, prev));
                        assert(same_unit(pair.pos1 as int, pos as int));
                        assert(same_unit(pair.pos2 as int, pos as int));
                        assert(c.square(pos as int).value_spec() != c.square(
                            pair.pos1 as int,
                        ).value_spec());
                        assert(c.square(pos as int).value_spec() != c.square(
                            pair.pos2 as int,
                        ).value_spec());
                        lemma_removal_keeps_solution(
                            c,
                            prev,
                            mid,
                            pos as int,
                            pair.value1 as int,
                        );
                        lemma_removal_keeps_solution(
                            c,
                            mid,
                            *self,
                            pos as int,
                            pair.value2 as int,
                        );
                    }
                }
            }
        }
        proof {
            if !changed {
                assert forall|j: int|
                    0 <= j < 9 && positions@[j] != pair.pos1 && positions@[j]
                        != pair.pos2 implies !(#[trigger] self.square(positions@[j] as int)).allows(
                    pair.value1 as int,
                ) && !self.square(positions@[j] as int).allows(pair.value2 as int) by {
                    assert(self.square(positions@[j] as int) == old(self).square(
                        positions@[j] as int,
                    ));
                    assert(!old(self).square(positions@[j] as int).allows(pair.value1 as int));
                }
            }
        }
        changed
    }

    /// Look for naked pairs in the unit given by `positions` and apply each
    /// new finding.  A pair qualifies when exactly two squares of the unit
    /// can hold both digits, and either no other square of the unit can hold
    /// one of them, or both qualifying squares have exactly two candidates.
    /// `changed_before` carries the pass's progress so far; when the result
    /// stays false, every qualifying pair of this unit is provably already
    /// applied, and so is every pair recorded in `found`.
    fn eliminate_pairs_in(
        &mut self,
        positions: [usize; 9],
        found: &mut Vec<NakedPair>,
        changed_before: bool,
    ) -> (changed: bool)
        requires
            old(self).wf(),
            old(self).propagation_complete(),
            forall|i: int| 0 <= i < 9 ==> (#[trigger] positions@[i]) < 81,
            forall|i: int, j: int| 0 <= i < j < 9 ==> positions@[i] != positions@[j],
            forall|i: int, j: int|
                0 <= i < 9 && 0 <= j < 9 ==> #[trigger] same_unit(
                    positions@[i] as int,
                    positions@[j] as int,
                ),
            forall|k: int| 0 <= k < old(found)@.len() ==> pair_bounds(#[trigger] old(found)@[k]),
            !changed_before ==> forall|k: int|
                0 <= k < old(found)@.len() ==> old(self).pair_applied(
                    (#[trigger] old(found)@[k]).pos1 as int,
                    old(found)@[k].pos2 as int,
                    old(found)@[k].value1 as int,
                    old(found)@[k].value2 as int,
                ),
        ensures
            final(self).wf(),
            final(self).propagation_complete(),
            final(self).narrowed_keeping_flags(*old(self)),
            final(self).name == old(self).name,
            final(self).depth == old(self).depth,
            final(self).total_count() <= old(self).total_count(),
            changed_before ==> changed,
            !changed ==> final(self).same_squares(*old(self)),
            !changed ==> *final(self) == *old(self),
            changed && !changed_before ==> final(self).total_count() < old(self).total_count(),
            forall|c: Board|
                #[trigger] solution_within(c, *old(self)) ==> solution_within(c, *final(self)),
            final(found)@.len() >= old(found)@.len(),
            forall|k: int| 0 <= k < old(found)@.len() ==> final(found)@[k] == old(found)@[k],
            forall|k: int| 0 <= k < final(found)@.len() ==> pair_bounds(#[trigger] final(found)@[k]),
            !changed ==> forall|k: int|
                0 <= k < final(found)@.len() ==> final(self).pair_applied(
                    (#[trigger] final(found)@[k]).pos1 as int,
                    final(found)@[k].pos2 as int,
                    final(found)@[k].value1 as int,
                    final(found)@[k].value2 as int,
                ),
            !changed ==> forall|a: int, b2: int, w1: int, w2: int|
                1 <= w1 <= 9 && 1 <= w2 <= 9 && w1 < w2 && #[trigger] list_pair_qualifies(
                    *final(self),
                    positions@,
                    a,
                    b2,
                    w1,
                    w2,
                ) ==> final(self).pair_applied(
                    positions@[a] as int,
                    positions@[b2] as int,
                    w1,
                    w2,
                ),
    {
        proof {
            lemma_evolves_reflexive(*self);
        }
        let mut changed = changed_before;
        for value1 in 1..10usize
            invariant
                old(self).wf(),
                old(self).propagation_complete(),
                                forall|j: int| 0 <= j < 9 ==> (#[trigger] positions@[j]) < 81,
                forall|j1: int, j2: int| 0 <= j1 < j2 < 9 ==> positions@[j1] != positions@[j2],
                forall|j1: int, j2: int|
                    0 <= j1 < 9 && 0 <= j2 < 9 ==> #[trigger] same_unit(
                        positions@[j1] as int,
                        positions@[j2] as int,
                    ),
                self.wf(),
                self.propagation_complete(),
                self.narrowed_keeping_flags(*old(self)),
                self.name == old(self).name,
                self.depth == old(self).depth,
                self.total_count() <= old(self).total_count(),
                changed_before ==> changed,
                !changed ==> self.same_squares(*old(self)),
                !changed ==> *self == *old(self),
                changed && !changed_before ==> self.total_count() < old(self).total_count(),
                forall|c: Board|
                    #[trigger] solution_within(c, *old(self)) ==> solution_within(c, *self),
                found@.len() >= old(found)@.len(),
                forall|k: int| 0 <= k < old(found)@.len() ==> found@[k] == old(found)@[k],
                forall|k: int| 0 <= k < found@.len() ==> pair_bounds(#[trigger] found@[k]),
                !changed ==> forall|k: int|
                    0 <= k < found@.len() ==> old(self).pair_applied(
                        (#[trigger] found@[k]).pos1 as int,
                        found@[k].pos2 as int,
                        found@[k].value1 as int,
                        found@[k].value2 as int,
                    ),
                !changed ==> forall|a: int, b2: int, w1: int, w2: int|
                    1 <= w1 <= 9 && 1 <= w2 <= 9 && w1 < w2 && w1 < value1
                        && #[trigger] list_pair_qualifies(
                        *old(self),
                        positions@,
                        a,
                        b2,
                        w1,
                        w2,
                    ) ==> old(self).pair_applied(positions@[a] as int, positions@[b2] as int, w1, w2),
        {
            for value2 in (value1 + 1)..10usize
                invariant
                    old(self).wf(),
                    old(self).propagation_complete(),
                    1 <= value1 <= 9,
                    forall|j: int| 0 <= j < 9 ==> (#[trigger] positions@[j]) < 81,
                    forall|j1: int, j2: int| 0 <= j1 < j2 < 9 ==> positions@[j1] != positions@[j2],
                    forall|j1: int, j2: int|
                        0 <= j1 < 9 && 0 <= j2 < 9 ==> #[trigger] same_unit(
                            positions@[j1] as int,
                            positions@[j2] as int,
                        ),
                    self.wf(),
                    self.propagation_complete(),
                    self.narrowed_keeping_flags(*old(self)),
                    self.name == old(self).name,
                    self.depth == old(self).depth,
                    self.total_count() <= old(self).total_count(),
                    changed_before ==> changed,
                    !changed ==> self.same_squares(*old(self)),
                    !changed ==> *self == *old(self),
                    changed && !changed_before ==> self.total_count() < old(self).total_count(),
                    forall|c: Board|
                        #[trigger] solution_within(c, *old(self)) ==> solution_within(c, *self),
                    found@.len() >= old(found)@.len(),
                    forall|k: int| 0 <= k < old(found)@.len() ==> found@[k] == old(found)@[k],
                    forall|k: int| 0 <= k < found@.len() ==> pair_bounds(#[trigger] found@[k]),
                    !changed ==> forall|k: int|
                        0 <= k < found@.len() ==> old(self).pair_applied(
                            (#[trigger] found@[k]).pos1 as int,
                            found@[k].pos2 as int,
                            found@[k].value1 as int,
                            found@[k].value2 as int,
                        ),
                    !changed ==> forall|a: int, b2: int, w1: int, w2: int|
                        1 <= w1 <= 9 && 1 <= w2 <= 9 && w1 < w2 && (w1 < value1 || (w1 == value1
                            && w2 < value2)) && #[trigger] list_pair_qualifies(
                            *old(self),
                            positions@,
                            a,
                            b2,
                            w1,
                            w2,
                        ) ==> old(self).pair_applied(
                            positions@[a] as int,
                            positions@[b2] as int,
                            w1,
                            w2,
                        ),
            {
                let mut count: usize = 0;
                let mut first: usize = 0;
                let mut second: usize = 0;
                for i in 0..9usize
                    invariant
                        1 <= value1 <= 9,
                        value1 < value2 <= 9,
                        forall|j: int| 0 <= j < 9 ==> (#[trigger] positions@[j]) < 81,
                        forall|j1: int, j2: int|
                            0 <= j1 < j2 < 9 ==> positions@[j1] != positions@[j2],
                        count <= i,
                        count == 0 ==> forall|j: int|
                            0 <= j < i ==> !((#[trigger] self.square(positions@[j] as int)).allows(
                                value1 as int,
                            ) && self.square(positions@[j] as int).allows(value2 as int)),
                        count >= 1 ==> first < 81 && self.square(first as int).allows(
                            value1 as int,
                        ) && self.square(first as int).allows(value2 as int),
                        count >= 1 ==> exists|j: int| 0 <= j < i && positions@[j] == first,
                        count == 1 ==> forall|j: int|
                            0 <= j < i && (#[trigger] self.square(positions@[j] as int)).allows(
                                value1 as int,
                            ) && self.square(positions@[j] as int).allows(value2 as int)
                                ==> positions@[j] == first,
                        count >= 2 ==> second < 81 && self.square(second as int).allows(
                            value1 as int,
                        ) && self.square(second as int).allows(value2 as int),
                        count >= 2 ==> exists|j1: int, j2: int|
                            0 <= j1 < j2 < i && positions@[j1] == first && positions@[j2] == second,
                        count == 2 ==> forall|j: int|
                            0 <= j < i && (#[trigger] self.square(positions@[j] as int)).allows(
                                value1 as int,
                            ) && self.square(positions@[j] as int).allows(value2 as int)
                                ==> positions@[j] == first || positions@[j] == second,
                        count >= 3 ==> exists|j1: int, j2: int, j3: int|
                            0 <= j1 < j2 < j3 < i && (#[trigger] self.square(
                                positions@[j1] as int,
                            )).allows(value1 as int) && self.square(positions@[j1] as int).allows(
                                value2 as int,
                            ) && (#[trigger] self.square(positions@[j2] as int)).allows(
                                value1 as int,
                            ) && self.square(positions@[j2] as int).allows(value2 as int) && (
                            #[trigger] self.square(positions@[j3] as int)).allows(value1 as int)
                                && self.square(positions@[j3] as int).allows(value2 as int),
                {
                    let pos = positions[i];
                    if self.values[pos].can_have_value(value1) && self.values[pos].can_have_value(
                        value2,
                    ) {
                        proof {
                            if count == 2 {
                                let (j1, j2) = choose|j1: int, j2: int|
                                    0 <= j1 < j2 < i && positions@[j1] == first && positions@[j2]
                                        == second;
                                assert(self.square(positions@[j1] as int).allows(value1 as int)
                                    && self.square(positions@[j1] as int).allows(value2 as int));
                                assert(self.square(positions@[j2] as int).allows(value1 as int)
                                    && self.square(positions@[j2] as int).allows(value2 as int));
                                assert(self.square(positions@[i as int] as int).allows(
                                    value1 as int,
                                ) && self.square(positions@[i as int] as int).allows(
                                    value2 as int,
                                ));
                                assert(0 <= j1);
                                assert(j1 < j2);
                                assert(j2 < i as int);
                            }
                        }
                        if count == 0 {
                            first = pos;
                        } else if count == 1 {
                            second = pos;
                        }
                        count = count + 1;
                        proof {
                            if count == 1 {
                                assert(positions@[i as int] == first);
                            }
                        }
                    }
                }
                if count == 2 {
                    assert(first != second);
                    assert(first < 81 && second < 81);
                    let pure = self.values[first].possibilities() == 2
                        && self.values[second].possibilities() == 2;
                    let mut others_clean = true;
                    for i in 0..9usize
                        invariant
                            1 <= value1 <= 9,
                            value1 < value2 <= 9,
                            first < 81,
                            second < 81,
                            forall|j: int| 0 <= j < 9 ==> (#[trigger] positions@[j]) < 81,
                            others_clean ==> forall|j: int|
                                0 <= j < i && positions@[j] != first && positions@[j] != second
                                    ==> !(#[trigger] self.square(positions@[j] as int)).allows(
                                    value1 as int,
                                ) && !self.square(positions@[j] as int).allows(value2 as int),
                            !others_clean ==> exists|j: int|
                                0 <= j < i && positions@[j] != first && positions@[j] != second && (
                                (#[trigger] self.square(positions@[j] as int)).allows(
                                    value1 as int,
                                ) || self.square(positions@[j] as int).allows(value2 as int)),
                    {
                        let pos = positions[i];
                        if pos != first && pos != second && (self.values[pos].can_have_value(value1)
                            || self.values[pos].can_have_value(value2)) {
                            others_clean = false;
                            proof {
                                assert(positions@[i as int] != first && positions@[i as int]
                                    != second && (self.square(positions@[i as int] as int).allows(
                                    value1 as int,
                                ) || self.square(positions@[i as int] as int).allows(
                                    value2 as int,
                                )));
                            }
                        }
                    }
                    if pure || others_clean {
                        let pair = NakedPair { pos1: first, pos2: second, value1, value2 };
                        proof {
                            let (j1, j2) = choose|j1: int, j2: int|
                                0 <= j1 < j2 < 9 && positions@[j1] == first && positions@[j2]
                                    == second;
                            assert(same_unit(first as int, second as int)) by {
                                assert(same_unit(positions@[j1] as int, positions@[j2] as int));
                            }
                            assert forall|c: Board|
                                #[trigger] solution_within(c, *self) implies ((c.square(
                                first as int,
                            ).value_spec() == value1 && c.square(second as int).value_spec()
                                == value2) || (c.square(first as int).value_spec() == value2
                                && c.square(second as int).value_spec() == value1)) by {
                                lemma_known_value(c.square(first as int));
                                lemma_known_value(c.square(second as int));
                                let cf = c.square(first as int).value_spec();
                                let cs = c.square(second as int).value_spec();
                                assert(cf != cs);
                                if pure {
                                    lemma_two_candidates(
                                        self.square(first as int),
                                        value1 as int,
                                        value2 as int,
                                    );
                                    lemma_two_candidates(
                                        self.square(second as int),
                                        value1 as int,
                                        value2 as int,
                                    );
                                    assert(self.square(first as int).allows(cf));
                                    assert(self.square(second as int).allows(cs));
                                } else {
                                    lemma_solution_covers_unit(c, positions@, value1 as int);
                                    lemma_solution_covers_unit(c, positions@, value2 as int);
                                    let w1 = choose|w: int|
                                        0 <= w < 9 && c.square(
                                            #[trigger] positions@[w] as int,
                                        ).value_spec() == value1;
                                    let w2 = choose|w: int|
                                        0 <= w < 9 && c.square(
                                            #[trigger] positions@[w] as int,
                                        ).value_spec() == value2;
                                    lemma_known_value(c.square(positions@[w1] as int));
                                    lemma_known_value(c.square(positions@[w2] as int));
                                    assert(self.square(positions@[w1] as int).allows(
                                        value1 as int,
                                    ));
                                    assert(self.square(positions@[w2] as int).allows(
                                        value2 as int,
                                    ));
                                    assert(positions@[w1] == first || positions@[w1] == second);
                                    assert(positions@[w2] == first || positions@[w2] == second);
                                    assert(positions@[w1] != positions@[w2]);
                                }
                            }
                            assert(pair_pinned(*self, pair));
                        }
                        let already = Board::pair_recorded(found, pair);
                        let ghost prev = *self;
                        let ghost found_prev = found@;
                        if !already {
                            found.push(pair);
                            let c = self.apply_naked_pair(pair);
                            changed = c || changed;
                            proof {
                                lemma_narrowed_transitive(*old(self), prev, *self);
                                assert forall|c2: Board|
                                    #[trigger] solution_within(c2, *old(self)) implies solution_within(
                                    c2,
                                    *self,
                                ) by {
                                    assert(solution_within(c2, prev));
                                }
                            }
                        }
                        proof {
                            if !changed {
                                assert(*self == *old(self));
                                assert(old(self).pair_applied(
                                    first as int,
                                    second as int,
                                    value1 as int,
                                    value2 as int,
                                )) by {
                                    if already {
                                        let k = choose|k: int|
                                            0 <= k < found_prev.len() && found_prev[k] == pair;
                                        assert(found@[k] == pair);
                                    } else {
                                        assert(prev == *old(self));
                                    }
                                }
                                assert forall|k: int|
                                    0 <= k < found@.len() implies old(self).pair_applied(
                                    (#[trigger] found@[k]).pos1 as int,
                                    found@[k].pos2 as int,
                                    found@[k].value1 as int,
                                    found@[k].value2 as int,
                                ) by {
                                    if already || k < found_prev.len() {
                                        assert(found@[k] == found_prev[k]);
                                    } else {
                                        assert(found@[k] == pair);
                                    }
                                }
                                assert forall|a: int, b2: int, w1: int, w2: int|
                                    1 <= w1 <= 9 && 1 <= w2 <= 9 && w1 < w2 && (w1 < value1 || (w1 == value1 && w2 < value2
                                        + 1)) && #[trigger] list_pair_qualifies(
                                        *old(self),
                                        positions@,
                                        a,
                                        b2,
                                        w1,
                                        w2,
                                    ) implies old(self).pair_applied(positions@[a] as int, positions@[b2] as int, w1, w2) by {
                                    if w1 == value1 && w2 == value2 {
                                        assert(*self == *old(self));
                                        let pa = positions@[a];
                                        let pb = positions@[b2];
                                        assert(self.square(pa as int).allows(value1 as int) && self.square(pa as int).allows(
                                            value2 as int,
                                        ));
                                        assert(self.square(pb as int).allows(value1 as int) && self.square(pb as int).allows(
                                            value2 as int,
                                        ));
                                        if count == 0 {
                                            assert(false);
                                        } else if count == 1 {
                                            assert(pa == first && pb == first);
                                            assert(false);
                                        } else if count >= 3 {
                                            let (j1, j2, j3) = choose|j1: int, j2: int, j3: int|
                                                0 <= j1 < j2 < j3 < 9 && (#[trigger] self.square(positions@[j1] as int)).allows(
                                                    value1 as int,
                                                ) && self.square(positions@[j1] as int).allows(value2 as int) && (
                                                #[trigger] self.square(positions@[j2] as int)).allows(value1 as int)
                                                    && self.square(positions@[j2] as int).allows(value2 as int) && (
                                                #[trigger] self.square(positions@[j3] as int)).allows(value1 as int)
                                                    && self.square(positions@[j3] as int).allows(value2 as int);
                                            assert(j1 == a || j1 == b2);
                                            assert(j2 == a || j2 == b2);
                                            assert(j3 == a || j3 == b2);
                                            assert(false);
                                        }
                                        assert(count == 2);
                                        let (j1, j2) = choose|j1: int, j2: int|
                                            0 <= j1 < j2 < 9 && positions@[j1] == first && positions@[j2] == second;
                                        assert(j1 == a || j1 == b2);
                                        assert(j2 == a || j2 == b2);
                                        if first == pa {
                                            assert(second == pb);
                                            assert(old(self).pair_applied(pa as int, pb as int, w1, w2));
                                        } else {
                                            assert(first == pb && second == pa);
                                            lemma_pair_applied_swap(*old(self), first as int, second as int, w1, w2);
                                        }
                                    }
                                }
                            }
                        }
                    } else {
                        proof {
                            if !changed {
                                assert forall|a: int, b2: int, w1: int, w2: int|
                                    1 <= w1 <= 9 && 1 <= w2 <= 9 && w1 < w2 && (w1 < value1 || (w1 == value1 && w2 < value2
                                        + 1)) && #[trigger] list_pair_qualifies(
                                        *old(self),
                                        positions@,
                                        a,
                                        b2,
                                        w1,
                                        w2,
                                    ) implies old(self).pair_applied(positions@[a] as int, positions@[b2] as int, w1, w2) by {
                                    if w1 == value1 && w2 == value2 {
                                        assert(*self == *old(self));
                                        let pa = positions@[a];
                                        let pb = positions@[b2];
                                        assert(self.square(pa as int).allows(value1 as int) && self.square(pa as int).allows(
                                            value2 as int,
                                        ));
                                        assert(self.square(pb as int).allows(value1 as int) && self.square(pb as int).allows(
                                            value2 as int,
                                        ));
                                        if count == 0 {
                                            assert(false);
                                        } else if count == 1 {
                                            assert(pa == first && pb == first);
                                            assert(false);
                                        } else if count >= 3 {
                                            let (j1, j2, j3) = choose|j1: int, j2: int, j3: int|
                                                0 <= j1 < j2 < j3 < 9 && (#[trigger] self.square(positions@[j1] as int)).allows(
                                                    value1 as int,
                                                ) && self.square(positions@[j1] as int).allows(value2 as int) && (
                                                #[trigger] self.square(positions@[j2] as int)).allows(value1 as int)
                                                    && self.square(positions@[j2] as int).allows(value2 as int) && (
                                                #[trigger] self.square(positions@[j3] as int)).allows(value1 as int)
                                                    && self.square(positions@[j3] as int).allows(value2 as int);
                                            assert(j1 == a || j1 == b2);
                                            assert(j2 == a || j2 == b2);
                                            assert(j3 == a || j3 == b2);
                                            assert(false);
                                        }
                                        assert(count == 2);
                                        let (j1, j2) = choose|j1: int, j2: int|
                                            0 <= j1 < j2 < 9 && positions@[j1] == first && positions@[j2] == second;
                                        assert(j1 == a || j1 == b2);
                                        assert(j2 == a || j2 == b2);
                                        assert((first == pa && second == pb) || (first == pb && second == pa));
                                        if self.square(pa as int).count() == 2 && self.square(pb as int).count() == 2 {
                                            assert(pure);
                                            assert(false);
                                        } else {
                                            assert forall|j: int|
                                                0 <= j < 9 && j != a && j != b2 implies !(#[trigger] self.square(
                                                positions@[j] as int,
                                            )).allows(value1 as int) && !self.square(positions@[j] as int).allows(
                                                value2 as int,
                                            ) by {}
                                            if !others_clean {
                                                let jw = choose|j: int|
                                                    0 <= j < 9 && positions@[j] != first && positions@[j] != second && ((
                                                    #[trigger] self.square(positions@[j] as int)).allows(value1 as int)
                                                        || self.square(positions@[j] as int).allows(value2 as int));
                                                assert(positions@[jw] != pa && positions@[jw] != pb);
                                                assert(jw != a && jw != b2);
                                                assert(false);
                                            }
                                            assert(false);
                                        }
                                    }
                                }
                            }
                        }
                    }
                } else {
                    proof {
                        if !changed {
                            assert forall|a: int, b2: int, w1: int, w2: int|
                                1 <= w1 <= 9 && 1 <= w2 <= 9 && w1 < w2 && (w1 < value1 || (w1 == value1 && w2 < value2
                                    + 1)) && #[trigger] list_pair_qualifies(
                                    *old(self),
                                    positions@,
                                    a,
                                    b2,
                                    w1,
                                    w2,
                                ) implies old(self).pair_applied(positions@[a] as int, positions@[b2] as int, w1, w2) by {
                                if w1 == value1 && w2 == value2 {
                                    assert(*self == *old(self));
                                    let pa = positions@[a];
                                    let pb = positions@[b2];
                                    assert(self.square(pa as int).allows(value1 as int) && self.square(pa as int).allows(
                                        value2 as int,
                                    ));
                                    assert(self.square(pb as int).allows(value1 as int) && self.square(pb as int).allows(
                                        value2 as int,
                                    ));
                                    if count == 0 {
                                        assert(false);
                                    } else if count == 1 {
                                        assert(pa == first && pb == first);
                                        assert(false);
                                    } else if count >= 3 {
                                        let (j1, j2, j3) = choose|j1: int, j2: int, j3: int|
                                            0 <= j1 < j2 < j3 < 9 && (#[trigger] self.square(positions@[j1] as int)).allows(
                                                value1 as int,
                                            ) && self.square(positions@[j1] as int).allows(value2 as int) && (
                                            #[trigger] self.square(positions@[j2] as int)).allows(value1 as int)
                                                && self.square(positions@[j2] as int).allows(value2 as int) && (
                                            #[trigger] self.square(positions@[j3] as int)).allows(value1 as int)
                                                && self.square(positions@[j3] as int).allows(value2 as int);
                                        assert(j1 == a || j1 == b2);
                                        assert(j2 == a || j2 == b2);
                                        assert(j3 == a || j3 == b2);
                                        assert(false);
                                    }
                                    assert(count == 2);
                                    assert(false);
                                }
                            }
                        }
                    }
                }
            }
        }
        proof {
            if !changed {
                assert(*self == *old(self));
            }
        }
        changed
    }

    /// One full naked-pair pass over all 27 units.  Reports whether any
    /// candidate was actually removed; when none was, the board provably
    /// holds no qualifying pair with pending eliminations (`pair_free`).
    fn eliminate_naked_pairs(&mut self) -> (changed: bool)
        requires
            old(self).wf(),
            old(self).propagation_complete(),
        ensures
            final(self).wf(),
            final(self).propagation_complete(),
            final(self).narrowed_keeping_flags(*old(self)),
            final(self).name == old(self).name,
            final(self).depth == old(self).depth,
            final(self).total_count() <= old(self).total_count(),
            !changed ==> final(self).same_squares(*old(self)),
            !changed ==> *final(self) == *old(self),
            changed ==> final(self).total_count() < old(self).total_count(),
            forall|c: Board|
                #[trigger] solution_within(c, *old(self)) ==> solution_within(c, *final(self)),
            !changed ==> final(self).pair_free(),
    {
        proof {
            lemma_evolves_reflexive(*self);
        }
        let mut changed = false;
        let mut found: Vec<NakedPair> = Vec::new();
        for row in 1..10usize
            invariant
                self.wf(),
                self.propagation_complete(),
                self.narrowed_keeping_flags(*old(self)),
                self.name == old(self).name,
                self.depth == old(self).depth,
                self.total_count() <= old(self).total_count(),
                !changed ==> self.same_squares(*old(self)),
                !changed ==> *self == *old(self),
                changed ==> self.total_count() < old(self).total_count(),
                forall|c: Board|
                    #[trigger] solution_within(c, *old(self)) ==> solution_within(c, *self),
                forall|k: int| 0 <= k < found@.len() ==> pair_bounds(#[trigger] found@[k]),
                !changed ==> forall|k: int|
                    0 <= k < found@.len() ==> old(self).pair_applied(
                        (#[trigger] found@[k]).pos1 as int,
                        found@[k].pos2 as int,
                        found@[k].value1 as int,
                        found@[k].value2 as int,
                    ),
                !changed ==> self.rows_pair_free_upto(row as int),
        {
            let ghost prev = *self;
            let list = Board::all_values_in_row(row);
            proof {
                lemma_row_list_units(row as int, list@);
            }
            changed = self.eliminate_pairs_in(list, &mut found, changed);
            proof {
                lemma_narrowed_transitive(*old(self), prev, *self);
                assert forall|c2: Board|
                    #[trigger] solution_within(c2, *old(self)) implies solution_within(
                    c2,
                    *self,
                ) by {
                    assert(solution_within(c2, prev));
                }
                if !changed {
                    assert(prev == *old(self));
                    assert forall|p1: int, p2: int, w1: int, w2: int|
                        0 <= p1 < 81 && 0 <= p2 < 81 && p1 != p2 && 1 <= w1 <= 9 && 1 <= w2 <= 9
                            && w1 < w2 && row_of(p1) < row + 1 && #[trigger] self.row_pair_qualifies(
                            p1,
                            p2,
                            w1,
                            w2,
                        ) implies self.pair_applied(p1, p2, w1, w2) by {
                        if row_of(p1) == row {
                            lemma_position_decompose(p1);
                            lemma_position_decompose(p2);
                            let a = col_of(p1) - 1;
                            let b2 = col_of(p2) - 1;
                            assert(list@[a] == p1);
                            assert(list@[b2] == p2);
                            assert(list_pair_qualifies(*self, list@, a, b2, w1, w2)) by {
                                assert forall|j: int|
                                    0 <= j < 9 && j != a && j != b2 implies !((
                                #[trigger] self.square(list@[j] as int)).allows(w1)
                                    && self.square(list@[j] as int).allows(w2)) by {
                                    lemma_position_of(row as int, j + 1);
                                    assert(list@[j] as int != p1 && list@[j] as int != p2);
                                    assert(same_row(p1, list@[j] as int));
                                }
                                if !(self.square(p1).count() == 2 && self.square(p2).count()
                                    == 2) {
                                    assert forall|j: int|
                                        0 <= j < 9 && j != a && j != b2 implies !(
                                    #[trigger] self.square(list@[j] as int)).allows(w1)
                                        && !self.square(list@[j] as int).allows(w2) by {
                                        lemma_position_of(row as int, j + 1);
                                        assert(list@[j] as int != p1 && list@[j] as int != p2);
                                        assert(same_row(p1, list@[j] as int));
                                    }
                                }
                            }
                        }
                    }
                }
            }
        }
        for col in 1..10usize
            invariant
                self.wf(),
                self.propagation_complete(),
                self.narrowed_keeping_flags(*old(self)),
                self.name == old(self).name,
                self.depth == old(self).depth,
                self.total_count() <= old(self).total_count(),
                !changed ==> self.same_squares(*old(self)),
                !changed ==> *self == *old(self),
                changed ==> self.total_count() < old(self).total_count(),
                forall|c: Board|
                    #[trigger] solution_within(c, *old(self)) ==> solution_within(c, *self),
                forall|k: int| 0 <= k < found@.len() ==> pair_bounds(#[trigger] found@[k]),
                !changed ==> forall|k: int|
                    0 <= k < found@.len() ==> old(self).pair_applied(
                        (#[trigger] found@[k]).pos1 as int,
                        found@[k].pos2 as int,
                        found@[k].value1 as int,
                        found@[k].value2 as int,
                    ),
                !changed ==> self.rows_pair_free_upto(10),
                !changed ==> self.cols_pair_free_upto(col as int),
        {
            let ghost prev = *self;
            let list = Board::all_values_in_column(col);
            proof {
                lemma_col_list_units(col as int, list@);
            }
            changed = self.eliminate_pairs_in(list, &mut found, changed);
            proof {
                lemma_narrowed_transitive(*old(self), prev, *self);
                assert forall|c2: Board|
                    #[trigger] solution_within(c2, *old(self)) implies solution_within(
                    c2,
                    *self,
                ) by {
                    assert(solution_within(c2, prev));
                }
                if !changed {
                    assert(prev == *old(self));
                    assert forall|p1: int, p2: int, w1: int, w2: int|
                        0 <= p1 < 81 && 0 <= p2 < 81 && p1 != p2 && 1 <= w1 <= 9 && 1 <= w2 <= 9
                            && w1 < w2 && col_of(p1) < col + 1 && #[trigger] self.col_pair_qualifies(
                            p1,
                            p2,
                            w1,
                            w2,
                        ) implies self.pair_applied(p1, p2, w1, w2) by {
                        if col_of(p1) == col {
                            lemma_position_decompose(p1);
                            lemma_position_decompose(p2);
                            let a = row_of(p1) - 1;
                            let b2 = row_of(p2) - 1;
                            assert(list@[a] == p1);
                            assert(list@[b2] == p2);
                            assert(list_pair_qualifies(*self, list@, a, b2, w1, w2)) by {
                                assert forall|j: int|
                                    0 <= j < 9 && j != a && j != b2 implies !((
                                #[trigger] self.square(list@[j] as int)).allows(w1)
                                    && self.square(list@[j] as int).allows(w2)) by {
                                    lemma_position_of(j + 1, col as int);
                                    assert(list@[j] as int != p1 && list@[j] as int != p2);
                                    assert(same_col(p1, list@[j] as int));
                                }
                                if !(self.square(p1).count() == 2 && self.square(p2).count()
                                    == 2) {
                                    assert forall|j: int|
                                        0 <= j < 9 && j != a && j != b2 implies !(
                                    #[trigger] self.square(list@[j] as int)).allows(w1)
                                        && !self.square(list@[j] as int).allows(w2) by {
                                        lemma_position_of(j + 1, col as int);
                                        assert(list@[j] as int != p1 && list@[j] as int != p2);
                                        assert(same_col(p1, list@[j] as int));
                                    }
                                }
                            }
                        }
                    }
                }
            }
        }
        for rowgrid in 0..3usize
            invariant
                self.wf(),
                self.propagation_complete(),
                self.narrowed_keeping_flags(*old(self)),
                self.name == old(self).name,
                self.depth == old(self).depth,
                self.total_count() <= old(self).total_count(),
                !changed ==> self.same_squares(*old(self)),
                !changed ==> *self == *old(self),
                changed ==> self.total_count() < old(self).total_count(),
                forall|c: Board|
                    #[trigger] solution_within(c, *old(self)) ==> solution_within(c, *self),
                forall|k: int| 0 <= k < found@.len() ==> pair_bounds(#[trigger] found@[k]),
                !changed ==> forall|k: int|
                    0 <= k < found@.len() ==> old(self).pair_applied(
                        (#[trigger] found@[k]).pos1 as int,
                        found@[k].pos2 as int,
                        found@[k].value1 as int,
                        found@[k].value2 as int,
                    ),
                !changed ==> self.rows_pair_free_upto(10),
                !changed ==> self.cols_pair_free_upto(10),
                !changed ==> self.grids_pair_free_upto(rowgrid * 3),
        {
            for colgrid in 0..3usize
                invariant
                    rowgrid <= 2,
                    self.wf(),
                    self.propagation_complete(),
                    self.narrowed_keeping_flags(*old(self)),
                    self.name == old(self).name,
                    self.depth == old(self).depth,
                    self.total_count() <= old(self).total_count(),
                    !changed ==> self.same_squares(*old(self)),
                    !changed ==> *self == *old(self),
                    changed ==> self.total_count() < old(self).total_count(),
                    forall|c: Board|
                        #[trigger] solution_within(c, *old(self)) ==> solution_within(c, *self),
                    forall|k: int| 0 <= k < found@.len() ==> pair_bounds(#[trigger] found@[k]),
                    !changed ==> forall|k: int|
                        0 <= k < found@.len() ==> old(self).pair_applied(
                            (#[trigger] found@[k]).pos1 as int,
                            found@[k].pos2 as int,
                            found@[k].value1 as int,
                            found@[k].value2 as int,
                        ),
                    !changed ==> self.rows_pair_free_upto(10),
                    !changed ==> self.cols_pair_free_upto(10),
                    !changed ==> self.grids_pair_free_upto(rowgrid * 3 + colgrid),
            {
                let ghost prev = *self;
                let list = Board::all_values_in_subgrid(rowgrid, colgrid);
                proof {
                    lemma_grid_list_units(rowgrid as int, colgrid as int, list@);
                }
                changed = self.eliminate_pairs_in(list, &mut found, changed);
                proof {
                    lemma_narrowed_transitive(*old(self), prev, *self);
                    assert forall|c2: Board|
                        #[trigger] solution_within(c2, *old(self)) implies solution_within(
                        c2,
                        *self,
                    ) by {
                        assert(solution_within(c2, prev));
                    }
                    if !changed {
                        assert(prev == *old(self));
                        assert forall|p1: int, p2: int, w1: int, w2: int|
                            0 <= p1 < 81 && 0 <= p2 < 81 && p1 != p2 && 1 <= w1 <= 9 && 1 <= w2
                                <= 9 && w1 < w2 && grid_row_of(p1) * 3 + grid_col_of(p1) < rowgrid
                                * 3 + colgrid + 1 && #[trigger] self.grid_pair_qualifies(
                                p1,
                                p2,
                                w1,
                                w2,
                            ) implies self.pair_applied(p1, p2, w1, w2) by {
                            if grid_row_of(p1) == rowgrid && grid_col_of(p1) == colgrid {
                                lemma_position_decompose(p1);
                                lemma_position_decompose(p2);
                                let a = grid_slot_of(p1);
                                let b2 = grid_slot_of(p2);
                                assert(list@[a] == p1);
                                assert(list@[b2] == p2);
                                assert(list_pair_qualifies(*self, list@, a, b2, w1, w2)) by {
                                    assert forall|j: int|
                                        0 <= j < 9 && j != a && j != b2 implies !((
                                    #[trigger] self.square(list@[j] as int)).allows(w1)
                                        && self.square(list@[j] as int).allows(w2)) by {
                                        lemma_grid_member(rowgrid as int, colgrid as int, j);
                                        assert(list@[j] as int != p1 && list@[j] as int != p2);
                                        assert(same_grid(p1, list@[j] as int));
                                    }
                                    if !(self.square(p1).count() == 2 && self.square(p2).count()
                                        == 2) {
                                        assert forall|j: int|
                                            0 <= j < 9 && j != a && j != b2 implies !(
                                        #[trigger] self.square(list@[j] as int)).allows(w1)
                                            && !self.square(list@[j] as int).allows(w2) by {
                                            lemma_grid_member(rowgrid as int, colgrid as int, j);
                                            assert(list@[j] as int != p1 && list@[j] as int != p2);
                                            assert(same_grid(p1, list@[j] as int));
                                        }
                                    }
                                }
                            } else {
                                assert(grid_row_of(p1) * 3 + grid_col_of(p1) < rowgrid * 3
                                    + colgrid);
                            }
                        }
                    }
                }
            }
        }
        proof {
            if !changed {
                assert forall|p1: int, p2: int, v1: int, v2: int|
                    0 <= p1 < 81 && 0 <= p2 < 81 && p1 != p2 && 1 <= v1 <= 9 && 1 <= v2 <= 9 && v1
                        < v2 && (self.row_pair_qualifies(p1, p2, v1, v2) || self.col_pair_qualifies(
                        p1,
                        p2,
                        v1,
                        v2,
                    ) || #[trigger] self.grid_pair_qualifies(p1, p2, v1, v2)) implies self.pair_applied(
                    p1,
                    p2,
                    v1,
                    v2,
                ) by {
                    lemma_position_decompose(p1);
                }
                assert(self.pair_free());
            }
        }
        changed
    }

    /// Promote singletons within one unit: a digit that only one square of
    /// the unit can still hold must go there.  When nothing was promoted,
    /// the unit provably holds no overlooked singleton: any digit confined
    /// to a single listed square already sits in a known square.
    fn promote_singleton_in(&mut self, positions: [usize; 9]) -> (promoted: bool)
        requires
            old(self).wf(),
            old(self).propagation_complete(),
            forall|i: int| 0 <= i < 9 ==> (#[trigger] positions@[i]) < 81,
            forall|i: int, j: int| 0 <= i < j < 9 ==> positions@[i] != positions@[j],
            forall|i: int, j: int|
                0 <= i < 9 && 0 <= j < 9 ==> #[trigger] same_unit(
                    positions@[i] as int,
                    positions@[j] as int,
                ),
        ensures
            forall|c: Board|
                #[trigger] solution_within(c, *old(self)) ==> solution_within(c, *final(self)),
            final(self).wf(),
            final(self).propagation_complete(),
            final(self).narrowed_keeping_flags(*old(self)),
            final(self).name == old(self).name,
            final(self).depth == old(self).depth,
            final(self).total_count() <= old(self).total_count(),
            !promoted ==> final(self).same_squares(*old(self)),
            !promoted ==> *final(self) == *old(self),
            promoted ==> final(self).total_count() < old(self).total_count(),
            !promoted ==> forall|d: int, i: int|
                1 <= d <= 9 && 0 <= i < 9 && #[trigger] final(self).square(
                    positions@[i] as int,
                ).allows(d) && (forall|j: int|
                    0 <= j < 9 && j != i ==> !final(self).square(positions@[j] as int).allows(d))
                    ==> final(self).square(positions@[i] as int).count() == 1,
            forall|q: int|
                0 <= q < 81 && old(self).square(q).count() == 1 ==> (#[trigger] final(self).square(
                    q,
                )) == old(self).square(q),
            promoted ==> exists|i: int, d: int|
                0 <= i < 9 && 1 <= d <= 9 && old(self).square(positions@[i] as int).count() != 1
                    && #[trigger] old(self).square(positions@[i] as int).allows(d) && (forall|
                    j: int,
                |
                    0 <= j < 9 && j != i ==> !old(self).square(positions@[j] as int).allows(d))
                    && final(self).square(positions@[i] as int).count() == 1 && final(self).square(
                    positions@[i] as int,
                ).value_spec() == d,
    {
        proof {
            lemma_evolves_reflexive(*self);
        }
        let ghost mut wit_i: int = 0;
        let ghost mut wit_d: int = 0;
        let mut promoted = false;
        for value in 1..10usize
            invariant
                old(self).wf(),
                old(self).propagation_complete(),
                forall|j: int| 0 <= j < 9 ==> (#[trigger] positions@[j]) < 81,
                forall|j1: int, j2: int| 0 <= j1 < j2 < 9 ==> positions@[j1] != positions@[j2],
                forall|j1: int, j2: int|
                    0 <= j1 < 9 && 0 <= j2 < 9 ==> #[trigger] same_unit(
                        positions@[j1] as int,
                        positions@[j2] as int,
                    ),
                self.wf(),
                self.propagation_complete(),
                self.narrowed_keeping_flags(*old(self)),
                self.name == old(self).name,
                self.depth == old(self).depth,
                self.total_count() <= old(self).total_count(),
                !promoted ==> self.same_squares(*old(self)),
                !promoted ==> *self == *old(self),
                promoted ==> self.total_count() < old(self).total_count(),
                forall|c: Board|
                    #[trigger] solution_within(c, *old(self)) ==> solution_within(c, *self),
                !promoted ==> forall|d: int, i: int|
                    1 <= d < value && 0 <= i < 9 && #[trigger] self.square(
                        positions@[i] as int,
                    ).allows(d) && (forall|j: int|
                        0 <= j < 9 && j != i ==> !self.square(positions@[j] as int).allows(d))
                        ==> self.square(positions@[i] as int).count() == 1,
                forall|q: int|
                    0 <= q < 81 && old(self).square(q).count() == 1 ==> (#[trigger] self.square(q))
                        == old(self).square(q),
                promoted ==> 0 <= wit_i < 9 && 1 <= wit_d <= 9 && old(self).square(
                    positions@[wit_i] as int,
                ).count() != 1 && old(self).square(positions@[wit_i] as int).allows(wit_d) && (
                forall|j: int|
                    0 <= j < 9 && j != wit_i ==> !old(self).square(positions@[j] as int).allows(
                        wit_d,
                    )) && self.square(positions@[wit_i] as int).count() == 1 && self.square(
                    positions@[wit_i] as int,
                ).value_spec() == wit_d,
        {
            let mut occurences: usize = 0;
            let mut foundpos: usize = 0;
            for i in 0..9usize
                invariant
                    1 <= value <= 9,
                    forall|j: int| 0 <= j < 9 ==> (#[trigger] positions@[j]) < 81,
                    forall|j1: int, j2: int| 0 <= j1 < j2 < 9 ==> positions@[j1] != positions@[j2],
                    occurences <= i,
                    occurences == 0 ==> forall|j: int|
                        0 <= j < i ==> !(#[trigger] self.square(positions@[j] as int)).allows(
                            value as int,
                        ),
                    occurences >= 1 ==> foundpos < 81 && self.square(foundpos as int).allows(
                        value as int,
                    ),
                    occurences == 1 ==> (exists|jf: int| 0 <= jf < i && positions@[jf] == foundpos)
                        && (forall|j: int|
                        0 <= j < i && (#[trigger] self.square(positions@[j] as int)).allows(
                            value as int,
                        ) ==> positions@[j] == foundpos),
                    occurences >= 2 ==> exists|j1: int, j2: int|
                        0 <= j1 < j2 < i && (#[trigger] self.square(positions@[j1] as int)).allows(
                            value as int,
                        ) && (#[trigger] self.square(positions@[j2] as int)).allows(value as int),
            {
                let pos = positions[i];
                if self.values[pos].can_have_value(value) {
                    proof {
                        if occurences == 1 {
                            let jf = choose|jf: int| 0 <= jf < i && positions@[jf] == foundpos;
                            assert(self.square(positions@[jf] as int).allows(value as int));
                            assert(exists|j1: int, j2: int|
                                0 <= j1 < j2 < i + 1 && (#[trigger] self.square(
                                    positions@[j1] as int,
                                )).allows(value as int) && (#[trigger] self.square(
                                    positions@[j2] as int,
                                )).allows(value as int)) by {
                                assert(0 <= jf < i + 1 && self.square(positions@[jf] as int).allows(
                                    value as int,
                                ) && self.square(positions@[i as int] as int).allows(value as int));
                            }
                        }
                    }
                    occurences = occurences + 1;
                    foundpos = pos;
                    proof {
                        if occurences == 1 {
                            assert(positions@[i as int] == foundpos);
                        }
                    }
                }
            }
            let ghost board_at_scan = *self;
            if occurences == 1 && !self.values[foundpos].has_known_value() {
                let ghost was_promoted = promoted;
                let ghost prev = *self;
                let mut s = self.values[foundpos];
                proof {
                    lemma_allows_counts(s, 1, value as int);
                }
                s.set_known_value(value);
                self.values[foundpos] = s;
                promoted = true;
                proof {
                    let fp = foundpos as int;
                    assert forall|p: int| 0 <= p < 81 implies {
                        let a = #[trigger] self.square(p);
                        let b = prev.square(p);
                        a.row == b.row && a.col == b.col && a.propagated == b.propagated
                            && a.narrows(b)
                    } by {
                        if p != fp {
                            assert(self.square(p) == prev.square(p));
                            assert(self.square(p).narrows(prev.square(p)));
                        } else {
                            assert forall|u: int| self.square(p).allows(u) implies prev.square(
                                p,
                            ).allows(u) by {
                                assert(u == value);
                            }
                        }
                    }
                    lemma_narrowed_transitive(*old(self), prev, *self);
                    lemma_narrow_preserves_completeness(*old(self), *self);
                    lemma_total_update(prev, *self, fp, 0);
                    assert(prev.square(fp).count() >= 2);
                    assert(self.square(fp).count() == 1);
                    if !was_promoted {
                        wit_i = choose|jf: int| 0 <= jf < 9 && positions@[jf] == foundpos;
                        wit_d = value as int;
                        assert(old(self).square(positions@[wit_i] as int) == prev.square(fp));
                        assert forall|j: int|
                            0 <= j < 9 && j != wit_i implies !old(self).square(
                            positions@[j] as int,
                        ).allows(wit_d) by {
                            assert(old(self).square(positions@[j] as int) == prev.square(
                                positions@[j] as int,
                            ));
                            if prev.square(positions@[j] as int).allows(wit_d) {
                                assert(positions@[j] == foundpos);
                            }
                        }
                    } else {
                        assert(prev.square(positions@[wit_i] as int).count() == 1);
                        assert(positions@[wit_i] != foundpos);
                        assert(self.square(positions@[wit_i] as int) == prev.square(
                            positions@[wit_i] as int,
                        ));
                    }
                    assert forall|q: int|
                        0 <= q < 81 && old(self).square(q).count() == 1 implies (
                    #[trigger] self.square(q)) == old(self).square(q) by {
                        assert(prev.square(q) == old(self).square(q));
                        assert(prev.square(q).count() == 1);
                        assert(q != fp);
                        assert(self.square(q) == prev.square(q));
                    }
                    assert forall|c: Board|
                        #[trigger] solution_within(c, *old(self)) implies solution_within(
                        c,
                        *self,
                    ) by {
                        assert(solution_within(c, prev));
                        lemma_solution_covers_unit(c, positions@, value as int);
                        let wi = choose|wi: int|
                            0 <= wi < 9 && c.square(
                                #[trigger] positions@[wi] as int,
                            ).value_spec() == value;
                        lemma_known_value(c.square(positions@[wi] as int));
                        assert(prev.square(positions@[wi] as int).allows(value as int)) by {
                            assert(c.square(positions@[wi] as int).allows(value as int));
                            assert(c.square(positions@[wi] as int).narrows(
                                prev.square(positions@[wi] as int),
                            ));
                        }
                        assert(positions@[wi] == foundpos);
                        lemma_pinning_keeps_solution(c, prev, *self, fp, value as int);
                    }
                }
            }
            proof {
                if !promoted {
                    assert(*self == board_at_scan);
                    assert forall|d: int, i2: int|
                        1 <= d < value + 1 && 0 <= i2 < 9 && #[trigger] self.square(
                            positions@[i2] as int,
                        ).allows(d) && (forall|j: int|
                            0 <= j < 9 && j != i2 ==> !self.square(positions@[j] as int).allows(d))
                        implies self.square(positions@[i2] as int).count() == 1 by {
                        if d == value {
                            if occurences == 0 {
                                assert(!self.square(positions@[i2] as int).allows(value as int));
                            } else if occurences >= 2 {
                                let (j1, j2) = choose|j1: int, j2: int|
                                    0 <= j1 < j2 < 9 && (#[trigger] self.square(
                                        positions@[j1] as int,
                                    )).allows(value as int) && (#[trigger] self.square(
                                        positions@[j2] as int,
                                    )).allows(value as int);
                                if j1 != i2 {
                                    assert(!self.square(positions@[j1] as int).allows(d));
                                } else {
                                    assert(j2 != i2);
                                    assert(!self.square(positions@[j2] as int).allows(d));
                                }
                            } else {
                                assert(positions@[i2] == foundpos);
                                assert(self.square(foundpos as int).count() == 1);
                            }
                        }
                    }
                }
            }
        }
        promoted
    }

    /// Run the deduction loop to a fixpoint: unit propagation, then
    /// naked-pair elimination, then singleton promotion, repeated while any
    /// technique makes progress.
    ///
    /// Returns `true` exactly when the board ends with every square known;
    /// a board reported solved is a valid Sudoku grid.  Returns `false` as
    /// soon as a contradiction shows up after propagation, or when the loop
    /// reaches a fixpoint that still holds open squares (the caller must
    /// escalate to guessing); at such a fixpoint nothing is left to
    /// propagate, no singleton is left to promote, and every qualifying
    /// naked pair has already had its effect.  Candidate sets only
    /// shrink (`evolves_from`), so the given digits of the input survive
    /// into the result, and deduction is sound: every solution the board
    /// admitted on entry it still admits on exit (`solution_within`), so a
    /// completion is never deduced away.
    #[verifier::rlimit(100)]
    pub fn solve(&mut self) -> (solved: bool)
        requires
            old(self).wf(),
            old(self).propagation_complete(),
        ensures
            final(self).wf(),
            final(self).propagation_complete(),
            final(self).evolves_from(*old(self)),
            final(self).name == old(self).name,
            final(self).depth == old(self).depth,
            final(self).total_count() <= old(self).total_count(),
            solved <==> final(self).all_known(),
            solved ==> final(self).valid_solution(),
            !solved && !final(self).has_contradiction() ==> final(self).no_pending_propagation()
                && final(self).singleton_free() && final(self).pair_free(),
            forall|c: Board|
                #[trigger] solution_within(c, *old(self)) ==> solution_within(c, *final(self)),
    {
        proof {
            lemma_evolves_reflexive(*self);
            lemma_propagated_from_bound(*self, 0);
        }
        loop
            invariant
                self.wf(),
                self.propagation_complete(),
                self.evolves_from(*old(self)),
                self.name == old(self).name,
                self.depth == old(self).depth,
                self.total_count() <= old(self).total_count(),
                self.propagated_count() <= 81,
                forall|c: Board|
                    #[trigger] solution_within(c, *old(self)) ==> solution_within(c, *self),
            decreases self.total_count() + 81 - self.propagated_count(),
        {
            let ghost pre = *self;
            let progress = self.propagate_all_known_values();
            proof {
                lemma_evolves_transitive(*old(self), pre, *self);
                if !progress {
                    lemma_propagated_same(pre, *self, 0);
                }
                assert forall|c: Board|
                    #[trigger] solution_within(c, *old(self)) implies solution_within(
                    c,
                    *self,
                ) by {
                    assert(solution_within(c, pre));
                }
            }
            if self.solved() {
                proof {
                    lemma_deduced_board_valid(*self);
                }
                return true;
            }
            if self.contains_contradiction() {
                proof {
                    let p = choose|p: int| 0 <= p < 81 && self.square(p).count() == 0;
                    assert(self.square(p).count() != 1);
                }
                return false;
            }
            let ghost mid = *self;
            let pair_progress = self.eliminate_naked_pairs();
            let ghost mid2 = *self;
            proof {
                lemma_narrowed_evolves(mid, mid2);
                lemma_evolves_transitive(*old(self), mid, mid2);
                lemma_propagated_same(mid, mid2, 0);
                assert forall|c: Board|
                    #[trigger] solution_within(c, *old(self)) implies solution_within(
                    c,
                    mid2,
                ) by {
                    assert(solution_within(c, mid));
                }
            }
            let promoted = self.promote_singletons();
            proof {
                lemma_narrowed_evolves(mid2, *self);
                lemma_evolves_transitive(*old(self), mid2, *self);
                lemma_propagated_same(mid2, *self, 0);
                lemma_propagated_from_bound(*self, 0);
                assert forall|c: Board|
                    #[trigger] solution_within(c, *old(self)) implies solution_within(
                    c,
                    *self,
                ) by {
                    assert(solution_within(c, mid2));
                }
            }
            if !progress && !pair_progress && !promoted {
                proof {
                    let p = choose|p: int| 0 <= p < 81 && mid.square(p).count() != 1;
                    assert(mid2.square(p) == mid.square(p));
                    assert(self.square(p) == mid2.square(p));
                    assert forall|q: int| 0 <= q < 81 implies !(!(#[trigger] self.square(
                        q,
                    )).propagated && self.square(q).count() == 1) by {
                        assert(self.square(q) == mid2.square(q));
                        assert(mid2.square(q) == mid.square(q));
                        assert(!(!mid.square(q).propagated && mid.square(q).count() == 1));
                    }
                    assert forall|q: int| 0 <= q < 81 implies (#[trigger] self.square(q)).count()
                        != 0 by {
                        assert(self.square(q) == mid2.square(q));
                        assert(mid2.square(q) == mid.square(q));
                        assert(mid.square(q).count() != 0);
                    }
                }
                return false;
            }
        }
    }

    /// Singleton promotion over all 27 units.  Reports whether any square
    /// was promoted to a known value; when none was, the board provably
    /// holds no singleton at all (`singleton_free`).
    fn promote_singletons(&mut self) -> (promoted: bool)
        requires
            old(self).wf(),
            old(self).propagation_complete(),
        ensures
            final(self).wf(),
            final(self).propagation_complete(),
            final(self).narrowed_keeping_flags(*old(self)),
            final(self).name == old(self).name,
            final(self).depth == old(self).depth,
            final(self).total_count() <= old(self).total_count(),
            !promoted ==> final(self).same_squares(*old(self)),
            !promoted ==> *final(self) == *old(self),
            promoted ==> final(self).total_count() < old(self).total_count(),
            !promoted ==> final(self).singleton_free(),
            forall|c: Board|
                #[trigger] solution_within(c, *old(self)) ==> solution_within(c, *final(self)),
            forall|q: int|
                0 <= q < 81 && old(self).square(q).count() == 1 ==> (#[trigger] final(self).square(
                    q,
                )) == old(self).square(q),
            promoted ==> exists|p: int, d: int|
                0 <= p < 81 && 1 <= d <= 9 && old(self).square(p).count() != 1
                    && #[trigger] old(self).square(p).allows(d) && (old(self).row_unique(p, d)
                    || old(self).col_unique(p, d) || old(self).grid_unique(p, d))
                    && final(self).square(p).count() == 1
                    && final(self).square(p).value_spec() == d,
    {
        proof {
            lemma_evolves_reflexive(*self);
        }
        let ghost mut wp: int = 0;
        let ghost mut wd: int = 0;
        let mut promoted = false;
        for row in 1..10usize
            invariant
                self.wf(),
                self.propagation_complete(),
                self.narrowed_keeping_flags(*old(self)),
                self.name == old(self).name,
                self.depth == old(self).depth,
                self.total_count() <= old(self).total_count(),
                !promoted ==> self.same_squares(*old(self)),
                !promoted ==> *self == *old(self),
                promoted ==> self.total_count() < old(self).total_count(),
                !promoted ==> self.rows_singleton_free_upto(row as int),
                forall|c: Board|
                    #[trigger] solution_within(c, *old(self)) ==> solution_within(c, *self),
                forall|q: int|
                    0 <= q < 81 && old(self).square(q).count() == 1 ==> (#[trigger] self.square(q))
                        == old(self).square(q),
                promoted ==> 0 <= wp < 81 && 1 <= wd <= 9 && old(self).square(wp).count() != 1
                    && old(self).square(wp).allows(wd) && (old(self).row_unique(wp, wd) || old(
                    self,
                ).col_unique(wp, wd) || old(self).grid_unique(wp, wd)) && self.square(
                    wp,
                ).count() == 1 && self.square(wp).value_spec() == wd,
        {
            let ghost was_promoted = promoted;
            let ghost prev = *self;
            let list = Board::all_values_in_row(row);
            proof {
                lemma_row_list_units(row as int, list@);
            }
            let c = self.promote_singleton_in(list);
            promoted = c || promoted;
            proof {
                lemma_narrowed_transitive(*old(self), prev, *self);
                assert forall|c: Board|
                    #[trigger] solution_within(c, *old(self)) implies solution_within(
                    c,
                    *self,
                ) by {
                    assert(solution_within(c, prev));
                }
                assert forall|q: int|
                    0 <= q < 81 && old(self).square(q).count() == 1 implies (
                #[trigger] self.square(q)) == old(self).square(q) by {
                    assert(prev.square(q) == old(self).square(q));
                    assert(prev.square(q).count() == 1);
                }
                if c && !was_promoted {
                    let (i, d) = choose|i: int, d: int|
                        0 <= i < 9 && 1 <= d <= 9 && prev.square(list@[i] as int).count() != 1
                            && #[trigger] prev.square(list@[i] as int).allows(d) && (forall|j: int|
                            0 <= j < 9 && j != i ==> !prev.square(list@[j] as int).allows(d))
                            && self.square(list@[i] as int).count() == 1 && self.square(
                            list@[i] as int,
                        ).value_spec() == d;
                    wp = list@[i] as int;
                    wd = d;
                    lemma_position_of(row as int, i + 1);
                    assert(old(self).square(wp) == prev.square(wp));
                    assert(old(self).row_unique(wp, wd)) by {
                        assert forall|q: int|
                            0 <= q < 81 && q != wp && same_row(wp, q) implies !(
                        #[trigger] old(self).square(q)).allows(wd) by {
                            lemma_position_decompose(q);
                            assert(list@[col_of(q) - 1] == q);
                            assert(col_of(q) - 1 != i);
                            assert(!prev.square(q).allows(wd));
                            assert(old(self).square(q) == prev.square(q));
                        }
                    }
                } else if was_promoted {
                    assert(prev.square(wp).count() == 1);
                    assert(self.square(wp) == prev.square(wp));
                }
                if !promoted {
                    lemma_singleton_prefixes_transfer(prev, *self, row as int, 1, 0);
                    assert forall|p: int, d: int|
                        0 <= p < 81 && 1 <= d <= 9 && row_of(p) < row + 1 && #[trigger] self.square(
                            p,
                        ).allows(d) && self.row_unique(p, d) implies self.square(p).count()
                        == 1 by {
                        if row_of(p) == row {
                            lemma_position_decompose(p);
                            let i2 = col_of(p) - 1;
                            assert(list@[i2] == p);
                            assert forall|j: int| 0 <= j < 9 && j != i2 implies !self.square(
                                list@[j] as int,
                            ).allows(d) by {
                                lemma_position_of(row as int, j + 1);
                                assert(list@[j] as int != p);
                                assert(same_row(p, list@[j] as int));
                            }
                            assert(self.square(list@[i2] as int).allows(d));
                        }
                    }
                }
            }
        }
        for col in 1..10usize
            invariant
                self.wf(),
                self.propagation_complete(),
                self.narrowed_keeping_flags(*old(self)),
                self.name == old(self).name,
                self.depth == old(self).depth,
                self.total_count() <= old(self).total_count(),
                !promoted ==> self.same_squares(*old(self)),
                !promoted ==> *self == *old(self),
                promoted ==> self.total_count() < old(self).total_count(),
                !promoted ==> self.rows_singleton_free_upto(10),
                !promoted ==> self.cols_singleton_free_upto(col as int),
                forall|c: Board|
                    #[trigger] solution_within(c, *old(self)) ==> solution_within(c, *self),
                forall|q: int|
                    0 <= q < 81 && old(self).square(q).count() == 1 ==> (#[trigger] self.square(q))
                        == old(self).square(q),
                promoted ==> 0 <= wp < 81 && 1 <= wd <= 9 && old(self).square(wp).count() != 1
                    && old(self).square(wp).allows(wd) && (old(self).row_unique(wp, wd) || old(
                    self,
                ).col_unique(wp, wd) || old(self).grid_unique(wp, wd)) && self.square(
                    wp,
                ).count() == 1 && self.square(wp).value_spec() == wd,
        {
            let ghost was_promoted = promoted;
            let ghost prev = *self;
            let list = Board::all_values_in_column(col);
            proof {
                lemma_col_list_units(col as int, list@);
            }
            let c = self.promote_singleton_in(list);
            promoted = c || promoted;
            proof {
                lemma_narrowed_transitive(*old(self), prev, *self);
                assert forall|c: Board|
                    #[trigger] solution_within(c, *old(self)) implies solution_within(
                    c,
                    *self,
                ) by {
                    assert(solution_within(c, prev));
                }
                assert forall|q: int|
                    0 <= q < 81 && old(self).square(q).count() == 1 implies (
                #[trigger] self.square(q)) == old(self).square(q) by {
                    assert(prev.square(q) == old(self).square(q));
                    assert(prev.square(q).count() == 1);
                }
                if c && !was_promoted {
                    let (i, d) = choose|i: int, d: int|
                        0 <= i < 9 && 1 <= d <= 9 && prev.square(list@[i] as int).count() != 1
                            && #[trigger] prev.square(list@[i] as int).allows(d) && (forall|j: int|
                            0 <= j < 9 && j != i ==> !prev.square(list@[j] as int).allows(d))
                            && self.square(list@[i] as int).count() == 1 && self.square(
                            list@[i] as int,
                        ).value_spec() == d;
                    wp = list@[i] as int;
                    wd = d;
                    lemma_position_of(i + 1, col as int);
                    assert(old(self).square(wp) == prev.square(wp));
                    assert(old(self).col_unique(wp, wd)) by {
                        assert forall|q: int|
                            0 <= q < 81 && q != wp && same_col(wp, q) implies !(
                        #[trigger] old(self).square(q)).allows(wd) by {
                            lemma_position_decompose(q);
                            assert(list@[row_of(q) - 1] == q);
                            assert(row_of(q) - 1 != i);
                            assert(!prev.square(q).allows(wd));
                            assert(old(self).square(q) == prev.square(q));
                        }
                    }
                } else if was_promoted {
                    assert(prev.square(wp).count() == 1);
                    assert(self.square(wp) == prev.square(wp));
                }
                if !promoted {
                    lemma_singleton_prefixes_transfer(prev, *self, 10, col as int, 0);
                    assert forall|p: int, d: int|
                        0 <= p < 81 && 1 <= d <= 9 && col_of(p) < col + 1 && #[trigger] self.square(
                            p,
                        ).allows(d) && self.col_unique(p, d) implies self.square(p).count()
                        == 1 by {
                        if col_of(p) == col {
                            lemma_position_decompose(p);
                            let i2 = row_of(p) - 1;
                            assert(list@[i2] == p);
                            assert forall|j: int| 0 <= j < 9 && j != i2 implies !self.square(
                                list@[j] as int,
                            ).allows(d) by {
                                lemma_position_of(j + 1, col as int);
                                assert(list@[j] as int != p);
                                assert(same_col(p, list@[j] as int));
                            }
                            assert(self.square(list@[i2] as int).allows(d));
                        }
                    }
                }
            }
        }
        for rowgrid in 0..3usize
            invariant
                self.wf(),
                self.propagation_complete(),
                self.narrowed_keeping_flags(*old(self)),
                self.name == old(self).name,
                self.depth == old(self).depth,
                self.total_count() <= old(self).total_count(),
                !promoted ==> self.same_squares(*old(self)),
                !promoted ==> *self == *old(self),
                promoted ==> self.total_count() < old(self).total_count(),
                !promoted ==> self.rows_singleton_free_upto(10),
                !promoted ==> self.cols_singleton_free_upto(10),
                !promoted ==> self.grids_singleton_free_upto(rowgrid * 3),
                forall|c: Board|
                    #[trigger] solution_within(c, *old(self)) ==> solution_within(c, *self),
                forall|q: int|
                    0 <= q < 81 && old(self).square(q).count() == 1 ==> (#[trigger] self.square(q))
                        == old(self).square(q),
                promoted ==> 0 <= wp < 81 && 1 <= wd <= 9 && old(self).square(wp).count() != 1
                    && old(self).square(wp).allows(wd) && (old(self).row_unique(wp, wd) || old(
                    self,
                ).col_unique(wp, wd) || old(self).grid_unique(wp, wd)) && self.square(
                    wp,
                ).count() == 1 && self.square(wp).value_spec() == wd,
        {
            for colgrid in 0..3usize
                invariant
                    rowgrid <= 2,
                    self.wf(),
                    self.propagation_complete(),
                    self.narrowed_keeping_flags(*old(self)),
                    self.name == old(self).name,
                    self.depth == old(self).depth,
                    self.total_count() <= old(self).total_count(),
                    !promoted ==> self.same_squares(*old(self)),
                    !promoted ==> *self == *old(self),
                    promoted ==> self.total_count() < old(self).total_count(),
                    !promoted ==> self.rows_singleton_free_upto(10),
                    !promoted ==> self.cols_singleton_free_upto(10),
                    !promoted ==> self.grids_singleton_free_upto(rowgrid * 3 + colgrid),
                    forall|c: Board|
                        #[trigger] solution_within(c, *old(self)) ==> solution_within(c, *self),
                    forall|q: int|
                        0 <= q < 81 && old(self).square(q).count() == 1 ==> (#[trigger] self.square(q))
                            == old(self).square(q),
                    promoted ==> 0 <= wp < 81 && 1 <= wd <= 9 && old(self).square(wp).count() != 1
                        && old(self).square(wp).allows(wd) && (old(self).row_unique(wp, wd) || old(
                        self,
                    ).col_unique(wp, wd) || old(self).grid_unique(wp, wd)) && self.square(
                        wp,
                    ).count() == 1 && self.square(wp).value_spec() == wd,
            {
                let ghost was_promoted = promoted;
                let ghost prev = *self;
                let list = Board::all_values_in_subgrid(rowgrid, colgrid);
                proof {
                    lemma_grid_list_units(rowgrid as int, colgrid as int, list@);
                }
                let c = self.promote_singleton_in(list);
                promoted = c || promoted;
                proof {
                    lemma_narrowed_transitive(*old(self), prev, *self);
                    assert forall|c: Board|
                        #[trigger] solution_within(c, *old(self)) implies solution_within(
                        c,
                        *self,
                    ) by {
                        assert(solution_within(c, prev));
                    }
                    assert forall|q: int|
                        0 <= q < 81 && old(self).square(q).count() == 1 implies (
                    #[trigger] self.square(q)) == old(self).square(q) by {
                        assert(prev.square(q) == old(self).square(q));
                        assert(prev.square(q).count() == 1);
                    }
                    if c && !was_promoted {
                        let (i, d) = choose|i: int, d: int|
                            0 <= i < 9 && 1 <= d <= 9 && prev.square(list@[i] as int).count() != 1
                                && #[trigger] prev.square(list@[i] as int).allows(d) && (forall|j: int|
                                0 <= j < 9 && j != i ==> !prev.square(list@[j] as int).allows(d))
                                && self.square(list@[i] as int).count() == 1 && self.square(
                                list@[i] as int,
                            ).value_spec() == d;
                        wp = list@[i] as int;
                        wd = d;
                        lemma_grid_member(rowgrid as int, colgrid as int, i);
                        assert(old(self).square(wp) == prev.square(wp));
                        assert(old(self).grid_unique(wp, wd)) by {
                            assert forall|q: int|
                                0 <= q < 81 && q != wp && same_grid(wp, q) implies !(
                            #[trigger] old(self).square(q)).allows(wd) by {
                                lemma_position_decompose(q);
                                assert(list@[grid_slot_of(q)] == q);
                                assert(grid_slot_of(q) != i);
                                assert(!prev.square(q).allows(wd));
                                assert(old(self).square(q) == prev.square(q));
                            }
                        }
                    } else if was_promoted {
                        assert(prev.square(wp).count() == 1);
                        assert(self.square(wp) == prev.square(wp));
                    }
                    if !promoted {
                        lemma_singleton_prefixes_transfer(
                            prev,
                            *self,
                            10,
                            10,
                            rowgrid * 3 + colgrid,
                        );
                        assert forall|p: int, d: int|
                            0 <= p < 81 && 1 <= d <= 9 && grid_row_of(p) * 3 + grid_col_of(p)
                                < rowgrid * 3 + colgrid + 1 && #[trigger] self.square(p).allows(d)
                                && self.grid_unique(p, d) implies self.square(p).count() == 1 by {
                            if grid_row_of(p) == rowgrid && grid_col_of(p) == colgrid {
                                lemma_position_decompose(p);
                                let i2 = grid_slot_of(p);
                                assert(list@[i2] == p);
                                assert forall|j: int| 0 <= j < 9 && j != i2 implies !self.square(
                                    list@[j] as int,
                                ).allows(d) by {
                                    lemma_grid_member(rowgrid as int, colgrid as int, j);
                                    assert(list@[j] as int != p);
                                    assert(same_grid(p, list@[j] as int));
                                }
                                assert(self.square(list@[i2] as int).allows(d));
                            } else {
                                assert(grid_row_of(p) * 3 + grid_col_of(p) < rowgrid * 3 + colgrid);
                            }
                        }
                    }
                }
            }
        }
        proof {
            if !promoted {
                assert forall|p: int, d: int|
                    0 <= p < 81 && 1 <= d <= 9 && #[trigger] self.square(p).allows(d) && (
                self.row_unique(p, d) || self.col_unique(p, d) || self.grid_unique(
                    p,
                    d,
                )) implies self.square(p).count() == 1 by {
                    lemma_position_decompose(p);
                }
            }
        }
        promoted
    }
}

/// Value of one input character: the digits 1-9 stand for themselves, any
/// other character is a blank.
pub open spec fn digit_of(c: char) -> int {
    if '1' as u32 <= c as u32 && c as u32 <= '9' as u32 {
        c as u32 - '0' as u32
    } else {
        0
    }
}

/// Number of characters before the first line break of `s` (all of `s` if it
/// has none).
pub open spec fn first_line_len(s: Seq<char>) -> nat
    decreases s.len(),
{
    if s.len() == 0 {
        0
    } else if s[0] == '\n' {
        0
    } else {
        1 + first_line_len(s.drop_first())
    }
}

/// The lines of `s`: maximal runs of characters between line breaks.
pub open spec fn split_lines(s: Seq<char>) -> Seq<Seq<char>>
    decreases s.len(),
{
    if s.len() == 0 {
        Seq::empty()
    } else {
        let k = first_line_len(s) as int;
        if k >= s.len() {
            seq![s]
        } else {
            seq![s.subrange(0, k)] + split_lines(s.subrange(k + 1, s.len() as int))
        }
    }
}

/// The lines long enough to describe a row of the grid: nine characters or
/// more.  Shorter lines are skipped and do not count as rows.
pub open spec fn qualifying_lines(lines: Seq<Seq<char>>) -> Seq<Seq<char>>
    decreases lines.len(),
{
    if lines.len() == 0 {
        Seq::empty()
    } else if lines[0].len() >= 9 {
        seq![lines[0]] + qualifying_lines(lines.drop_first())
    } else {
        qualifying_lines(lines.drop_first())
    }
}

/// The given digit of the input text `s` at grid index `p`: the digit in the
/// matching row line, or 0 where the line is missing or holds no digit.
pub open spec fn given_at(s: Seq<char>, p: int) -> int {
    let rows = qualifying_lines(split_lines(s));
    let r = p / 9;
    let c = p % 9;
    if r < rows.len() {
        digit_of(rows[r][c])
    } else {
        0
    }
}

/// The first line of `s` runs up to its first line break.
proof fn lemma_first_line_facts(s: Seq<char>)
    ensures
        first_line_len(s) <= s.len(),
        forall|i: int| 0 <= i < first_line_len(s) ==> s[i] != '\n',
        first_line_len(s) < s.len() ==> s[first_line_len(s) as int] == '\n',
    decreases s.len(),
{
    if s.len() > 0 && s[0] != '\n' {
        lemma_first_line_facts(s.drop_first());
        let k = first_line_len(s);
        assert forall|i: int| 0 <= i < k implies s[i] != '\n' by {
            if i > 0 {
                assert(s.drop_first()[i - 1] != '\n');
            }
        }
    }
}

/// A break-free run followed by a break (or the string's end) determines the
/// first line's length.
proof fn lemma_first_line_determined(s: Seq<char>, k: int)
    requires
        0 <= k <= s.len(),
        forall|i: int| 0 <= i < k ==> s[i] != '\n',
        k < s.len() ==> s[k] == '\n',
    ensures
        first_line_len(s) == k,
    decreases s.len(),
{
    if s.len() > 0 && k > 0 {
        let t = s.drop_first();
        assert forall|i: int| 0 <= i < k - 1 implies t[i] != '\n' by {
            assert(s[i + 1] != '\n');
        }
        lemma_first_line_determined(t, k - 1);
    }
}

/// Parse a multi-line puzzle text into the 81 given values, row-major: the
/// digits 1-9 stand for themselves, any other character is a blank (0).
/// Lines shorter than nine characters are skipped entirely; missing rows are
/// blank; rows beyond the ninth qualifying line are ignored.
pub fn parse_initial_sudoku_values(values: &str) -> (r: [usize; 81])
    ensures
        forall|p: int| 0 <= p < 81 ==> (#[trigger] r@[p]) == given_at(values@, p),
        forall|p: int| 0 <= p < 81 ==> (#[trigger] r@[p]) <= 9,
{
    let mut result = [0usize; 81];
    let n = values.unicode_len();
    let mut i: usize = 0;
    let mut row: usize = 0;
    let ghost s = values@;
    let ghost mut qd: Seq<Seq<char>> = Seq::empty();
    proof {
        assert(qualifying_lines(split_lines(s.subrange(0, n as int))) == qualifying_lines(
            split_lines(s),
        )) by {
            assert(s.subrange(0, n as int) =~= s);
        }
    }
    while i < n
        invariant
            n == s.len(),
            s == values@,
            i <= n,
            row <= 9,
            row == if qd.len() < 9 {
                qd.len() as usize
            } else {
                9
            },
            qualifying_lines(split_lines(s)) =~= qd + qualifying_lines(
                split_lines(s.subrange(i as int, n as int)),
            ),
            forall|p: int|
                0 <= p < 81 && p / 9 < row ==> (#[trigger] result@[p]) == digit_of(
                    qd[p / 9][p % 9],
                ),
            forall|p: int| 0 <= p < 81 && p / 9 >= row ==> (#[trigger] result@[p]) == 0,
            forall|p: int| 0 <= p < 81 ==> (#[trigger] result@[p]) <= 9,
        decreases n - i,
    {
        let ghost suffix = s.subrange(i as int, n as int);
        let mut j = i;
        while j < n && values.get_char(j) != '\n'
            invariant
                n == s.len(),
                s == values@,
                i <= j <= n,
                forall|x: int| i <= x < j ==> s[x] != '\n',
            decreases n - j,
        {
            j = j + 1;
        }
        proof {
            assert forall|x: int| 0 <= x < j - i implies suffix[x] != '\n' by {
                assert(s[i + x] != '\n');
            }
            lemma_first_line_determined(suffix, j - i);
        }
        let ghost line = suffix.subrange(0, j - i);
        let ghost rest = if j < n {
            s.subrange(j + 1, n as int)
        } else {
            Seq::<char>::empty()
        };
        proof {
            if j < n {
                assert(suffix.subrange(j - i + 1, suffix.len() as int) =~= rest);
                assert(split_lines(suffix) == seq![line] + split_lines(rest));
            } else {
                assert(suffix =~= line);
                assert(split_lines(suffix) == seq![line]);
                assert(split_lines(rest) =~= Seq::<Seq<char>>::empty());
                assert(seq![line] =~= seq![line] + split_lines(rest));
            }
            let cons = seq![line] + split_lines(rest);
            assert(cons.drop_first() =~= split_lines(rest));
            assert(cons[0] == line);
            if line.len() >= 9 {
                assert(qualifying_lines(cons) == seq![line] + qualifying_lines(
                    split_lines(rest),
                ));
            } else {
                assert(qualifying_lines(cons) == qualifying_lines(split_lines(rest)));
            }
        }
        if j - i >= 9 {
            if row < 9 {
                for col in 1..10usize
                    invariant
                        n == s.len(),
                        s == values@,
                        i + 9 <= j <= n,
                        row < 9,
                        row == qd.len(),
                        line == s.subrange(i as int, n as int).subrange(0, j - i),
                        line.len() == j - i,
                        forall|p: int|
                            0 <= p < 81 && p / 9 < row ==> (#[trigger] result@[p]) == digit_of(
                                qd[p / 9][p % 9],
                            ),
                        forall|p: int|
                            0 <= p < 81 && p / 9 == row && p % 9 < col - 1 ==> (
                            #[trigger] result@[p]) == digit_of(line[p % 9]),
                        forall|p: int|
                            0 <= p < 81 && p / 9 == row && p % 9 >= col - 1 ==> (
                            #[trigger] result@[p]) == 0,
                        forall|p: int| 0 <= p < 81 && p / 9 > row ==> (#[trigger] result@[p]) == 0,
                        forall|p: int| 0 <= p < 81 ==> (#[trigger] result@[p]) <= 9,
                {
                    let kar = values.get_char(i + col - 1);
                    proof {
                        assert(line[col - 1] == s[i + col - 1]);
                    }
                    let code = kar as u32;
                    let pos = row * 9 + (col - 1);
                    proof {
                        vstd::arithmetic::div_mod::lemma_fundamental_div_mod_converse(
                            pos as int,
                            9,
                            row as int,
                            col - 1,
                        );
                    }
                    if code >= 49 && code <= 57 {
                        result[pos] = (code - 48) as usize;
                    } else {
                        result[pos] = 0;
                    }
                    proof {
                        assert(pos as int / 9 == row as int);
                        assert(result@[pos as int] == digit_of(line[col - 1]));
                        assert forall|p: int| 0 <= p < 81 && p / 9 < row implies (
                        #[trigger] result@[p]) == digit_of(qd[p / 9][p % 9]) by {
                            assert(p != pos as int);
                        }
                    }
                }
                proof {
                    let qd0 = qd;
                    qd = qd.push(line);
                    assert forall|p: int| 0 <= p < 81 && p / 9 < row + 1 implies (
                    #[trigger] result@[p]) == digit_of(qd[p / 9][p % 9]) by {
                        vstd::arithmetic::div_mod::lemma_fundamental_div_mod(p, 9);
                        vstd::arithmetic::div_mod::lemma_mod_pos_bound(p, 9);
                        if p / 9 < row {
                            assert(qd[p / 9] == qd0[p / 9]);
                        } else {
                            assert(p / 9 == row);
                            assert(qd[p / 9] == line);
                        }
                    }
                }
                row = row + 1;
            } else {
                proof {
                    let qd0 = qd;
                    qd = qd.push(line);
                    assert forall|p: int| 0 <= p < 81 && p / 9 < row implies (
                    #[trigger] result@[p]) == digit_of(qd[p / 9][p % 9]) by {
                        vstd::arithmetic::div_mod::lemma_fundamental_div_mod(p, 9);
                        vstd::arithmetic::div_mod::lemma_mod_pos_bound(p, 9);
                        assert(qd.len() >= 9);
                        assert(qd[p / 9] == qd0[p / 9]);
                    }
                }
            }
        }
        proof {
            assert(qualifying_lines(split_lines(s)) =~= qd + qualifying_lines(
                split_lines(rest),
            ));
            if j < n {
                assert(s.subrange(j + 1 as int, n as int) =~= rest);
            } else {
                assert(s.subrange(n as int, n as int) =~= rest);
            }
        }
        if j < n {
            i = j + 1;
        } else {
            i = n;
        }
    }
    proof {
        assert(s.subrange(n as int, n as int) =~= Seq::<char>::empty());
        assert(qualifying_lines(split_lines(s)) =~= qd);
        assert forall|p: int| 0 <= p < 81 implies (#[trigger] result@[p]) == given_at(
            s,
            p,
        ) by {
            vstd::arithmetic::div_mod::lemma_fundamental_div_mod(p, 9);
            vstd::arithmetic::div_mod::lemma_mod_pos_bound(p, 9);
            let r = p / 9;
            assert(0 <= r <= 8);
            if r < row {
                assert(result@[p] == digit_of(qd[r][p % 9]));
            } else {
                assert(result@[p] == 0);
                assert(r >= qd.len() || qd.len() >= 9);
                if r < qd.len() {
                    assert(row == 9);
                    assert(false);
                }
            }
        }
    }
    result
}

/// Character shown for a digit: `'1'` to `'9'`, or `'.'` for anything else.
pub open spec fn digit_char_of(v: int) -> char {
    if v == 1 {
        '1'
    } else if v == 2 {
        '2'
    } else if v == 3 {
        '3'
    } else if v == 4 {
        '4'
    } else if v == 5 {
        '5'
    } else if v == 6 {
        '6'
    } else if v == 7 {
        '7'
    } else if v == 8 {
        '8'
    } else if v == 9 {
        '9'
    } else {
        '.'
    }
}

/// Character shown for a square: its digit if known, else `'.'`.
pub open spec fn square_char_of(s: SquareValue) -> char {
    if s.count() == 1 {
        digit_char_of(s.value_spec())
    } else {
        '.'
    }
}

impl Board {
    /// Character `i` of the board's text: a leading line break, then nine
    /// rows of nine square characters, each row closed by a line break.
    pub open spec fn render_char(self, i: int) -> char {
        if i == 0 {
            '\n'
        } else {
            let j = i - 1;
            let r = j / 10;
            let c = j % 10;
            if c == 9 {
                '\n'
            } else {
                square_char_of(self.square(r * 9 + c))
            }
        }
    }

    /// The board's textual form: 91 characters, same shape as the input
    /// format.
    pub open spec fn render(self) -> Seq<char> {
        Seq::new(91, |i: int| self.render_char(i))
    }

    /// A board freshly loaded from an input text: every square carries its
    /// position, nothing is propagated, and each square's candidates are
    /// exactly the given digit, or all nine digits where the input is blank.
    pub open spec fn loaded_from(self, given: Seq<char>) -> bool {
        &&& self.wf()
        &&& self.depth == 0
        &&& forall|p: int| 0 <= p < 81 ==> !(#[trigger] self.square(p)).propagated
        &&& forall|p: int, v: int|
            0 <= p < 81 && 1 <= v <= 9 ==> ((#[trigger] self.square(p).allows(v)) <==> (given_at(
                given,
                p,
            ) == 0 || v == given_at(given, p)))
    }

    /// Build a board from a name and the input text: all squares start fully
    /// open, then each given digit of the text pins its square.
    pub fn new(game_name: &str, initial: &str) -> (board: Board)
        ensures
            board.wf(),
            board.propagation_complete(),
            board.name@ == game_name@,
            board.depth == 0,
            board.loaded_from(initial@),
    {
        let mut result = Board {
            name: game_name.to_owned(),
            values: [SquareValue::new();81],
            depth: 0,
        };
        for p in 0..81usize
            invariant
                result.name@ == game_name@,
                result.depth == 0,
                forall|q: int|
                    0 <= q < p ==> (#[trigger] result.square(q)).row == row_of(q)
                        && result.square(q).col == col_of(q),
                forall|q: int| 0 <= q < 81 ==> !(#[trigger] result.square(q)).propagated,
                forall|q: int, v: int|
                    0 <= q < 81 && 1 <= v <= 9 ==> (#[trigger] result.square(q).allows(v)),
        {
            proof {
                lemma_position_decompose(p as int);
            }
            let ghost prev = result;
            let row = p / 9 + 1;
            let col = p % 9 + 1;
            let mut s = result.values[p];
            s.at(row, col);
            result.values[p] = s;
            proof {
                assert forall|q: int| 0 <= q < 81 && q != p implies (#[trigger] result.square(q))
                    == prev.square(q) by {}
                assert(result.square(p as int).row == row_of(p as int));
                assert(!prev.square(p as int).propagated);
                assert(!result.square(p as int).propagated);
                assert forall|q: int| 0 <= q < 81 implies !(#[trigger] result.square(
                    q,
                )).propagated by {
                    if q != p {
                        assert(result.square(q) == prev.square(q));
                        assert(!prev.square(q).propagated);
                    }
                }
                assert forall|q: int, v: int| 0 <= q < 81 && 1 <= v <= 9 implies (
                #[trigger] result.square(q).allows(v)) by {
                    assert(prev.square(q).allows(v));
                }
            }
        }
        let parsed = parse_initial_sudoku_values(initial);
        for p in 0..81usize
            invariant
                result.name@ == game_name@,
                result.depth == 0,
                forall|q: int| 0 <= q < 81 ==> (#[trigger] parsed@[q]) == given_at(initial@, q),
                forall|q: int| 0 <= q < 81 ==> (#[trigger] parsed@[q]) <= 9,
                forall|q: int|
                    0 <= q < 81 ==> (#[trigger] result.square(q)).row == row_of(q)
                        && result.square(q).col == col_of(q),
                forall|q: int| 0 <= q < 81 ==> !(#[trigger] result.square(q)).propagated,
                forall|q: int, v: int|
                    0 <= q < p && 1 <= v <= 9 ==> ((#[trigger] result.square(q).allows(v)) <==> (
                    parsed@[q] == 0 || v == parsed@[q])),
                forall|q: int, v: int|
                    p <= q < 81 && 1 <= v <= 9 ==> (#[trigger] result.square(q).allows(v)),
        {
            let given = parsed[p];
            let ghost prev = result;
            if given != 0 {
                let mut s = result.values[p];
                s.set_known_value(given);
                result.values[p] = s;
            }
            proof {
                assert forall|q: int| 0 <= q < 81 && q != p implies (#[trigger] result.square(q))
                    == prev.square(q) by {}
                assert(result.square(p as int).row == prev.square(p as int).row);
                assert(result.square(p as int).col == prev.square(p as int).col);
                assert(result.square(p as int).propagated == prev.square(p as int).propagated);
                assert forall|q: int| 0 <= q < 81 implies !(#[trigger] result.square(
                    q,
                )).propagated by {
                    if q != p {
                        assert(result.square(q) == prev.square(q));
                    }
                    assert(!prev.square(q).propagated);
                }
                assert forall|q: int|
                    0 <= q < 81 implies (#[trigger] result.square(q)).row == row_of(q)
                    && result.square(q).col == col_of(q) by {
                    if q != p {
                        assert(result.square(q) == prev.square(q));
                    }
                    assert(prev.square(q).row == row_of(q) && prev.square(q).col == col_of(q));
                }
                assert forall|q: int, v: int|
                    0 <= q < p + 1 && 1 <= v <= 9 implies ((#[trigger] result.square(q).allows(v))
                    <==> (parsed@[q] == 0 || v == parsed@[q])) by {
                    if q != p {
                        assert(result.square(q) == prev.square(q));
                    }
                }
            }
        }
        proof {
            assert(result.propagation_complete());
        }
        result
    }

    /// The board as text: known squares print their digit, open squares a
    /// dot; one line per row, as in the input format, after a leading line
    /// break.
    pub fn to_text(&self) -> (text: String)
        ensures
            text@ == self.render(),
    {
        proof {
            reveal_strlit("\n");
            reveal_strlit(".");
            reveal_strlit("1");
            reveal_strlit("2");
            reveal_strlit("3");
            reveal_strlit("4");
            reveal_strlit("5");
            reveal_strlit("6");
            reveal_strlit("7");
            reveal_strlit("8");
            reveal_strlit("9");
        }
        let mut text = String::new();
        text.append("\n");
        for row in 1..10usize
            invariant
                text@.len() == 1 + (row - 1) * 10,
                forall|i: int| 0 <= i < text@.len() ==> text@[i] == self.render_char(i),
        {
            for col in 1..10usize
                invariant
                    1 <= row <= 9,
                    text@.len() == 1 + (row - 1) * 10 + (col - 1),
                    forall|i: int| 0 <= i < text@.len() ==> text@[i] == self.render_char(i),
            {
                proof {
                    reveal_strlit("\n");
                    reveal_strlit(".");
                    reveal_strlit("1");
                    reveal_strlit("2");
                    reveal_strlit("3");
                    reveal_strlit("4");
                    reveal_strlit("5");
                    reveal_strlit("6");
                    reveal_strlit("7");
                    reveal_strlit("8");
                    reveal_strlit("9");
                    vstd::arithmetic::div_mod::lemma_fundamental_div_mod_converse(
                        (row - 1) * 10 + (col - 1),
                        10,
                        row - 1,
                        col - 1,
                    );
                }
                let pos = Board::position_of(row, col);
                let sq = self.values[pos];
                if !sq.has_known_value() {
                    text.append(".");
                } else {
                    proof {
                        lemma_known_value(sq);
                    }
                    let v = sq.value();
                    if v == 1 {
                        text.append("1");
                    } else if v == 2 {
                        text.append("2");
                    } else if v == 3 {
                        text.append("3");
                    } else if v == 4 {
                        text.append("4");
                    } else if v == 5 {
                        text.append("5");
                    } else if v == 6 {
                        text.append("6");
                    } else if v == 7 {
                        text.append("7");
                    } else if v == 8 {
                        text.append("8");
                    } else {
                        text.append("9");
                    }
                }
            }
            proof {
                reveal_strlit("\n");
                vstd::arithmetic::div_mod::lemma_fundamental_div_mod_converse(
                    (row - 1) * 10 + 9,
                    10,
                    row - 1,
                    9,
                );
            }
            text.append("\n");
        }
        proof {
            assert(text@ =~= self.render());
        }
        text
    }
}

impl Board {
    /// The square to guess on: an unresolved square with the fewest
    /// remaining candidates (the first such square in row-major order),
    /// minimizing the branching factor of the guess.
    pub fn find_cell_to_guess(&self) -> (r: Option<SquareValue>)
        requires
            self.wf(),
        ensures
            match r {
                Some(sq) => {
                    &&& 1 <= sq.row <= 9
                    &&& 1 <= sq.col <= 9
                    &&& self.square(spec_position(sq.row as int, sq.col as int)) == sq
                    &&& sq.count() != 1
                    &&& forall|p: int|
                        0 <= p < 81 && (#[trigger] self.square(p)).count() != 1 ==> sq.count()
                            <= self.square(p).count()
                    &&& forall|p: int|
                        0 <= p < spec_position(sq.row as int, sq.col as int) ==> (
                        #[trigger] self.square(p)).count() == 1 || self.square(p).count()
                            > sq.count()
                },
                None => self.all_known(),
            },
    {
        let mut best: Option<SquareValue> = None;
        let mut best_count: usize = 10;
        for p in 0..81usize
            invariant
                self.wf(),
                match best {
                    Some(b) => {
                        &&& 1 <= b.row <= 9
                        &&& 1 <= b.col <= 9
                        &&& self.square(spec_position(b.row as int, b.col as int)) == b
                        &&& b.count() != 1
                        &&& best_count == b.count()
                        &&& forall|q: int|
                            0 <= q < p && (#[trigger] self.square(q)).count() != 1 ==> b.count()
                                <= self.square(q).count()
                        &&& forall|q: int|
                            0 <= q < spec_position(b.row as int, b.col as int) ==> (
                            #[trigger] self.square(q)).count() == 1 || self.square(q).count()
                                > b.count()
                    },
                    None => best_count == 10 && (forall|q: int|
                        0 <= q < p ==> (#[trigger] self.square(q)).count() == 1),
                },
        {
            let sq = self.values[p];
            if !sq.has_known_value() {
                let c = sq.possibilities();
                proof {
                    lemma_count_bound(sq);
                }
                if c < best_count {
                    proof {
                        lemma_position_decompose(p as int);
                        assert(sq == self.square(p as int));
                        assert(sq.row == row_of(p as int) && sq.col == col_of(p as int));
                        assert(spec_position(sq.row as int, sq.col as int) == p as int);
                        assert(sq.count() == c && c != 1);
                    }
                    best = Some(sq);
                    best_count = c;
                    proof {
                        assert forall|q: int|
                            0 <= q < p + 1 && (#[trigger] self.square(q)).count()
                                != 1 implies sq.count() <= self.square(q).count() by {}
                    }
                }
            }
        }
        best
    }

    /// A copy of this board for one guess: the same squares with the square
    /// at `pos` pinned to the digit `v`, and one guess deeper.
    pub fn speculate(&self, pos: usize, v: usize) -> (child: Board)
        requires
            self.wf(),
            self.propagation_complete(),
            pos < 81,
            1 <= v <= 9,
            self.square(pos as int).allows(v as int),
            self.square(pos as int).count() != 1,
            self.depth < usize::MAX,
        ensures
            child.wf(),
            child.propagation_complete(),
            child.evolves_from(*self),
            child.depth == self.depth + 1,
            child.name@ == self.name@,
            child.total_count() < self.total_count(),
            forall|p: int|
                0 <= p < 81 && p != pos ==> (#[trigger] child.square(p)) == self.square(p),
            forall|u: int| child.square(pos as int).allows(u) <==> u == v,
    {
        let mut child = Board {
            name: self.name.clone(),
            values: self.values,
            depth: self.depth + 1,
        };
        let mut s = child.values[pos];
        proof {
            lemma_allows_counts(s, 1, v as int);
        }
        s.set_known_value(v);
        child.values[pos] = s;
        proof {
            assert forall|p: int| 0 <= p < 81 implies {
                let a = #[trigger] child.square(p);
                let b = self.square(p);
                a.row == b.row && a.col == b.col && a.propagated == b.propagated && a.narrows(b)
            } by {
                if p != pos {
                    assert(child.square(p) == self.square(p));
                    assert(child.square(p).narrows(self.square(p)));
                } else {
                    assert forall|u: int| child.square(p).allows(u) implies self.square(p).allows(
                        u,
                    ) by {
                        assert(u == v);
                    }
                }
            }
            lemma_narrowed_evolves(*self, child);
            lemma_narrow_preserves_completeness(*self, child);
            lemma_total_update(*self, child, pos as int, 0);
            assert(self.square(pos as int).count() >= 2);
        }
        child
    }

    /// Adopt the squares and guess depth of another board: the solution
    /// found by a successful experiment replaces this board's grid.
    fn assign(&mut self, other: &Board)
        ensures
            final(self).values == other.values,
            final(self).depth == other.depth,
            final(self).name == old(self).name,
    {
        self.values = other.values;
        self.depth = other.depth;
    }
}

impl Game {
    /// A game from a name and the textual starting grid.
    pub fn new(game_name: &str, initial: &str) -> (game: Game)
        ensures
            game.board.wf(),
            game.board.propagation_complete(),
            game.board.name@ == game_name@,
            game.board.depth == 0,
            game.board.loaded_from(initial@),
    {
        Game { board: Board::new(game_name, initial) }
    }

    /// Solve the game: run the deduction loop, and when it stalls without a
    /// contradiction, explore speculative boards breadth-first, always
    /// taking the pending experiment with the smallest ordering key next.
    /// The first experiment whose board deduces to a full grid is adopted as
    /// the answer; a board that runs into a contradiction is discarded, and
    /// a stalled one spawns its own experiments.  Returns `true` exactly
    /// when the final board is fully known, and then that board is a valid
    /// Sudoku grid into which the given digits of the input carry over
    /// unchanged.  The search is also complete: `false` means the input
    /// admitted no solution at all, provided the board's guess-depth
    /// counter starts far enough below its machine limit that no branch has
    /// to be abandoned.
    pub fn solve(&mut self) -> (solved: bool)
        requires
            old(self).board.wf(),
            old(self).board.propagation_complete(),
        ensures
            final(self).board.wf(),
            final(self).board.propagation_complete(),
            final(self).board.evolves_from(old(self).board),
            final(self).board.name == old(self).board.name,
            solved <==> final(self).board.all_known(),
            solved ==> final(self).board.valid_solution(),
            !solved ==> final(self).board.has_contradiction()
                || (final(self).board.no_pending_propagation()
                && final(self).board.singleton_free() && final(self).board.pair_free()),
            final(self).board.depth >= old(self).board.depth,
            !solved ==> final(self).board.depth == old(self).board.depth,
            !solved && old(self).board.depth <= usize::MAX - 729 ==> forall|c: Board|
                !solution_within(c, old(self).board),
    {
        if self.board.solve() {
            return true;
        }
        if self.board.contains_contradiction() {
            proof {
                let p = choose|p: int| 0 <= p < 81 && self.board.square(p).count() == 0;
                assert(self.board.square(p).count() != 1);
                assert forall|c: Board| !solution_within(c, old(self).board) by {
                    lemma_contradiction_refutes_solutions(self.board, c);
                    if solution_within(c, old(self).board) {
                        assert(solution_within(c, self.board));
                    }
                }
            }
            return false;
        }
        let ghost base = self.board;
        proof {
            lemma_total_from_at_least(base, 0);
            lemma_total_from_bound(base, 0);
        }
        let mut queue: Vec<Experimental> = Vec::new();
        generate_experiments(&self.board, &mut queue);
        proof {
            assert forall|i: int| 0 <= i < queue@.len() implies (#[trigger] queue@[i]).wf()
                && queue@[i].board.evolves_from(base) && queue@[i].board.depth > base.depth
                && queue@[i].board.depth + queue@[i].board.total_count() <= base.depth
                + base.total_count() by {
                assert(!Seq::<Experimental>::empty().contains(queue@[i]));
            }
        }
        loop
            invariant
                self.board == base,
                base.wf(),
                base.propagation_complete(),
                !base.all_known(),
                base.no_pending_propagation(),
                base.singleton_free(),
                base.pair_free(),
                base.evolves_from(old(self).board),
                base.name == old(self).board.name,
                base.depth == old(self).board.depth,
                base.total_count() <= 729,
                forall|c: Board|
                    #[trigger] solution_within(c, old(self).board) ==> solution_within(c, base),
                sorted_descending(queue@),
                forall|i: int|
                    0 <= i < queue@.len() ==> (#[trigger] queue@[i]).wf()
                        && queue@[i].board.evolves_from(base) && queue@[i].board.depth > base.depth
                        && queue@[i].board.depth + queue@[i].board.total_count() <= base.depth
                        + base.total_count(),
                old(self).board.depth <= usize::MAX - 729 ==> forall|c: Board|
                    #[trigger] solution_within(c, base) ==> exists|i: int|
                        0 <= i < queue@.len() && solution_within(c, queue@[i].board),
            decreases queue_measure(queue@),
        {
            let ghost q_at_entry = queue@;
            let popped = pop_experiment(&mut queue);
            match popped {
                None => {
                    proof {
                        if old(self).board.depth <= usize::MAX - 729 {
                            assert forall|c: Board| !solution_within(c, old(self).board) by {
                                if solution_within(c, old(self).board) {
                                    assert(solution_within(c, base));
                                }
                            }
                        }
                    }
                    return false;
                },
                Some(mut e) => {
                    let ghost e_at_pop = e;
                    let ghost t0 = e.board.total_count();
                    let ghost e_board0 = e.board;
                    proof {
                        lemma_queue_measure_drop_last(q_at_entry);
                        lemma_pow10_pos(t0);
                    }
                    if e.board.solve() {
                        self.board.assign(&e.board);
                        proof {
                            lemma_evolves_transitive(base, e_board0, e.board);
                            lemma_evolves_transitive(old(self).board, base, e.board);
                            assert(self.board.values == e.board.values);
                            assert forall|p: int| 0 <= p < 81 implies (#[trigger] self.board.square(
                                p,
                            )) == e.board.square(p) by {}
                            assert forall|p: int| 0 <= p < 81 implies (#[trigger] self.board.square(
                                p,
                            )).evolves_from(old(self).board.square(p)) by {
                                assert(e.board.square(p).evolves_from(old(self).board.square(p)));
                            }
                            assert(self.board.wf());
                            assert(self.board.propagation_complete());
                            assert(self.board.all_known());
                            assert(self.board.valid_solution());
                        }
                        return true;
                    }
                    if !e.board.contains_contradiction() {
                        proof {
                            lemma_total_from_at_least(e.board, 0);
                        }
                        let ghost q_before = queue@;
                        generate_experiments(&e.board, &mut queue);
                        proof {
                            lemma_evolves_transitive(base, e_board0, e.board);
                            assert(e.board.total_count() <= t0);
                            assert(e.board.depth == e_board0.depth);
                            assert(e_board0.depth + t0 <= base.depth + base.total_count());
                            assert forall|i: int| 0 <= i < queue@.len() implies (
                            #[trigger] queue@[i]).wf() && queue@[i].board.evolves_from(base)
                                && queue@[i].board.depth > base.depth && queue@[i].board.depth
                                + queue@[i].board.total_count() <= base.depth
                                + base.total_count() by {
                                if q_before.contains(queue@[i]) {
                                    let j = choose|j: int|
                                        0 <= j < q_before.len() && q_before[j] == queue@[i];
                                    assert(q_before[j].wf());
                                    assert(q_before[j] == q_at_entry[j]);
                                    assert(q_before[j].board.depth > base.depth);
                                } else {
                                    lemma_evolves_transitive(base, e.board, queue@[i].board);
                                    assert(queue@[i].board.depth == e.board.depth + 1);
                                    assert(queue@[i].board.total_count() < e.board.total_count());
                                }
                            }
                            lemma_pow10_monotone(
                                (e.board.total_count() - 1) as nat,
                                (t0 - 1) as nat,
                            );
                            assert(queue_measure(queue@) <= queue_measure(q_before) + 9 * pow10(
                                (t0 - 1) as nat,
                            ));
                            assert(pow10(t0) == 10 * pow10((t0 - 1) as nat));
                            assert(queue_measure(queue@) < queue_measure(q_at_entry));
                            if old(self).board.depth <= usize::MAX - 729 {
                                assert(t0 >= 81);
                                assert(e.board.depth < usize::MAX);
                                lemma_cover_after_generate(
                                    base,
                                    q_at_entry,
                                    q_before,
                                    queue@,
                                    e_board0,
                                    e.board,
                                );
                            }
                        }
                    } else {
                        proof {
                            if old(self).board.depth <= usize::MAX - 729 {
                                lemma_cover_after_discard(
                                    base,
                                    q_at_entry,
                                    queue@,
                                    e_board0,
                                    e.board,
                                );
                            }
                        }
                    }
                },
            }
        }
    }

    /// Every square of the board has settled on a single value.
    pub fn solved(&self) -> (b: bool)
        ensures
            b == self.board.all_known(),
    {
        self.board.solved()
    }

    /// The game's name.
    pub fn name(&self) -> (n: String)
        ensures
            n@ == self.board.name@,
    {
        self.board.name.clone()
    }

    /// Sum of the candidate counts over the board: 81 means solved.
    pub fn possibilities(&self) -> (n: usize)
        ensures
            n == self.board.total_count(),
    {
        self.board.possibilities()
    }

    /// Number of guesses taken to reach the current board: 0 when deduction
    /// alone solved the game.
    pub fn depth(&self) -> (d: usize)
        ensures
            d == self.board.depth,
    {
        self.board.depth
    }

    /// The board as text, one line per row as in the input format.
    pub fn to_text(&self) -> (t: String)
        ensures
            t@ == self.board.render(),
    {
        self.board.to_text()
    }
}

} // verus!
