//! A square of the grid and its set of candidate digits.
//!
//! A square starts with all nine digits possible and is only ever narrowed:
//! candidates are removed one by one, or the square is pinned to a single
//! digit.  A square with exactly one candidate is "known"; one with no
//! candidates at all is a contradiction.  The `propagated` marker records
//! that a known square's digit has been pushed out to its row, column and
//! subgrid peers.

use vstd::prelude::*;

verus! {

/// One square of the grid: a flag per digit 1..=9 saying whether that digit
/// is still possible here, the square's 1-based grid position, and the
/// one-shot propagation marker.
#[derive(Copy, Clone)]
pub struct SquareValue {
    pub possible_values: [bool; 9],
    pub row: usize,
    pub col: usize,
    pub propagated: bool,
}

impl SquareValue {
    /// Digit `v` is still a candidate for this square.
    pub open spec fn allows(self, v: int) -> bool {
        1 <= v <= 9 && self.possible_values@[v - 1]
    }

    /// Number of candidates among the digits `v..=9`.
    pub open spec fn count_from(self, v: int) -> nat
        decreases 10 - v,
    {
        if v < 1 || 9 < v {
            0
        } else {
            (if self.allows(v) {
                1nat
            } else {
                0nat
            }) + self.count_from(v + 1)
        }
    }

    /// Number of candidates of this square.
    pub open spec fn count(self) -> nat {
        self.count_from(1)
    }

    /// Exactly one candidate is left.
    pub open spec fn is_known(self) -> bool {
        self.count() == 1
    }

    /// Lowest candidate among the digits `v..=9`, or 0 if there is none.
    pub open spec fn value_from(self, v: int) -> int
        decreases 10 - v,
    {
        if v < 1 || 9 < v {
            0
        } else if self.allows(v) {
            v
        } else {
            self.value_from(v + 1)
        }
    }

    /// Lowest candidate of this square, or 0 if there is none.
    pub open spec fn value_spec(self) -> int {
        self.value_from(1)
    }

    /// The candidates of `self` are a subset of those of `other`.
    pub open spec fn narrows(self, other: SquareValue) -> bool {
        forall|v: int| self.allows(v) ==> other.allows(v)
    }

    /// `self` is a legal successor of `prev` inside one board's lifetime:
    /// the position is unchanged, the candidate set has only shrunk, and the
    /// propagation marker is never cleared.
    pub open spec fn evolves_from(self, prev: SquareValue) -> bool {
        &&& self.row == prev.row
        &&& self.col == prev.col
        &&& self.narrows(prev)
        &&& prev.propagated ==> self.propagated
    }
}

/// Counting candidates from `v` on never exceeds the number of digits left.
pub proof fn lemma_count_from_bound(s: SquareValue, v: int)
    requires
        1 <= v <= 10,
    ensures
        s.count_from(v) <= 10 - v,
    decreases 10 - v,
{
    if v < 10 {
        lemma_count_from_bound(s, v + 1);
    }
}

/// A square has at most nine candidates.
pub proof fn lemma_count_bound(s: SquareValue)
    ensures
        s.count() <= 9,
{
    lemma_count_from_bound(s, 1);
}

/// An allowed digit `u >= v` contributes to `count_from(v)`.
pub proof fn lemma_allows_counts(s: SquareValue, v: int, u: int)
    requires
        1 <= v <= u <= 9,
        s.allows(u),
    ensures
        s.count_from(v) >= 1,
    decreases u - v,
{
    if v < u {
        lemma_allows_counts(s, v + 1, u);
    }
}

/// If no digit `>= v` is allowed, the count from `v` is zero.
pub proof fn lemma_none_counts(s: SquareValue, v: int)
    requires
        forall|u: int| v <= u <= 9 ==> !s.allows(u),
    ensures
        s.count_from(v) == 0,
    decreases 10 - v,
{
    if v <= 9 {
        lemma_none_counts(s, v + 1);
    }
}

/// A square whose candidates are exactly `{v}` has count 1 and value `v`.
pub proof fn lemma_singleton_count(s: SquareValue, v: int)
    requires
        1 <= v <= 9,
        forall|u: int| s.allows(u) <==> u == v,
    ensures
        s.count() == 1,
        s.value_spec() == v,
{
    lemma_singleton_count_from(s, v, 1);
}

proof fn lemma_singleton_count_from(s: SquareValue, v: int, w: int)
    requires
        1 <= w <= v <= 9,
        forall|u: int| s.allows(u) <==> u == v,
    ensures
        s.count_from(w) == 1,
        s.value_from(w) == v,
    decreases v - w,
{
    if w < v {
        lemma_singleton_count_from(s, v, w + 1);
    } else {
        lemma_none_counts(s, v + 1);
    }
}

/// A square with exactly one candidate allows its `value_spec()` and no
/// other digit.
pub proof fn lemma_known_value(s: SquareValue)
    requires
        s.count() == 1,
    ensures
        1 <= s.value_spec() <= 9,
        s.allows(s.value_spec()),
        forall|u: int| s.allows(u) ==> u == s.value_spec(),
{
    lemma_known_value_from(s, 1);
}

proof fn lemma_known_value_from(s: SquareValue, v: int)
    requires
        1 <= v <= 9,
        s.count_from(v) == 1,
    ensures
        v <= s.value_from(v) <= 9,
        s.allows(s.value_from(v)),
        forall|u: int| v <= u <= 9 && s.allows(u) ==> u == s.value_from(v),
    decreases 10 - v,
{
    if s.allows(v) {
        lemma_count_zero_disallows(s, v + 1);
    } else {
        assert(s.count_from(v + 1) == 1);
        if v == 9 {
            assert(s.count_from(10) == 0);
        }
        lemma_known_value_from(s, v + 1);
    }
}

proof fn lemma_count_zero_disallows(s: SquareValue, v: int)
    requires
        1 <= v <= 10,
        s.count_from(v) == 0,
    ensures
        forall|u: int| v <= u <= 9 ==> !s.allows(u),
    decreases 10 - v,
{
    if v <= 9 {
        lemma_count_zero_disallows(s, v + 1);
    }
}

/// Squares that agree on the candidates from `v` on count them alike.
pub proof fn lemma_count_agree_from(a: SquareValue, b: SquareValue, v: int)
    requires
        forall|u: int| v <= u <= 9 ==> (b.allows(u) <==> a.allows(u)),
    ensures
        b.count_from(v) == a.count_from(v),
    decreases 10 - v,
{
    if v <= 9 {
        lemma_count_agree_from(a, b, v + 1);
    }
}

/// Removing one allowed digit lowers the candidate count by exactly one.
pub proof fn lemma_count_remove(a: SquareValue, b: SquareValue, v: int)
    requires
        1 <= v <= 9,
        a.allows(v),
        forall|u: int| b.allows(u) <==> a.allows(u) && u != v,
    ensures
        b.count() + 1 == a.count(),
{
    lemma_count_remove_from(a, b, v, 1);
}

proof fn lemma_count_remove_from(a: SquareValue, b: SquareValue, v: int, w: int)
    requires
        1 <= w <= v <= 9,
        a.allows(v),
        forall|u: int| b.allows(u) <==> a.allows(u) && u != v,
    ensures
        b.count_from(w) + 1 == a.count_from(w),
    decreases v - w,
{
    if w < v {
        lemma_count_remove_from(a, b, v, w + 1);
    } else {
        lemma_count_agree_from(a, b, v + 1);
    }
}

proof fn lemma_pair_counts(s: SquareValue, w: int, a: int, b: int)
    requires
        1 <= w <= a < b <= 9,
        s.allows(a),
        s.allows(b),
    ensures
        s.count_from(w) >= 2,
    decreases a - w,
{
    if w < a {
        lemma_pair_counts(s, w + 1, a, b);
    } else {
        lemma_allows_counts(s, a + 1, b);
    }
}

proof fn lemma_triple_counts(s: SquareValue, w: int, a: int, b: int, c: int)
    requires
        1 <= w <= a < b < c <= 9,
        s.allows(a),
        s.allows(b),
        s.allows(c),
    ensures
        s.count_from(w) >= 3,
    decreases a - w,
{
    if w < a {
        lemma_triple_counts(s, w + 1, a, b, c);
    } else {
        lemma_pair_counts(s, a + 1, b, c);
    }
}

/// A square with exactly two candidates that allows two distinct digits
/// allows nothing besides them.
pub proof fn lemma_two_candidates(s: SquareValue, v1: int, v2: int)
    requires
        s.count() == 2,
        s.allows(v1),
        s.allows(v2),
        v1 != v2,
    ensures
        forall|u: int| s.allows(u) ==> u == v1 || u == v2,
{
    assert forall|u: int| s.allows(u) implies u == v1 || u == v2 by {
        if u != v1 && u != v2 {
            let (a, b) = if v1 < v2 {
                (v1, v2)
            } else {
                (v2, v1)
            };
            if u < a {
                lemma_triple_counts(s, 1, u, a, b);
            } else if u < b {
                lemma_triple_counts(s, 1, a, u, b);
            } else {
                lemma_triple_counts(s, 1, a, b, u);
            }
        }
    }
}

/// Narrowing a square can only lower its candidate count.
pub proof fn lemma_narrows_count(a: SquareValue, b: SquareValue)
    requires
        a.narrows(b),
    ensures
        a.count() <= b.count(),
{
    lemma_narrows_count_from(a, b, 1);
}

proof fn lemma_narrows_count_from(a: SquareValue, b: SquareValue, v: int)
    requires
        a.narrows(b),
    ensures
        a.count_from(v) <= b.count_from(v),
    decreases 10 - v,
{
    if 1 <= v <= 9 {
        lemma_narrows_count_from(a, b, v + 1);
    }
}

/// Narrowing a known square onto a known square keeps its value.
pub proof fn lemma_narrows_known_value(a: SquareValue, b: SquareValue)
    requires
        a.narrows(b),
        a.count() == 1,
        b.count() == 1,
    ensures
        a.value_spec() == b.value_spec(),
{
    lemma_known_value(a);
    lemma_known_value(b);
    assert(b.allows(a.value_spec()));
}

impl SquareValue {
    /// A fresh square: every digit is possible, nothing has been propagated,
    /// the position is still unset.
    pub fn new() -> (s: SquareValue)
        ensures
            forall|v: int| 1 <= v <= 9 ==> s.allows(v),
            s.count() == 9,
            s.row == 0,
            s.col == 0,
            !s.propagated,
    {
        let s = SquareValue { possible_values: [true; 9], row: 0, col: 0, propagated: false };
        proof {
            assert(s.count() == 9) by {
                reveal_with_fuel(SquareValue::count_from, 11);
            }
        }
        s
    }

    /// Fix the square's grid position.
    pub fn at(&mut self, row: usize, col: usize)
        ensures
            final(self).row == row,
            final(self).col == col,
            final(self).possible_values@ == old(self).possible_values@,
            final(self).propagated == old(self).propagated,
    {
        self.row = row;
        self.col = col;
    }

    /// Count how many digits are still possible: 0 is a contradiction, 1 a
    /// known value, 9 a fully open square.
    pub fn possibilities(&self) -> (n: usize)
        ensures
            n == self.count(),
    {
        proof {
            lemma_count_from_bound(*self, 1);
        }
        let mut n: usize = 0;
        for v in 1..10usize
            invariant
                n + self.count_from(v as int) == self.count(),
                self.count() <= 9,
                n <= 9,
        {
            proof {
                lemma_count_from_bound(*self, v + 1);
            }
            if self.possible_values[v - 1] {
                n = n + 1;
            }
        }
        n
    }

    /// Exactly one of the nine possibilities is left.
    pub fn has_known_value(&self) -> (b: bool)
        ensures
            b == self.is_known(),
    {
        self.possibilities() == 1
    }

    /// No possibility is left: this branch of the puzzle is unsatisfiable.
    pub fn is_contradiction(&self) -> (b: bool)
        ensures
            b == (self.count() == 0),
    {
        self.possibilities() == 0
    }

    /// Keep only the digit `value` as a candidate.  Used for the given
    /// digits of the input, for promoted singletons and for guesses.
    pub fn set_known_value(&mut self, value: usize)
        requires
            1 <= value <= 9,
        ensures
            forall|u: int| final(self).allows(u) <==> u == value,
            final(self).count() == 1,
            final(self).value_spec() == value,
            final(self).row == old(self).row,
            final(self).col == old(self).col,
            final(self).propagated == old(self).propagated,
    {
        self.possible_values = [false; 9];
        self.possible_values[value - 1] = true;
        proof {
            lemma_singleton_count(*self, value as int);
        }
    }

    /// The digit held in the square.  If several digits are still possible
    /// the lowest of them is returned; 0 if none is possible.
    pub fn value(&self) -> (v: usize)
        ensures
            v == self.value_spec(),
    {
        for u in 1..10usize
            invariant
                forall|w: int| 1 <= w < u ==> !self.allows(w),
        {
            if self.possible_values[u - 1] {
                proof {
                    lemma_value_first(*self, u as int, 1);
                }
                return u;
            }
        }
        proof {
            lemma_value_none(*self, 1);
        }
        0
    }

    /// Remove `value` from the candidates, because a peer square in the same
    /// row, column or subgrid already holds it.  Removing the last candidate
    /// is legal and leaves the square in the contradiction state.
    pub fn cant_have_value(&mut self, value: usize)
        requires
            1 <= value <= 9,
        ensures
            forall|u: int| final(self).allows(u) <==> old(self).allows(u) && u != value,
            final(self).row == old(self).row,
            final(self).col == old(self).col,
            final(self).propagated == old(self).propagated,
            final(self).narrows(*old(self)),
    {
        self.possible_values[value - 1] = false;
    }

    /// The square holds a known value that has not yet been pushed out to
    /// its peers.
    pub fn needs_to_be_propagated(&self) -> (b: bool)
        ensures
            b == (!self.propagated && self.is_known()),
    {
        !self.propagated && self.has_known_value()
    }

    /// Record that the square's value has been pushed out to its peers.
    pub fn has_been_propagated(&mut self)
        ensures
            final(self).propagated,
            final(self).possible_values@ == old(self).possible_values@,
            final(self).row == old(self).row,
            final(self).col == old(self).col,
    {
        self.propagated = true;
    }

    /// Membership test: is `value` still a candidate?
    pub fn is_possibly(&self, value: usize) -> (b: bool)
        requires
            1 <= value <= 9,
        ensures
            b == self.allows(value as int),
    {
        self.possible_values[value - 1]
    }

    /// Same membership test under the name the board code uses.
    pub fn can_have_value(&self, value: usize) -> (b: bool)
        requires
            1 <= value <= 9,
        ensures
            b == self.allows(value as int),
    {
        self.is_possibly(value)
    }

    /// 0-based row of the 3x3 subgrid this square lies in.
    pub fn row_grid(&self) -> (g: usize)
        requires
            1 <= self.row,
        ensures
            g == (self.row - 1) / 3,
    {
        (self.row - 1) / 3
    }

    /// 0-based column of the 3x3 subgrid this square lies in.
    pub fn col_grid(&self) -> (g: usize)
        requires
            1 <= self.col,
        ensures
            g == (self.col - 1) / 3,
    {
        (self.col - 1) / 3
    }
}

impl Default for SquareValue {
    /// Same as `SquareValue::new`: a fully open square at an unset position.
    fn default() -> (s: SquareValue)
        ensures
            forall|v: int| 1 <= v <= 9 ==> s.allows(v),
            s.count() == 9,
            s.row == 0,
            s.col == 0,
            !s.propagated,
    {
        SquareValue::new()
    }
}

proof fn lemma_value_first(s: SquareValue, u: int, w: int)
    requires
        1 <= w <= u <= 9,
        s.allows(u),
        forall|x: int| 1 <= x < u ==> !s.allows(x),
    ensures
        s.value_from(w) == u,
    decreases u - w,
{
    if w < u {
        lemma_value_first(s, u, w + 1);
    }
}

proof fn lemma_value_none(s: SquareValue, w: int)
    requires
        forall|x: int| 1 <= x <= 9 ==> !s.allows(x),
    ensures
        s.value_from(w) == 0,
    decreases 10 - w,
{
    if 1 <= w <= 9 {
        lemma_value_none(s, w + 1);
    }
}

} // verus!
