//! The experiment queue of the guess-and-backtrack search.
//!
//! When deduction stalls, the engine clones the board once per candidate
//! digit of a chosen square, pinning that digit, and explores the resulting
//! `Experimental`s breadth-first.  The queue is kept sorted with the largest
//! ordering key first; popping from the end therefore always yields the
//! experiment with the smallest key — the shallowest, least-branching,
//! earliest guess.  That fixed discipline is what makes the search
//! deterministic.

use crate::square_value::SquareValue;
use crate::sudoku::Board;
use vstd::prelude::*;

verus! {

/// An immutable record of one speculative guess: the trial digit, how many
/// candidates the chosen square had when the guess was generated, a copy of
/// that square (for its position), and the board with the square pinned.
pub struct Experimental {
    pub value: usize,
    pub branching: usize,
    pub square: SquareValue,
    pub board: Board,
}

impl Experimental {
    /// The ordering key.  Smaller keys are explored first: shallower boards
    /// before deeper ones, fewer branches before more, earlier squares
    /// before later ones, lower digits before higher ones.
    pub open spec fn key_spec(self) -> int {
        self.board.depth * 10000 + self.branching * 1000 + self.square.row * self.square.col
            + self.value
    }

    /// A well-formed experiment: the board satisfies the library invariant
    /// and the recorded square and digit are in range.
    pub open spec fn wf(self) -> bool {
        &&& self.board.wf()
        &&& self.board.propagation_complete()
        &&& 1 <= self.square.row <= 9
        &&& 1 <= self.square.col <= 9
        &&& self.branching <= 9
        &&& 1 <= self.value <= 9
    }

    /// The ordering key of this experiment.
    pub fn key(&self) -> (k: u128)
        requires
            self.square.row <= 9,
            self.square.col <= 9,
        ensures
            k == self.key_spec(),
    {
        let r = self.square.row;
        let c = self.square.col;
        proof {
            assert(r as u128 * c as u128 <= 81) by (nonlinear_arith)
                requires
                    r <= 9,
                    c <= 9,
            {}
        }
        self.board.depth as u128 * 10000 + self.branching as u128 * 1000 + r as u128 * c as u128
            + self.value as u128
    }
}

/// The queue is sorted with the largest key first, so the end of the queue
/// holds the experiment with the smallest key.
pub open spec fn sorted_descending(q: Seq<Experimental>) -> bool {
    forall|i: int, j: int|
        0 <= i <= j < q.len() ==> (#[trigger] q[i]).key_spec() >= (#[trigger] q[j]).key_spec()
}

/// The pop discipline is deterministic: on a sorted queue, the experiment at
/// the end — the one `pop_experiment` removes — has the smallest ordering
/// key of all pending experiments, so the engine always explores the most
/// promising experiment next.
pub proof fn lemma_pop_is_minimum(q: Seq<Experimental>)
    requires
        sorted_descending(q),
        q.len() > 0,
    ensures
        forall|i: int| 0 <= i < q.len() ==> (#[trigger] q[i]).key_spec() >= q.last().key_spec(),
{
}

/// Insert an experiment behind every pending experiment whose key is at
/// least as large, keeping the queue sorted.
pub fn push_experiment(queue: &mut Vec<Experimental>, e: Experimental)
    requires
        sorted_descending(old(queue)@),
        e.square.row <= 9,
        e.square.col <= 9,
        forall|i: int|
            0 <= i < old(queue)@.len() ==> (#[trigger] old(queue)@[i]).square.row <= 9 && old(
                queue,
            )@[i].square.col <= 9,
    ensures
        sorted_descending(final(queue)@),
        exists|i: int| 0 <= i <= old(queue)@.len() && final(queue)@ == old(queue)@.insert(i, e),
{
    let k = e.key();
    let mut idx: usize = 0;
    while idx < queue.len() && queue[idx].key() >= k
        invariant
            queue@ == old(queue)@,
            idx <= queue@.len(),
            e.square.row <= 9,
            e.square.col <= 9,
            forall|i: int|
                0 <= i < queue@.len() ==> (#[trigger] queue@[i]).square.row <= 9
                    && queue@[i].square.col <= 9,
            k == e.key_spec(),
            forall|j: int| 0 <= j < idx ==> (#[trigger] queue@[j]).key_spec() >= e.key_spec(),
        decreases queue@.len() - idx,
    {
        idx = idx + 1;
    }
    proof {
        old(queue)@.insert_ensures(idx as int, e);
    }
    queue.insert(idx, e);
    proof {
        let q0 = old(queue)@;
        let q1 = queue@;
        assert(q1 == q0.insert(idx as int, e));
        assert forall|i: int, j: int| 0 <= i <= j < q1.len() implies (#[trigger] q1[i]).key_spec()
            >= (#[trigger] q1[j]).key_spec() by {
            if j < idx {
                assert(q1[i] == q0[i] && q1[j] == q0[j]);
            } else if i > idx {
                assert(q1[i] == q0[i - 1] && q1[j] == q0[j - 1]);
            } else if i < idx && j == idx {
                assert(q1[i] == q0[i]);
                assert(q0[i].key_spec() >= e.key_spec());
            } else if i == idx && j > idx {
                assert(q1[j] == q0[j - 1]);
                if idx < q0.len() {
                    assert(q0[idx as int].key_spec() < e.key_spec());
                    assert(q0[idx as int].key_spec() >= q0[j - 1].key_spec());
                }
            } else if i < idx && j > idx {
                assert(q1[i] == q0[i] && q1[j] == q0[j - 1]);
            }
        }
    }
}

/// Remove the pending experiment with the smallest ordering key: the one at
/// the end of the sorted queue.
pub fn pop_experiment(queue: &mut Vec<Experimental>) -> (r: Option<Experimental>)
    ensures
        match r {
            None => old(queue)@.len() == 0 && final(queue)@ == old(queue)@,
            Some(e) => old(queue)@.len() > 0 && e == old(queue)@.last() && final(queue)@ == old(
                queue,
            )@.drop_last(),
        },
{
    let r = queue.pop();
    proof {
        if old(queue)@.len() > 0 {
            assert(final(queue)@ =~= old(queue)@.drop_last());
        }
    }
    r
}

/// Powers of ten, the weights of the termination measure of the search.
pub open spec fn pow10(n: nat) -> nat
    decreases n,
{
    if n == 0 {
        1
    } else {
        10 * pow10((n - 1) as nat)
    }
}

pub proof fn lemma_pow10_pos(n: nat)
    ensures
        pow10(n) >= 1,
    decreases n,
{
    if n > 0 {
        lemma_pow10_pos((n - 1) as nat);
    }
}

pub proof fn lemma_pow10_monotone(a: nat, b: nat)
    requires
        a <= b,
    ensures
        pow10(a) <= pow10(b),
    decreases b,
{
    if a < b {
        lemma_pow10_monotone(a, (b - 1) as nat);
        lemma_pow10_pos((b - 1) as nat);
    }
}

/// Termination measure of the search loop: every experiment weighs ten to
/// the power of its board's candidate total.  A popped experiment can spawn
/// at most nine children, each with a strictly smaller candidate total, so
/// the children together weigh less than their parent.
pub open spec fn queue_measure(q: Seq<Experimental>) -> nat
    decreases q.len(),
{
    if q.len() == 0 {
        0
    } else {
        pow10(q[0].board.total_count()) + queue_measure(q.drop_first())
    }
}

/// Inserting an experiment adds exactly its weight to the measure.
pub proof fn lemma_queue_measure_insert(q: Seq<Experimental>, i: int, e: Experimental)
    requires
        0 <= i <= q.len(),
    ensures
        queue_measure(q.insert(i, e)) == queue_measure(q) + pow10(e.board.total_count()),
    decreases q.len(),
{
    let q1 = q.insert(i, e);
    q.insert_ensures(i, e);
    if i == 0 {
        assert(q1[0] == e);
        assert(q1.drop_first() =~= q);
    } else {
        assert(q1[0] == q[0]);
        assert(q1.drop_first() =~= q.drop_first().insert(i - 1, e));
        lemma_queue_measure_insert(q.drop_first(), i - 1, e);
    }
}

/// Dropping the last experiment subtracts exactly its weight.
pub proof fn lemma_queue_measure_drop_last(q: Seq<Experimental>)
    requires
        q.len() > 0,
    ensures
        queue_measure(q) == queue_measure(q.drop_last()) + pow10(q.last().board.total_count()),
{
    let d = q.drop_last();
    assert(q =~= d.insert(d.len() as int, q.last()));
    lemma_queue_measure_insert(d, d.len() as int, q.last());
}

/// Generate the experiments of a stalled board: one clone per candidate
/// digit of the square chosen to guess on, each pinned to its digit and one
/// guess deeper, merged into the queue in key order.  No solution is lost:
/// every solution of the stalled board places some digit on the chosen
/// square, and the experiment pinning that digit still admits it.  Only a
/// depth counter already at its machine limit makes the board's branch be
/// abandoned instead.
pub fn generate_experiments(parent: &Board, queue: &mut Vec<Experimental>)
    requires
        parent.wf(),
        parent.propagation_complete(),
        !parent.all_known(),
        !parent.has_contradiction(),
        parent.total_count() >= 1,
        sorted_descending(old(queue)@),
        forall|i: int| 0 <= i < old(queue)@.len() ==> (#[trigger] old(queue)@[i]).wf(),
    ensures
        sorted_descending(final(queue)@),
        forall|i: int| 0 <= i < final(queue)@.len() ==> (#[trigger] final(queue)@[i]).wf(),
        forall|i: int|
            0 <= i < final(queue)@.len() ==> old(queue)@.contains(#[trigger] final(queue)@[i]) || (
            final(queue)@[i].board.evolves_from(*parent) && final(queue)@[i].board.total_count()
                < parent.total_count() && final(queue)@[i].board.depth == parent.depth + 1),
        queue_measure(final(queue)@) <= queue_measure(old(queue)@) + 9 * pow10(
            (parent.total_count() - 1) as nat,
        ),
        forall|j: int|
            0 <= j < old(queue)@.len() ==> final(queue)@.contains(#[trigger] old(queue)@[j]),
        parent.depth < usize::MAX ==> forall|c: Board|
            #[trigger] crate::sudoku::solution_within(c, *parent) ==> exists|i: int|
                0 <= i < final(queue)@.len() && crate::sudoku::solution_within(
                    c,
                    final(queue)@[i].board,
                ),
{
    let next_depth = parent.depth.checked_add(1);
    if next_depth.is_none() {
        // The depth counter cannot grow any further; this branch of the
        // search is abandoned rather than allowed to wrap.
        proof {
            assert forall|x: int| 0 <= x < queue@.len() implies old(queue)@.contains(
                #[trigger] queue@[x],
            ) by {
                assert(old(queue)@[x] == queue@[x]);
            }
            assert forall|j: int| 0 <= j < old(queue)@.len() implies queue@.contains(
                #[trigger] old(queue)@[j],
            ) by {
                assert(queue@[j] == old(queue)@[j]);
            }
        }
        return;
    }
    let candidate = parent.find_cell_to_guess();
    let sq = match candidate {
        Some(sq) => sq,
        None => {
            proof {
                assert(false);
            }
            return;
        },
    };
    let pos = Board::position_of(sq.row, sq.col);
    let branching = sq.possibilities();
    proof {
        crate::square_value::lemma_count_bound(sq);
    }
    let ghost weight = pow10((parent.total_count() - 1) as nat);
    let ghost mut pushed: int = 0;
    proof {
        assert forall|c: Board|
            #[trigger] crate::sudoku::solution_within(c, *parent) && c.square(
                pos as int,
            ).value_spec() < 1 implies exists|i: int|
                0 <= i < queue@.len() && crate::sudoku::solution_within(c, queue@[i].board) by {
            crate::square_value::lemma_known_value(c.square(pos as int));
        }
    }
    for v in 1..10usize
        invariant
            parent.wf(),
            parent.propagation_complete(),
            !parent.all_known(),
            !parent.has_contradiction(),
            parent.total_count() >= 1,
            parent.depth < usize::MAX,
            pos < 81,
            pos == crate::units::spec_position(sq.row as int, sq.col as int),
            1 <= sq.row <= 9,
            1 <= sq.col <= 9,
            parent.square(pos as int) == sq,
            sq.count() != 1,
            branching == sq.count(),
            branching <= 9,
            weight == pow10((parent.total_count() - 1) as nat),
            sorted_descending(queue@),
            forall|i: int| 0 <= i < queue@.len() ==> (#[trigger] queue@[i]).wf(),
            forall|i: int|
                0 <= i < queue@.len() ==> old(queue)@.contains(#[trigger] queue@[i]) || (
                queue@[i].board.evolves_from(*parent) && queue@[i].board.total_count()
                    < parent.total_count() && queue@[i].board.depth == parent.depth + 1),
            0 <= pushed <= v - 1,
            queue_measure(queue@) <= queue_measure(old(queue)@) + pushed * weight,
            forall|j: int|
                0 <= j < old(queue)@.len() ==> queue@.contains(#[trigger] old(queue)@[j]),
            forall|c: Board|
                #[trigger] crate::sudoku::solution_within(c, *parent) && c.square(
                    pos as int,
                ).value_spec() < v ==> exists|i: int|
                    0 <= i < queue@.len() && crate::sudoku::solution_within(c, queue@[i].board),
    {
        if parent.values[pos].is_possibly(v) {
            let child = parent.speculate(pos, v);
            let e = Experimental { value: v, branching, square: sq, board: child };
            let ghost q_before = queue@;
            push_experiment(queue, e);
            proof {
                let i = choose|i: int|
                    0 <= i <= q_before.len() && queue@ == q_before.insert(i, e);
                q_before.insert_ensures(i, e);
                lemma_queue_measure_insert(q_before, i, e);
                assert(child.total_count() < parent.total_count());
                lemma_pow10_monotone(child.total_count(), (parent.total_count() - 1) as nat);
                assert forall|x: int| 0 <= x < queue@.len() implies (#[trigger] queue@[x]).wf() && (
                old(queue)@.contains(queue@[x]) || (queue@[x].board.evolves_from(*parent)
                    && queue@[x].board.total_count() < parent.total_count()
                    && queue@[x].board.depth == parent.depth + 1)) by {
                    if x < i {
                        assert(queue@[x] == q_before[x]);
                    } else if x > i {
                        assert(queue@[x] == q_before[x - 1]);
                    } else {
                        assert(queue@[x] == e);
                    }
                }
                let m0 = queue_measure(old(queue)@);
                let m1 = queue_measure(q_before);
                let m2 = queue_measure(queue@);
                let w = pow10(child.total_count());
                assert(m2 <= m0 + (pushed + 1) * weight) by (nonlinear_arith)
                    requires
                        m2 == m1 + w,
                        m1 <= m0 + pushed * weight,
                        w <= weight,
                        pushed >= 0,
                        weight >= 0,
                {}
                pushed = pushed + 1;
                assert forall|x: int| 0 <= x < q_before.len() implies queue@.contains(
                    #[trigger] q_before[x],
                ) by {
                    if x < i {
                        assert(queue@[x] == q_before[x]);
                    } else {
                        assert(queue@[x + 1] == q_before[x]);
                    }
                }
                assert forall|j: int| 0 <= j < old(queue)@.len() implies queue@.contains(
                    #[trigger] old(queue)@[j],
                ) by {
                    let x = choose|x: int|
                        0 <= x < q_before.len() && q_before[x] == old(queue)@[j];
                    assert(queue@.contains(q_before[x]));
                }
                assert forall|c: Board|
                    #[trigger] crate::sudoku::solution_within(c, *parent) && c.square(
                        pos as int,
                    ).value_spec() < v + 1 implies exists|x: int|
                        0 <= x < queue@.len() && crate::sudoku::solution_within(
                            c,
                            queue@[x].board,
                        ) by {
                    if c.square(pos as int).value_spec() == v {
                        crate::square_value::lemma_known_value(c.square(pos as int));
                        assert(crate::sudoku::solution_within(c, child)) by {
                            assert forall|p: int|
                                0 <= p < 81 implies (#[trigger] c.square(p)).narrows(
                                child.square(p),
                            ) by {
                                if p == pos {
                                    assert forall|u: int|
                                        c.square(p).allows(u) implies child.square(p).allows(
                                        u,
                                    ) by {
                                        assert(u == c.square(p).value_spec());
                                    }
                                } else {
                                    assert(child.square(p) == parent.square(p));
                                    assert(c.square(p).narrows(parent.square(p)));
                                }
                            }
                        }
                        assert(queue@[i].board == child);
                        assert(crate::sudoku::solution_within(c, queue@[i].board));
                    } else {
                        let x0 = choose|x0: int|
                            0 <= x0 < q_before.len() && crate::sudoku::solution_within(
                                c,
                                q_before[x0].board,
                            );
                        let xn = choose|xn: int|
                            0 <= xn < queue@.len() && queue@[xn] == q_before[x0];
                        assert(crate::sudoku::solution_within(c, queue@[xn].board));
                    }
                }
            }
        } else {
            proof {
                assert forall|c: Board|
                    #[trigger] crate::sudoku::solution_within(c, *parent) && c.square(
                        pos as int,
                    ).value_spec() < v + 1 implies exists|x: int|
                        0 <= x < queue@.len() && crate::sudoku::solution_within(
                            c,
                            queue@[x].board,
                        ) by {
                    if c.square(pos as int).value_spec() == v {
                        crate::square_value::lemma_known_value(c.square(pos as int));
                        assert(c.square(pos as int).allows(v as int));
                        assert(c.square(pos as int).narrows(parent.square(pos as int)));
                        assert(parent.square(pos as int).allows(v as int));
                    }
                }
            }
        }
    }
    proof {
        let m0 = queue_measure(old(queue)@);
        let m2 = queue_measure(queue@);
        assert(m2 <= m0 + 9 * weight) by (nonlinear_arith)
            requires
                m2 <= m0 + pushed * weight,
                0 <= pushed <= 9,
                weight >= 0,
        {}
        assert forall|c: Board|
            #[trigger] crate::sudoku::solution_within(c, *parent) implies exists|i: int|
                0 <= i < queue@.len() && crate::sudoku::solution_within(c, queue@[i].board) by {
            crate::square_value::lemma_known_value(c.square(pos as int));
        }
    }
}

} // verus!
