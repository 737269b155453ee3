//! When the breadth-first walk of a nondeterministic automaton ends.
//!
//! The walk visits a configuration as often as it is reached, so it ends
//! exactly if the executions from the start state are finitely many. They
//! are where free moves make no cycle among the states that can be reached.

use vstd::prelude::*;
use crate::atom::Atom;
use crate::nfa::{at_position, table_dests, table_successors, walk_after, walk_step};
use crate::nfa::{Transition, NFA};
use crate::table::{key_absent, lemma_assoc_get_absent};

verus! {

/// Whether free moves make no cycle among the states of `live`: whatever move
/// leaves a state of `live` leads to one, and a free move leads to a state of
/// lower rank.
pub open spec fn free_moves_descend<S, I>(
    entries: Seq<((S, Transition<I>), Vec<S>)>,
    live: Set<S>,
    rank: spec_fn(S) -> nat,
) -> bool {
    &&& forall|p: S, l: Transition<I>, q: S|
        live.contains(p) && #[trigger] table_dests(entries, p, l).contains(q) ==> live.contains(q)
    &&& forall|p: S, q: S|
        live.contains(p) && #[trigger] table_dests(entries, p, Transition::Epsilon).contains(q)
            ==> rank(q) < rank(p)
}

/// The input that is left at the configuration `c`.
pub open spec fn left<S>(len: nat, c: (S, usize)) -> nat {
    if c.1 <= len {
        (len - c.1) as nat
    } else {
        0
    }
}

/// Whether the configuration `d` is nearer the end of every execution than
/// `c`: less input is left at it, or as much and its state is of lower rank.
pub open spec fn nearer<S>(len: nat, rank: spec_fn(S) -> nat, d: (S, usize), c: (S, usize)) -> bool {
    left(len, d) < left(len, c) || (left(len, d) == left(len, c) && rank(d.0) < rank(c.0))
}

/// The number of states that a walk hands out for the configuration `c` and
/// all that follows from it: one for `c`, and those of its successors.
pub open spec fn visits<S, I>(
    entries: Seq<((S, Transition<I>), Vec<S>)>,
    input: Seq<I>,
    rank: spec_fn(S) -> nat,
    c: (S, usize),
) -> nat
    decreases left(input.len(), c), rank(c.0), 1nat, 0nat,
{
    1 + visits_of_successors(
        entries,
        input,
        rank,
        c,
        table_successors(entries, input, c).len(),
    )
}

/// The number of states that a walk hands out for the first `n` successors
/// of `c` and all that follows from them.
pub open spec fn visits_of_successors<S, I>(
    entries: Seq<((S, Transition<I>), Vec<S>)>,
    input: Seq<I>,
    rank: spec_fn(S) -> nat,
    c: (S, usize),
    n: nat,
) -> nat
    decreases left(input.len(), c), rank(c.0), 0nat, n,
{
    if n == 0 {
        0
    } else {
        let d = table_successors(entries, input, c)[n - 1];
        let rest = visits_of_successors(entries, input, rank, c, (n - 1) as nat);
        if nearer(input.len(), rank, d, c) {
            rest + visits(entries, input, rank, d)
        } else {
            rest
        }
    }
}

/// The number of states that a walk hands out before its queue `pending` is
/// empty.
pub open spec fn visits_left<S, I>(
    entries: Seq<((S, Transition<I>), Vec<S>)>,
    input: Seq<I>,
    rank: spec_fn(S) -> nat,
    pending: Seq<(S, usize)>,
) -> nat
    decreases pending.len(),
{
    if pending.len() == 0 {
        0
    } else {
        visits_left(entries, input, rank, pending.drop_last()) + visits(
            entries,
            input,
            rank,
            pending.last(),
        )
    }
}

/// Whether every configuration of `pending` is in a state of `live`.
pub open spec fn all_live<S>(live: Set<S>, pending: Seq<(S, usize)>) -> bool {
    forall|i: int| 0 <= i < pending.len() ==> live.contains((#[trigger] pending[i]).0)
}

/// A successor of `c` is what a free move leads to at the position of `c`,
/// or what a wildcard or exact move leads to at the next position.
pub proof fn lemma_successor_kinds<S, I>(
    entries: Seq<((S, Transition<I>), Vec<S>)>,
    input: Seq<I>,
    c: (S, usize),
    i: int,
)
    requires
        input.len() <= usize::MAX,
        0 <= i < table_successors(entries, input, c).len(),
    ensures
        ({
            let d = table_successors(entries, input, c)[i];
            ||| d.1 == c.1 && table_dests(entries, c.0, Transition::Epsilon).contains(d.0)
            ||| c.1 < input.len() && d.1 == c.1 + 1 && table_dests(
                entries,
                c.0,
                Transition::Anything,
            ).contains(d.0)
            ||| c.1 < input.len() && d.1 == c.1 + 1 && table_dests(
                entries,
                c.0,
                Transition::Input(input[c.1 as int]),
            ).contains(d.0)
        }),
{
    let free = table_dests(entries, c.0, Transition::Epsilon);
    if i < free.len() {
        assert(at_position(free, c.1)[i] == (free[i], c.1));
        assert(free.contains(free[i]));
    } else {
        let next = (c.1 + 1) as usize;
        let wild = table_dests(entries, c.0, Transition::Anything);
        let exact = table_dests(entries, c.0, Transition::Input(input[c.1 as int]));
        let j = i - free.len();
        if j < wild.len() {
            assert(at_position(wild, next)[j] == (wild[j], next));
            assert(wild.contains(wild[j]));
        } else {
            let m = j - wild.len();
            assert(at_position(exact, next)[m] == (exact[m], next));
            assert(exact.contains(exact[m]));
        }
    }
}

/// The visits that are left for a queue of one configuration are the visits
/// of that configuration.
pub proof fn lemma_visits_left_one<S, I>(
    entries: Seq<((S, Transition<I>), Vec<S>)>,
    input: Seq<I>,
    rank: spec_fn(S) -> nat,
    c: (S, usize),
)
    ensures
        visits_left(entries, input, rank, seq![c]) == visits(entries, input, rank, c),
{
    let nothing = seq![c].drop_last();
    assert(nothing.len() == 0);
    assert(visits_left(entries, input, rank, nothing) == 0);
    assert(seq![c].last() == c);
}

/// The visits that are left for two queues in a row are those of the one
/// and those of the other.
pub proof fn lemma_visits_left_add<S, I>(
    entries: Seq<((S, Transition<I>), Vec<S>)>,
    input: Seq<I>,
    rank: spec_fn(S) -> nat,
    a: Seq<(S, usize)>,
    b: Seq<(S, usize)>,
)
    ensures
        visits_left(entries, input, rank, a + b) == visits_left(entries, input, rank, a)
            + visits_left(entries, input, rank, b),
    decreases b.len(),
{
    if b.len() == 0 {
        assert(a + b =~= a);
    } else {
        assert((a + b).drop_last() =~= a + b.drop_last());
        assert((a + b).last() == b.last());
        lemma_visits_left_add(entries, input, rank, a, b.drop_last());
    }
}

/// Where free moves make no cycle, the visits that are left for the
/// successors of a live configuration are what its own visits count.
pub proof fn lemma_visits_of_successors<S, I>(
    entries: Seq<((S, Transition<I>), Vec<S>)>,
    input: Seq<I>,
    live: Set<S>,
    rank: spec_fn(S) -> nat,
    c: (S, usize),
    n: nat,
)
    requires
        input.len() <= usize::MAX,
        free_moves_descend(entries, live, rank),
        live.contains(c.0),
        n <= table_successors(entries, input, c).len(),
    ensures
        visits_left(entries, input, rank, table_successors(entries, input, c).take(n as int))
            == visits_of_successors(entries, input, rank, c, n),
        all_live(live, table_successors(entries, input, c).take(n as int)),
    decreases n,
{
    let successors = table_successors(entries, input, c);
    if n > 0 {
        lemma_visits_of_successors(entries, input, live, rank, c, (n - 1) as nat);
        lemma_successor_kinds(entries, input, c, n - 1);
        let d = successors[n - 1];
        assert(nearer(input.len(), rank, d, c));
        assert(live.contains(d.0));
        assert(successors.take(n as int).drop_last() =~= successors.take(n - 1));
        assert(successors.take(n as int).last() == d);
        assert forall|i: int| 0 <= i < n implies live.contains(
            (#[trigger] successors.take(n as int)[i]).0,
        ) by {
            if i < n - 1 {
                assert(successors.take(n - 1)[i] == successors.take(n as int)[i]);
            }
        }
    }
}

/// Where free moves make no cycle, handing out one state leaves one visit
/// less, and the queue stays live.
pub proof fn lemma_walk_step_visits<S, I>(
    entries: Seq<((S, Transition<I>), Vec<S>)>,
    input: Seq<I>,
    live: Set<S>,
    rank: spec_fn(S) -> nat,
    pending: Seq<(S, usize)>,
)
    requires
        input.len() <= usize::MAX,
        free_moves_descend(entries, live, rank),
        all_live(live, pending),
        pending.len() > 0,
    ensures
        visits_left(entries, input, rank, walk_step(entries, input, pending)) + 1 == visits_left(
            entries,
            input,
            rank,
            pending,
        ),
        all_live(live, walk_step(entries, input, pending)),
{
    let c = pending[0];
    let successors = table_successors(entries, input, c);
    let rest = pending.skip(1);
    assert(live.contains(pending[0].0));
    lemma_visits_of_successors(entries, input, live, rank, c, successors.len());
    assert(successors.take(successors.len() as int) == successors);
    lemma_visits_left_add(entries, input, rank, rest, successors);
    lemma_visits_left_add(entries, input, rank, seq![c], rest);
    assert(seq![c] + rest =~= pending);
    lemma_visits_left_one(entries, input, rank, c);
    assert forall|i: int| 0 <= i < (rest + successors).len() implies live.contains(
        (#[trigger] (rest + successors)[i]).0,
    ) by {
        if i < rest.len() {
            assert(rest[i] == pending[i + 1]);
        } else {
            assert((rest + successors)[i] == successors[i - rest.len()]);
        }
    }
}

/// Where free moves make no cycle, a walk that is asked for `n` more states
/// has `n` visits less left, or none.
pub proof fn lemma_walk_after_visits<S, I>(
    entries: Seq<((S, Transition<I>), Vec<S>)>,
    input: Seq<I>,
    live: Set<S>,
    rank: spec_fn(S) -> nat,
    pending: Seq<(S, usize)>,
    n: nat,
)
    requires
        input.len() <= usize::MAX,
        free_moves_descend(entries, live, rank),
        all_live(live, pending),
    ensures
        all_live(live, walk_after(entries, input, pending, n)),
        visits_left(entries, input, rank, walk_after(entries, input, pending, n)) == if n
            <= visits_left(entries, input, rank, pending) {
            visits_left(entries, input, rank, pending) - n
        } else {
            0
        },
    decreases n,
{
    if n > 0 {
        lemma_walk_after_visits(entries, input, live, rank, pending, (n - 1) as nat);
        let before = walk_after(entries, input, pending, (n - 1) as nat);
        if before.len() > 0 {
            lemma_walk_step_visits(entries, input, live, rank, before);
        }
    }
}

impl<S: Atom, I: Atom> NFA<S, I> {
    /// The walk over an input ends where free moves make no cycle among the
    /// states that can be reached from the start state: once as many states
    /// have been handed out as there are visits to make, the queue is empty.
    pub proof fn lemma_walk_ends(&self, input: Seq<I>, live: Set<S>, rank: spec_fn(S) -> nat)
        requires
            input.len() <= usize::MAX,
            live.contains(self.start_state()),
            free_moves_descend(self.entries(), live, rank),
        ensures
            walk_after(
                self.entries(),
                input,
                seq![(self.start_state(), 0usize)],
                visits(self.entries(), input, rank, (self.start_state(), 0usize)),
            ).len() == 0,
    {
        let first = seq![(self.start_state(), 0usize)];
        let n = visits(self.entries(), input, rank, (self.start_state(), 0usize));
        lemma_visits_left_one(self.entries(), input, rank, (self.start_state(), 0usize));
        lemma_walk_after_visits(self.entries(), input, live, rank, first, n);
        let last = walk_after(self.entries(), input, first, n);
        if last.len() > 0 {
            assert(visits_left(self.entries(), input, rank, last) >= visits(
                self.entries(),
                input,
                rank,
                last.last(),
            ));
        }
    }

    /// The walk over an input ends where the table has no free move.
    pub proof fn lemma_walk_ends_without_free_moves(&self, input: Seq<I>)
        requires
            input.len() <= usize::MAX,
            forall|k: int|
                0 <= k < self.entries().len() ==> (#[trigger] self.entries()[k]).0.1
                    != Transition::<I>::Epsilon,
        ensures
            walk_after(
                self.entries(),
                input,
                seq![(self.start_state(), 0usize)],
                visits(self.entries(), input, |s: S| 0nat, (self.start_state(), 0usize)),
            ).len() == 0,
    {
        let rank = |s: S| 0nat;
        assert forall|p: S, q: S| !(#[trigger] table_dests(
            self.entries(),
            p,
            Transition::Epsilon,
        ).contains(q)) by {
            assert(key_absent(self.entries(), (p, Transition::<I>::Epsilon)));
            lemma_assoc_get_absent(self.entries(), (p, Transition::<I>::Epsilon));
        }
        self.lemma_walk_ends(input, Set::full(), rank);
    }
}

} // verus!
