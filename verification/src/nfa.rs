//! Nondeterministic finite automata with exact, wildcard and free moves.

use std::collections::VecDeque;
use vstd::prelude::*;
use vstd::seq_lib::lemma_seq_contains_after_push;
use crate::atom::Atom;
use crate::sets::{
    contains, lemma_pairs_upto_finite, lemma_take_next_contains, pairs_upto, union_into,
};
use crate::table::{assoc_get, find_key, key_absent, lemma_assoc_get_absent, lemma_assoc_get_some};
use crate::Automaton;

verus! {

/// The label of a transition.
#[derive(Debug, Hash, Eq, PartialEq, Copy, Clone)]
pub enum Transition<I> {
    /// Consumes one input symbol, whichever it is.
    Anything,
    /// Consumes no input.
    Epsilon,
    /// Consumes one input symbol equal to the one given.
    Input(I),
}

impl<I: Atom> Atom for Transition<I> {
    fn same(&self, other: &Self) -> (r: bool) {
        match (self, other) {
            (Transition::Anything, Transition::Anything) => true,
            (Transition::Epsilon, Transition::Epsilon) => true,
            (Transition::Input(a), Transition::Input(b)) => a.same(b),
            _ => false,
        }
    }
}

/// A nondeterministic automaton: a start state, accept states, and a table
/// from `(state, label)` to the list of destination states.
#[derive(Debug, Clone)]
pub struct NFA<S: Atom = usize, I: Atom = char> {
    start: S,
    accept_states: Vec<S>,
    transitions: Vec<((S, Transition<I>), Vec<S>)>,
}

/// A breadth-first walk of a nondeterministic automaton over one input,
/// configuration by configuration.
pub struct NFAIter<'a, S: Atom, I: Atom> {
    queue: VecDeque<(&'a S, usize)>,
    input: Vec<I>,
    transitions: &'a Vec<((S, Transition<I>), Vec<S>)>,
}

/// The destinations that the entries list for `(s, l)`, in their order; none
/// where no entry has the key.
pub open spec fn table_dests<S, I>(
    entries: Seq<((S, Transition<I>), Vec<S>)>,
    s: S,
    l: Transition<I>,
) -> Seq<S> {
    match assoc_get(entries, (s, l)) {
        Some(v) => v@,
        None => Seq::empty(),
    }
}

/// The states of `dests`, each paired with the position `pos`.
pub open spec fn at_position<S>(dests: Seq<S>, pos: usize) -> Seq<(S, usize)> {
    dests.map_values(|d: S| (d, pos))
}

/// The configurations that a walk enqueues when it leaves `c`, in order:
/// the free moves at the same position; and, while input is left, the
/// wildcard moves and the moves on the symbol at the position, one further.
pub open spec fn table_successors<S, I>(
    entries: Seq<((S, Transition<I>), Vec<S>)>,
    input: Seq<I>,
    c: (S, usize),
) -> Seq<(S, usize)> {
    let free = at_position(table_dests(entries, c.0, Transition::Epsilon), c.1);
    if c.1 < input.len() {
        let next = (c.1 + 1) as usize;
        free + at_position(table_dests(entries, c.0, Transition::Anything), next) + at_position(
            table_dests(entries, c.0, Transition::Input(input[c.1 as int])),
            next,
        )
    } else {
        free
    }
}

/// The queue of a walk once the state of its first configuration has been
/// handed out: the configuration has left, and its successors have joined
/// at the back. An empty queue stays empty.
pub open spec fn walk_step<S, I>(
    entries: Seq<((S, Transition<I>), Vec<S>)>,
    input: Seq<I>,
    pending: Seq<(S, usize)>,
) -> Seq<(S, usize)> {
    if pending.len() == 0 {
        pending
    } else {
        pending.skip(1) + table_successors(entries, input, pending[0])
    }
}

/// The queue of a walk once `n` more states have been asked for.
pub open spec fn walk_after<S, I>(
    entries: Seq<((S, Transition<I>), Vec<S>)>,
    input: Seq<I>,
    pending: Seq<(S, usize)>,
    n: nat,
) -> Seq<(S, usize)>
    decreases n,
{
    if n == 0 {
        pending
    } else {
        walk_step(entries, input, walk_after(entries, input, pending, (n - 1) as nat))
    }
}

/// Every destination that the entries name, in table order.
pub open spec fn all_dests<S, I>(entries: Seq<((S, Transition<I>), Vec<S>)>) -> Seq<S>
    decreases entries.len(),
{
    if entries.len() == 0 {
        Seq::empty()
    } else {
        all_dests(entries.drop_last()) + entries.last().1@
    }
}

/// A destination of any entry is among `all_dests`.
pub proof fn lemma_all_dests_contains<S, I>(
    entries: Seq<((S, Transition<I>), Vec<S>)>,
    k: int,
    q: S,
)
    requires
        0 <= k < entries.len(),
        entries[k].1@.contains(q),
    ensures
        all_dests(entries).contains(q),
    decreases entries.len(),
{
    let rest = entries.drop_last();
    if k == entries.len() - 1 {
        let j = choose|j: int| 0 <= j < entries[k].1@.len() && entries[k].1@[j] == q;
        assert(all_dests(entries)[all_dests(rest).len() + j] == q);
    } else {
        assert(rest[k] == entries[k]);
        lemma_all_dests_contains(rest, k, q);
        let j = choose|j: int| 0 <= j < all_dests(rest).len() && all_dests(rest)[j] == q;
        assert(all_dests(entries)[j] == q);
    }
}

impl<S: Atom, I: Atom> NFA<S, I> {
    /// The start state.
    pub closed spec fn start_state(&self) -> S {
        self.start
    }

    /// The accept states, as listed.
    pub closed spec fn accept_list(&self) -> Seq<S> {
        self.accept_states@
    }

    /// The transition table, as listed.
    pub closed spec fn entries(&self) -> Seq<((S, Transition<I>), Vec<S>)> {
        self.transitions@
    }

    /// The set of accept states.
    pub open spec fn accept_set(&self) -> Set<S> {
        self.accept_list().to_set()
    }

    /// The destinations listed for `(s, l)`, empty where the table has no
    /// such key.
    pub open spec fn dests(&self, s: S, l: Transition<I>) -> Seq<S> {
        table_dests(self.entries(), s, l)
    }

    /// The states that one `l`-labelled transition leads to from `s`.
    pub open spec fn delta(&self, s: S, l: Transition<I>) -> Set<S> {
        self.dests(s, l).to_set()
    }

    /// Every state that some table entry leads to.
    pub open spec fn dest_set(&self) -> Set<S> {
        all_dests(self.entries()).to_set()
    }

    /// The states that one `l`-labelled transition leads to from any state
    /// of `from`.
    pub open spec fn step_set(&self, from: Set<S>, l: Transition<I>) -> Set<S> {
        Set::new(|q: S| exists|p: S| from.contains(p) && #[trigger] self.delta(p, l).contains(q))
    }

    /// The states reached from `from` by at most `n` free moves.
    pub open spec fn eps_within(&self, from: Set<S>, n: nat) -> Set<S>
        decreases n,
    {
        if n == 0 {
            from
        } else {
            let prev = self.eps_within(from, (n - 1) as nat);
            prev.union(self.step_set(prev, Transition::Epsilon))
        }
    }

    /// The states reached from `from` by any number of free moves: the least
    /// set that includes `from` and is closed under free moves.
    pub open spec fn eps_closure(&self, from: Set<S>) -> Set<S> {
        Set::new(|q: S| exists|n: nat| #[trigger] self.eps_within(from, n).contains(q))
    }

    /// The states that consuming the symbol `c` leads to from the states of
    /// `from`: one exact or wildcard transition, and free moves after it.
    pub open spec fn advance(&self, from: Set<S>, c: I) -> Set<S> {
        self.eps_closure(
            self.step_set(from, Transition::Input(c)).union(
                self.step_set(from, Transition::Anything),
            ),
        )
    }

    /// The states in which some execution can be once it has consumed all of
    /// `input`.
    pub open spec fn states_after(&self, input: Seq<I>) -> Set<S>
        decreases input.len(),
    {
        if input.len() == 0 {
            self.eps_closure(set![self.start_state()])
        } else {
            self.advance(self.states_after(input.drop_last()), input.last())
        }
    }

    /// Whether some execution ends in an accept state exactly when `input`
    /// is exhausted.
    pub open spec fn recognizes(&self, input: Seq<I>) -> bool {
        exists|q: S| #[trigger] self.states_after(input).contains(q) && self.accept_set().contains(q)
    }

    /// The configurations, pairs of a state and a position in `input`, that
    /// one move leads to from `c`: a free move keeps the position, a wildcard
    /// or exact move consumes the symbol at it.
    pub open spec fn successors(&self, input: Seq<I>, c: (S, usize)) -> Set<(S, usize)> {
        Set::new(
            |d: (S, usize)|
                {
                    ||| d.1 == c.1 && self.delta(c.0, Transition::Epsilon).contains(d.0)
                    ||| c.1 < input.len() && d.1 == c.1 + 1 && self.delta(
                        c.0,
                        Transition::Anything,
                    ).contains(d.0)
                    ||| c.1 < input.len() && d.1 == c.1 + 1 && self.delta(
                        c.0,
                        Transition::Input(input[c.1 as int]),
                    ).contains(d.0)
                },
        )
    }

    /// Whether `path` is an execution over `input`: it starts in the start
    /// state at position 0, and each configuration is a successor of the one
    /// before it.
    pub open spec fn is_execution(&self, input: Seq<I>, path: Seq<(S, usize)>) -> bool {
        &&& path.len() >= 1
        &&& path[0] == (self.start_state(), 0usize)
        &&& forall|i: int|
            0 <= i < path.len() - 1 ==> self.successors(input, #[trigger] path[i]).contains(
                path[i + 1],
            )
    }

    /// Whether some execution over `input` ends in the configuration `c`.
    pub open spec fn reaches(&self, input: Seq<I>, c: (S, usize)) -> bool {
        exists|path: Seq<(S, usize)>| #[trigger] self.is_execution(input, path) && path.last() == c
    }

    /// Whether no transition of the table is a wildcard.
    pub open spec fn wildcard_free(&self) -> bool {
        forall|k: int|
            0 <= k < self.entries().len() ==> (#[trigger] self.entries()[k]).0.1
                != Transition::<I>::Anything
    }

    /// The states that the automaton names: the start state, the accept
    /// states, and the states that transitions leave or lead to.
    pub open spec fn states(&self) -> Set<S> {
        set![self.start_state()].union(self.accept_set()).union(
            self.entries().map_values(|e: ((S, Transition<I>), Vec<S>)| e.0.0).to_set(),
        ).union(self.dest_set())
    }

    /// Builds an automaton from its parts. Nothing is checked: states that
    /// no transition reaches, or keys that repeat, are accepted as they are.
    pub fn new(
        start: S,
        accept_states: Vec<S>,
        transitions: Vec<((S, Transition<I>), Vec<S>)>,
    ) -> (nfa: NFA<S, I>)
        ensures
            nfa.start_state() == start,
            nfa.accept_list() == accept_states@,
            nfa.entries() == transitions@,
    {
        NFA { start: start, accept_states: accept_states, transitions: transitions }
    }

    /// The accept states, as they were given.
    pub fn get_accept_states(&self) -> (r: &Vec<S>)
        ensures
            r@ == self.accept_list(),
    {
        &self.accept_states
    }

    /// The start state.
    pub fn get_start_state(&self) -> (r: &S)
        ensures
            *r == self.start_state(),
    {
        &self.start
    }

    /// The transition table, as it was given.
    pub fn get_transitions(&self) -> (r: &Vec<((S, Transition<I>), Vec<S>)>)
        ensures
            r@ == self.entries(),
    {
        &self.transitions
    }

    /// Starts a walk over `input` from the start state.
    pub fn iter(&self, input: Vec<I>) -> (it: NFAIter<'_, S, I>)
        ensures
            it.pending() == seq![(self.start_state(), 0usize)],
            it.input() == input@,
            it.table() == self.entries(),
    {
        let mut queue: VecDeque<(&S, usize)> = VecDeque::new();
        queue.push_back((&self.start, 0));
        let it = NFAIter { queue: queue, input: input, transitions: &self.transitions };
        assert(it.pending() =~= seq![(self.start_state(), 0usize)]);
        it
    }

    /// A label that no key of the table has leads nowhere.
    pub proof fn lemma_unused_label(&self, from: Set<S>, l: Transition<I>)
        requires
            forall|k: int| 0 <= k < self.entries().len() ==> (#[trigger] self.entries()[k]).0.1 != l,
        ensures
            self.step_set(from, l) == Set::<S>::empty(),
    {
        assert forall|q: S| !self.step_set(from, l).contains(q) by {
            if self.step_set(from, l).contains(q) {
                let p = choose|p: S| from.contains(p) && #[trigger] self.delta(p, l).contains(q);
                assert(key_absent(self.entries(), (p, l)));
                lemma_assoc_get_absent(self.entries(), (p, l));
                assert(self.dests(p, l).contains(q));
            }
        }
        assert(self.step_set(from, l) =~= Set::<S>::empty());
    }

    /// Every destination of a key is a destination of the table.
    pub proof fn lemma_delta_in_dest_set(&self, s: S, l: Transition<I>, q: S)
        requires
            self.delta(s, l).contains(q),
        ensures
            self.dest_set().contains(q),
    {
        let k = lemma_assoc_get_some(self.entries(), (s, l));
        lemma_all_dests_contains(self.entries(), k, q);
    }

    /// The closure includes the set it is taken of.
    pub proof fn lemma_eps_closure_extends(&self, from: Set<S>)
        ensures
            from.subset_of(self.eps_closure(from)),
    {
        assert forall|q: S| from.contains(q) implies self.eps_closure(from).contains(q) by {
            assert(self.eps_within(from, 0).contains(q));
        }
    }

    /// A free move from a state of the closure stays in the closure.
    pub proof fn lemma_eps_closure_step(&self, from: Set<S>, p: S, q: S)
        requires
            self.eps_closure(from).contains(p),
            self.delta(p, Transition::Epsilon).contains(q),
        ensures
            self.eps_closure(from).contains(q),
    {
        let n = choose|n: nat| #[trigger] self.eps_within(from, n).contains(p);
        let prev = self.eps_within(from, n);
        assert(self.step_set(prev, Transition::Epsilon).contains(q));
        assert(self.eps_within(from, n + 1).contains(q));
    }

    /// The closure is closed under free moves.
    pub proof fn lemma_eps_closure_closed(&self, from: Set<S>)
        ensures
            self.step_set(self.eps_closure(from), Transition::Epsilon).subset_of(
                self.eps_closure(from),
            ),
    {
        let closure = self.eps_closure(from);
        assert forall|q: S|
            self.step_set(closure, Transition::Epsilon).contains(q) implies closure.contains(
            q,
        ) by {
            let p = choose|p: S|
                closure.contains(p) && #[trigger] self.delta(p, Transition::Epsilon).contains(q);
            self.lemma_eps_closure_step(from, p, q);
        }
    }

    /// The closure is included in every set that includes `from` and is
    /// closed under free moves.
    pub proof fn lemma_eps_closure_least(&self, from: Set<S>, other: Set<S>)
        requires
            from.subset_of(other),
            self.step_set(other, Transition::Epsilon).subset_of(other),
        ensures
            self.eps_closure(from).subset_of(other),
    {
        assert forall|q: S| self.eps_closure(from).contains(q) implies other.contains(q) by {
            let n = choose|n: nat| #[trigger] self.eps_within(from, n).contains(q);
            self.lemma_eps_within_least(from, other, n);
        }
    }

    /// Any number of free moves from `from` stays inside a set that includes
    /// `from` and is closed under free moves.
    pub proof fn lemma_eps_within_least(&self, from: Set<S>, other: Set<S>, n: nat)
        requires
            from.subset_of(other),
            self.step_set(other, Transition::Epsilon).subset_of(other),
        ensures
            self.eps_within(from, n).subset_of(other),
        decreases n,
    {
        if n > 0 {
            self.lemma_eps_within_least(from, other, (n - 1) as nat);
            let prev = self.eps_within(from, (n - 1) as nat);
            assert forall|q: S|
                self.step_set(prev, Transition::Epsilon).contains(q) implies other.contains(
                q,
            ) by {
                let p = choose|p: S|
                    prev.contains(p) && #[trigger] self.delta(p, Transition::Epsilon).contains(q);
                assert(self.step_set(other, Transition::Epsilon).contains(q));
            }
        }
    }

    /// Taking the closure of a closure adds nothing.
    pub proof fn lemma_eps_closure_idempotent(&self, from: Set<S>)
        ensures
            self.eps_closure(self.eps_closure(from)) == self.eps_closure(from),
    {
        let closure = self.eps_closure(from);
        self.lemma_eps_closure_closed(from);
        self.lemma_eps_closure_least(closure, closure);
        self.lemma_eps_closure_extends(closure);
        assert(self.eps_closure(closure) =~= closure);
    }

    /// Where the table has no free move, every set is its own closure.
    pub proof fn lemma_eps_closure_without_free_moves(&self, from: Set<S>)
        requires
            forall|k: int|
                0 <= k < self.entries().len() ==> (#[trigger] self.entries()[k]).0.1
                    != Transition::<I>::Epsilon,
        ensures
            self.eps_closure(from) == from,
    {
        self.lemma_unused_label(from, Transition::Epsilon);
        self.lemma_eps_closure_least(from, from);
        self.lemma_eps_closure_extends(from);
        assert(self.eps_closure(from) =~= from);
    }

    /// One step from any set leads into the table's destinations.
    pub proof fn lemma_step_set_in_dest_set(&self, from: Set<S>, l: Transition<I>)
        ensures
            self.step_set(from, l).subset_of(self.dest_set()),
    {
        assert forall|q: S| self.step_set(from, l).contains(q) implies self.dest_set().contains(
            q,
        ) by {
            let p = choose|p: S| from.contains(p) && #[trigger] self.delta(p, l).contains(q);
            self.lemma_delta_in_dest_set(p, l, q);
        }
    }

    /// The closure adds nothing but destinations of the table.
    pub proof fn lemma_eps_closure_in_dest_set(&self, from: Set<S>)
        ensures
            self.eps_closure(from).subset_of(from.union(self.dest_set())),
    {
        let bound = from.union(self.dest_set());
        self.lemma_step_set_in_dest_set(bound, Transition::Epsilon);
        self.lemma_eps_closure_least(from, bound);
    }

    /// Extends `states` by every state that free moves reach from it. The
    /// states that were listed stay where they are; the new ones follow, each
    /// once.
    pub fn epsilon_closure(&self, states: &mut Vec<S>)
        ensures
            final(states)@.to_set() == self.eps_closure(old(states)@.to_set()),
            old(states)@.is_prefix_of(final(states)@),
            old(states)@.no_duplicates() ==> final(states)@.no_duplicates(),
    {
        let ghost from = old(states)@.to_set();
        let ghost universe = from.union(self.dest_set());
        proof {
            self.lemma_eps_closure_extends(from);
        }
        loop
            invariant
                from == old(states)@.to_set(),
                universe == from.union(self.dest_set()),
                old(states)@.is_prefix_of(states@),
                old(states)@.no_duplicates() ==> states@.no_duplicates(),
                states@.to_set().subset_of(self.eps_closure(from)),
                states@.to_set().subset_of(universe),
            ensures
                self.step_set(states@.to_set(), Transition::Epsilon).subset_of(states@.to_set()),
            decreases universe.len() - states@.to_set().len(),
        {
            let ghost before = states@.to_set();
            let new_states = self.reachable_states(states, Transition::Epsilon);
            let old_len = states.len();
            union_into(states, &new_states);
            proof {
                self.lemma_step_set_in_dest_set(before, Transition::Epsilon);
                assert forall|q: S| new_states@.to_set().contains(q) implies self.eps_closure(
                    from,
                ).contains(q) by {
                    let p = choose|p: S|
                        before.contains(p) && #[trigger] self.delta(
                            p,
                            Transition::Epsilon,
                        ).contains(q);
                    self.lemma_eps_closure_step(from, p, q);
                }
            }
            if old_len == states.len() {
                break;
            }
            proof {
                let x = choose|x: S| new_states@.to_set().contains(x) && !before.contains(x);
                vstd::set_lib::lemma_len_subset(states@.to_set(), universe);
                before.lemma_subset_not_in_lt(states@.to_set(), x);
            }
        }
        proof {
            self.lemma_eps_closure_least(from, states@.to_set());
            assert(states@.to_set() =~= self.eps_closure(from));
        }
    }

    /// Consuming one more symbol advances the set of possible states.
    pub proof fn lemma_states_after_take(&self, input: Seq<I>, k: int)
        requires
            0 <= k < input.len(),
        ensures
            self.states_after(input.take(k + 1)) == self.advance(
                self.states_after(input.take(k)),
                input[k],
            ),
    {
        assert(input.take(k + 1).drop_last() == input.take(k));
    }

    /// The set of possible states is closed under free moves.
    pub proof fn lemma_states_after_step(&self, input: Seq<I>, p: S, q: S)
        requires
            self.states_after(input).contains(p),
            self.delta(p, Transition::Epsilon).contains(q),
        ensures
            self.states_after(input).contains(q),
    {
        if input.len() == 0 {
            self.lemma_eps_closure_step(set![self.start_state()], p, q);
        } else {
            let prev = self.states_after(input.drop_last());
            let from = self.step_set(prev, Transition::Input(input.last())).union(
                self.step_set(prev, Transition::Anything),
            );
            self.lemma_eps_closure_step(from, p, q);
        }
    }

    /// A wildcard or exact move from a possible state at position `k` leads
    /// to a possible state at position `k + 1`.
    pub proof fn lemma_states_after_consume(&self, input: Seq<I>, k: int, p: S, q: S)
        requires
            0 <= k < input.len(),
            self.states_after(input.take(k)).contains(p),
            self.delta(p, Transition::Anything).contains(q) || self.delta(
                p,
                Transition::Input(input[k]),
            ).contains(q),
        ensures
            self.states_after(input.take(k + 1)).contains(q),
    {
        self.lemma_states_after_take(input, k);
        let prev = self.states_after(input.take(k));
        let from = self.step_set(prev, Transition::Input(input[k])).union(
            self.step_set(prev, Transition::Anything),
        );
        assert(from.contains(q));
        self.lemma_eps_closure_extends(from);
    }

    /// A set of configurations that holds the initial one and every successor
    /// of its members holds every possible state at every position.
    pub proof fn lemma_closed_covers(&self, input: Seq<I>, seen: Set<(S, usize)>, k: usize, q: S)
        requires
            seen.contains((self.start_state(), 0usize)),
            forall|c: (S, usize), d: (S, usize)|
                seen.contains(c) && #[trigger] self.successors(input, c).contains(d)
                    ==> seen.contains(d),
            k <= input.len(),
            self.states_after(input.take(k as int)).contains(q),
        ensures
            seen.contains((q, k)),
        decreases k,
    {
        let level = Set::new(|p: S| seen.contains((p, k)));
        assert forall|r: S|
            self.step_set(level, Transition::Epsilon).contains(r) implies level.contains(r) by {
            let p = choose|p: S|
                level.contains(p) && #[trigger] self.delta(p, Transition::Epsilon).contains(r);
            assert(self.successors(input, (p, k)).contains((r, k)));
        }
        if k == 0 {
            assert(input.take(0).len() == 0);
            self.lemma_eps_closure_least(set![self.start_state()], level);
        } else {
            let j: usize = (k - 1) as usize;
            self.lemma_states_after_take(input, j as int);
            let prev = self.states_after(input.take(j as int));
            let from = self.step_set(prev, Transition::Input(input[j as int])).union(
                self.step_set(prev, Transition::Anything),
            );
            assert forall|r: S| from.contains(r) implies level.contains(r) by {
                if self.step_set(prev, Transition::Input(input[j as int])).contains(r) {
                    let p = choose|p: S|
                        prev.contains(p) && #[trigger] self.delta(
                            p,
                            Transition::Input(input[j as int]),
                        ).contains(r);
                    self.lemma_closed_covers(input, seen, j, p);
                    assert(self.successors(input, (p, j)).contains((r, k)));
                } else {
                    let p = choose|p: S|
                        prev.contains(p) && #[trigger] self.delta(
                            p,
                            Transition::Anything,
                        ).contains(r);
                    self.lemma_closed_covers(input, seen, j, p);
                    assert(self.successors(input, (p, j)).contains((r, k)));
                }
            }
            self.lemma_eps_closure_least(from, level);
        }
    }

    /// An execution ends at a position of the input, in a state that is
    /// possible there.
    pub proof fn lemma_execution_is_possible(&self, input: Seq<I>, path: Seq<(S, usize)>)
        requires
            self.is_execution(input, path),
        ensures
            path.last().1 <= input.len(),
            self.states_after(input.take(path.last().1 as int)).contains(path.last().0),
        decreases path.len(),
    {
        if path.len() == 1 {
            assert(input.take(0).len() == 0);
            self.lemma_eps_closure_extends(set![self.start_state()]);
            assert(set![self.start_state()].contains(self.start_state()));
        } else {
            let shorter = path.drop_last();
            assert forall|i: int| 0 <= i < shorter.len() - 1 implies self.successors(
                input,
                #[trigger] shorter[i],
            ).contains(shorter[i + 1]) by {
                assert(shorter[i] == path[i]);
                assert(shorter[i + 1] == path[i + 1]);
            }
            self.lemma_execution_is_possible(input, shorter);
            let c = path[path.len() - 2];
            let d = path.last();
            assert(shorter.last() == c);
            assert(self.successors(input, c).contains(d));
            if d.1 == c.1 && self.delta(c.0, Transition::Epsilon).contains(d.0) {
                self.lemma_states_after_step(input.take(c.1 as int), c.0, d.0);
            } else {
                self.lemma_states_after_consume(input, c.1 as int, c.0, d.0);
            }
        }
    }

    /// A state is possible at a position of the input exactly if some
    /// execution ends in it there.
    pub proof fn lemma_possible_iff_reached(&self, input: Seq<I>, k: usize, q: S)
        requires
            k <= input.len(),
        ensures
            self.states_after(input.take(k as int)).contains(q) <==> self.reaches(input, (q, k)),
    {
        if self.reaches(input, (q, k)) {
            let path = choose|path: Seq<(S, usize)>|
                #[trigger] self.is_execution(input, path) && path.last() == (q, k);
            self.lemma_execution_is_possible(input, path);
        }
        if self.states_after(input.take(k as int)).contains(q) {
            let reached = Set::new(|c: (S, usize)| self.reaches(input, c));
            let first = seq![(self.start_state(), 0usize)];
            assert(self.is_execution(input, first));
            assert(first.last() == (self.start_state(), 0usize));
            assert forall|c: (S, usize), d: (S, usize)|
                reached.contains(c) && #[trigger] self.successors(input, c).contains(
                    d,
                ) implies reached.contains(d) by {
                let path = choose|path: Seq<(S, usize)>|
                    #[trigger] self.is_execution(input, path) && path.last() == c;
                let longer = path.push(d);
                assert forall|i: int| 0 <= i < longer.len() - 1 implies self.successors(
                    input,
                    #[trigger] longer[i],
                ).contains(longer[i + 1]) by {
                    if i < path.len() - 1 {
                        assert(longer[i] == path[i]);
                        assert(longer[i + 1] == path[i + 1]);
                    }
                }
                assert(self.is_execution(input, longer));
                assert(longer.last() == d);
            }
            self.lemma_closed_covers(input, reached, k, q);
        }
    }

    /// An input is accepted exactly if some execution ends in an accept state
    /// at the end of the input.
    pub proof fn lemma_recognizes_iff_execution(&self, input: Seq<I>)
        requires
            input.len() <= usize::MAX,
        ensures
            self.recognizes(input) <==> exists|q: S|
                #[trigger] self.reaches(input, (q, input.len() as usize))
                    && self.accept_set().contains(q),
    {
        let n = input.len() as usize;
        assert(input.take(n as int) == input);
        if self.recognizes(input) {
            let q = choose|q: S|
                #[trigger] self.states_after(input).contains(q) && self.accept_set().contains(q);
            self.lemma_possible_iff_reached(input, n, q);
        }
        if exists|q: S| #[trigger] self.reaches(input, (q, n)) && self.accept_set().contains(q) {
            let q = choose|q: S|
                #[trigger] self.reaches(input, (q, n)) && self.accept_set().contains(q);
            self.lemma_possible_iff_reached(input, n, q);
        }
    }

    /// Some state that is both in `states` and an accept state, or `None`
    /// where there is none. The shorter of the two lists is walked.
    pub fn get_accept(&self, states: &Vec<S>) -> (r: Option<S>)
        ensures
            match r {
                Some(s) => states@.contains(s) && self.accept_set().contains(s),
                None => states@.to_set().disjoint(self.accept_set()),
            },
    {
        let (set, other) = if states.len() < self.accept_states.len() {
            (states, &self.accept_states)
        } else {
            (&self.accept_states, states)
        };
        let mut i: usize = 0;
        while i < set.len()
            invariant
                i <= set.len(),
                (set@ == states@ && other@ == self.accept_states@) || (set@
                    == self.accept_states@ && other@ == states@),
                forall|j: int| 0 <= j < i ==> !other@.contains(#[trigger] set@[j]),
            decreases set.len() - i,
        {
            let s = set[i];
            if contains(other, s) {
                return Some(s);
            }
            i += 1;
        }
        assert forall|q: S| !(states@.to_set().contains(q) && self.accept_set().contains(q)) by {
            if set@.contains(q) && other@.contains(q) {
                let j = choose|j: int| 0 <= j < set@.len() && set@[j] == q;
                assert(!other@.contains(set@[j]));
            }
        }
        None
    }

    /// The states reached from any state of `states` by one transition
    /// labelled `input`, each listed once.
    pub fn reachable_states(&self, states: &Vec<S>, input: Transition<I>) -> (r: Vec<S>)
        ensures
            r@.to_set() == self.step_set(states@.to_set(), input),
            r@.no_duplicates(),
    {
        let mut reachable_states: Vec<S> = Vec::new();
        let mut i: usize = 0;
        while i < states.len()
            invariant
                i <= states.len(),
                reachable_states@.no_duplicates(),
                reachable_states@.to_set() == self.step_set(
                    states@.take(i as int).to_set(),
                    input,
                ),
            decreases states.len() - i,
        {
            let ghost before = reachable_states@.to_set();
            let s = states[i];
            match find_key(&self.transitions, s, input) {
                Some(k) => {
                    union_into(&mut reachable_states, &self.transitions[k].1);
                    assert(self.transitions@[k as int].1@ == self.dests(s, input));
                },
                None => {
                    assert(self.dests(s, input) == Seq::<S>::empty());
                    assert(self.delta(s, input) =~= Set::<S>::empty());
                },
            }
            proof {
                assert(reachable_states@.to_set() =~= before.union(self.delta(s, input)));
                let seen = states@.take(i as int);
                assert(states@.take(i + 1) == seen.push(s));
                seen.lemma_push_to_set_commute(s);
                assert(self.step_set(seen.push(s).to_set(), input) =~= before.union(
                    self.delta(s, input),
                ));
            }
            i += 1;
        }
        assert(states@.take(states@.len() as int) == states@);
        reachable_states
    }
}

impl<'a, S: Atom, I: Atom> NFAIter<'a, S, I> {
    /// The configurations that wait to be visited, the next one first.
    pub closed spec fn pending(&self) -> Seq<(S, usize)> {
        self.queue@.map_values(|c: (&S, usize)| (*c.0, c.1))
    }

    /// The input that is walked over.
    pub closed spec fn input(&self) -> Seq<I> {
        self.input@
    }

    /// The transition table that is walked through.
    pub closed spec fn table(&self) -> Seq<((S, Transition<I>), Vec<S>)> {
        self.transitions@
    }

    /// Enqueues each destination of `(state, label)` at `pos`.
    fn enqueue(&mut self, state: S, label: Transition<I>, pos: usize)
        ensures
            final(self).pending() == old(self).pending() + at_position(
                table_dests(old(self).table(), state, label),
                pos,
            ),
            final(self).input() == old(self).input(),
            final(self).table() == old(self).table(),
    {
        let table: &'a Vec<((S, Transition<I>), Vec<S>)> = self.transitions;
        match find_key(table, state, label) {
            Some(k) => {
                let dests: &'a Vec<S> = &table[k].1;
                let mut j: usize = 0;
                while j < dests.len()
                    invariant
                        j <= dests.len(),
                        self.pending() == old(self).pending() + at_position(
                            dests@.take(j as int),
                            pos,
                        ),
                        self.input() == old(self).input(),
                        self.table() == old(self).table(),
                    decreases dests.len() - j,
                {
                    let ghost before = self.pending();
                    self.queue.push_back((&dests[j], pos));
                    proof {
                        assert(self.pending() =~= before.push((dests@[j as int], pos)));
                        assert(dests@.take(j + 1) == dests@.take(j as int).push(dests@[j as int]));
                        assert(at_position(dests@.take(j + 1), pos) =~= at_position(
                            dests@.take(j as int),
                            pos,
                        ).push((dests@[j as int], pos)));
                        assert(self.pending() =~= old(self).pending() + at_position(
                            dests@.take(j + 1),
                            pos,
                        ));
                    }
                    j += 1;
                }
                assert(dests@.take(dests@.len() as int) == dests@);
            },
            None => {
                assert(self.pending() =~= old(self).pending() + at_position(
                    Seq::<S>::empty(),
                    pos,
                ));
            },
        }
    }

    /// Hands out the state of the next waiting configuration, or `None` once
    /// none waits.
    ///
    /// The configuration leaves the queue and its successors join it at the
    /// back. A configuration is visited as often as it is reached: over an
    /// automaton with a cycle of free moves the walk does not end.
    pub fn next(&mut self) -> (r: Option<&'a S>)
        ensures
            match r {
                Some(s) => old(self).pending().len() > 0 && *s == old(self).pending()[0].0,
                None => old(self).pending().len() == 0,
            },
            final(self).pending() == walk_step(
                old(self).table(),
                old(self).input(),
                old(self).pending(),
            ),
            final(self).input() == old(self).input(),
            final(self).table() == old(self).table(),
    {
        match self.queue.pop_front() {
            None => None,
            Some((state, pos)) => {
                assert(self.pending() =~= old(self).pending().skip(1));
                self.enqueue(*state, Transition::Epsilon, pos);
                if pos < self.input.len() {
                    let c = self.input[pos];
                    self.enqueue(*state, Transition::Anything, pos + 1);
                    self.enqueue(*state, Transition::Input(c), pos + 1);
                }
                Some(state)
            },
        }
    }

    /// A guess at the number of states still to come: nothing is known.
    pub fn size_hint(&self) -> (r: (usize, Option<usize>))
        ensures
            r.0 == 0,
            r.1 is None,
    {
        (0, None)
    }
}

/// Whether the configuration `(state, pos)` occurs in `seen`.
fn seen_contains<S: Atom>(seen: &Vec<(S, usize)>, state: S, pos: usize) -> (r: bool)
    ensures
        r == seen@.contains((state, pos)),
{
    let mut i: usize = 0;
    while i < seen.len()
        invariant
            i <= seen.len(),
            forall|j: int| 0 <= j < i ==> seen@[j] != (state, pos),
        decreases seen.len() - i,
    {
        if seen[i].0.same(&state) && seen[i].1 == pos {
            return true;
        }
        i += 1;
    }
    false
}

impl<S: Atom, I: Atom> NFA<S, I> {
    /// Enqueues the configurations `(d, pos)`, for each destination `d` of
    /// `(state, label)`, that were not seen yet, and lists them as seen.
    fn enqueue_unseen(
        &self,
        queue: &mut VecDeque<(S, usize)>,
        seen: &mut Vec<(S, usize)>,
        state: S,
        label: Transition<I>,
        pos: usize,
    )
        ensures
            old(seen)@.is_prefix_of(final(seen)@),
            old(seen)@.no_duplicates() ==> final(seen)@.no_duplicates(),
            forall|c: (S, usize)|
                final(seen)@.contains(c) <==> old(seen)@.contains(c) || (c.1 == pos
                    && self.delta(state, label).contains(c.0)),
            final(queue)@ == old(queue)@ + final(seen)@.skip(old(seen)@.len() as int),
    {
        assert(queue@ =~= old(queue)@ + seen@.skip(old(seen)@.len() as int));
        match find_key(&self.transitions, state, label) {
            Some(k) => {
                let dests = &self.transitions[k].1;
                assert(dests@ == self.dests(state, label));
                let mut j: usize = 0;
                while j < dests.len()
                    invariant
                        j <= dests.len(),
                        old(seen)@.is_prefix_of(seen@),
                        old(seen)@.no_duplicates() ==> seen@.no_duplicates(),
                        forall|c: (S, usize)|
                            seen@.contains(c) <==> old(seen)@.contains(c) || (c.1 == pos
                                && dests@.take(j as int).contains(c.0)),
                        queue@ == old(queue)@ + seen@.skip(old(seen)@.len() as int),
                    decreases dests.len() - j,
                {
                    let d = dests[j];
                    let ghost before = seen@;
                    if !seen_contains(seen, d, pos) {
                        seen.push((d, pos));
                        queue.push_back((d, pos));
                        assert forall|c: (S, usize)|
                            seen@.contains(c) <==> before.contains(c) || c == (d, pos) by {
                            lemma_seq_contains_after_push(before, (d, pos), c);
                        }
                        assert(queue@ =~= old(queue)@ + seen@.skip(old(seen)@.len() as int));
                    }
                    proof {
                        assert forall|x: S|
                            dests@.take(j + 1).contains(x) <==> dests@.take(j as int).contains(x)
                                || x == d by {
                            lemma_take_next_contains(dests@, j as int, x);
                        }
                    }
                    j += 1;
                }
                assert(dests@.take(dests@.len() as int) == dests@);
            },
            None => {
                assert(self.dests(state, label) == Seq::<S>::empty());
            },
        }
    }
}

impl<S: Atom, I: Atom> Automaton for NFA<S, I> {
    type State = S;

    type Alphabet = I;

    open spec fn accepts(&self, input: Seq<I>) -> bool {
        self.recognizes(input)
    }

    /// Explores the configurations breadth first, each once, so that the
    /// search ends whatever cycles of free moves the automaton has.
    fn run(&self, s: Vec<I>) -> (r: Option<Vec<I>>) {
        let n = s.len();
        let ghost base = set![self.start_state()].union(self.dest_set());
        let ghost universe = pairs_upto(base, n);
        let mut queue: VecDeque<(S, usize)> = VecDeque::new();
        let mut seen: Vec<(S, usize)> = Vec::new();
        queue.push_back((self.start, 0));
        seen.push((self.start, 0));
        let ghost mut head: int = 0;
        proof {
            lemma_pairs_upto_finite(base, n);
            assert(s@.take(0).len() == 0);
            self.lemma_eps_closure_extends(set![self.start_state()]);
            assert(set![self.start_state()].contains(self.start_state()));
            assert(queue@ =~= seen@.skip(0));
        }
        loop
            invariant
                n == s@.len(),
                base == set![self.start_state()].union(self.dest_set()),
                universe == pairs_upto(base, n),
                universe.finite(),
                0 <= head <= seen@.len(),
                queue@ == seen@.skip(head),
                seen@.len() >= 1,
                seen@[0] == (self.start_state(), 0usize),
                seen@.no_duplicates(),
                forall|i: int|
                    0 <= i < seen@.len() ==> universe.contains(#[trigger] seen@[i])
                        && self.states_after(s@.take(seen@[i].1 as int)).contains(seen@[i].0),
                forall|i: int, d: (S, usize)|
                    0 <= i < head && #[trigger] self.successors(s@, seen@[i]).contains(d)
                        ==> seen@.contains(d),
                forall|i: int|
                    0 <= i < head ==> !((#[trigger] seen@[i]).1 == n && self.accept_set().contains(
                        seen@[i].0,
                    )),
            decreases universe.len() - head,
        {
            let ghost before = seen@;
            proof {
                seen@.unique_seq_to_set();
                vstd::set_lib::lemma_len_subset(seen@.to_set(), universe);
            }
            match queue.pop_front() {
                None => {
                    proof {
                        // The list holds the successors of all its
                        // configurations, hence every possible state at every
                        // position; none accepts at the end.
                        assert(head == seen@.len());
                        if self.recognizes(s@) {
                            let q = choose|q: S|
                                #[trigger] self.states_after(s@).contains(q)
                                    && self.accept_set().contains(q);
                            assert(s@.take(n as int) == s@);
                            assert forall|c: (S, usize), d: (S, usize)|
                                seen@.to_set().contains(c) && #[trigger] self.successors(
                                    s@,
                                    c,
                                ).contains(d) implies seen@.to_set().contains(d) by {
                                let i = choose|i: int| 0 <= i < seen@.len() && seen@[i] == c;
                                assert(self.successors(s@, seen@[i]).contains(d));
                            }
                            assert(seen@.contains(seen@[0]));
                            self.lemma_closed_covers(s@, seen@.to_set(), n, q);
                            let i = choose|i: int| 0 <= i < seen@.len() && seen@[i] == (q, n);
                            assert(false);
                        }
                    }
                    return None;
                },
                Some((state, pos)) => {
                    assert((state, pos) == seen@[head]);
                    assert(queue@ =~= seen@.skip(head + 1));
                    if pos == n && contains(&self.accept_states, state) {
                        proof {
                            assert(s@.take(n as int) == s@);
                            assert(self.states_after(s@).contains(state));
                        }
                        return Some(s);
                    }
                    self.enqueue_unseen(&mut queue, &mut seen, state, Transition::Epsilon, pos);
                    if pos < n {
                        self.enqueue_unseen(
                            &mut queue,
                            &mut seen,
                            state,
                            Transition::Anything,
                            pos + 1,
                        );
                        self.enqueue_unseen(
                            &mut queue,
                            &mut seen,
                            state,
                            Transition::Input(s[pos]),
                            pos + 1,
                        );
                    }
                    proof {
                        // What joined the list is a possible state at its position.
                        assert forall|i: int| 0 <= i < seen@.len() implies universe.contains(
                            #[trigger] seen@[i],
                        ) && self.states_after(s@.take(seen@[i].1 as int)).contains(
                            seen@[i].0,
                        ) by {
                            let c = seen@[i];
                            assert(seen@.contains(c));
                            if before.contains(c) {
                                let k = choose|k: int| 0 <= k < before.len() && before[k] == c;
                                assert(universe.contains(before[k]));
                            } else if c.1 == pos {
                                self.lemma_delta_in_dest_set(state, Transition::Epsilon, c.0);
                                self.lemma_states_after_step(s@.take(pos as int), state, c.0);
                            } else {
                                if self.delta(state, Transition::Anything).contains(c.0) {
                                    self.lemma_delta_in_dest_set(state, Transition::Anything, c.0);
                                } else {
                                    self.lemma_delta_in_dest_set(
                                        state,
                                        Transition::Input(s@[pos as int]),
                                        c.0,
                                    );
                                }
                                self.lemma_states_after_consume(s@, pos as int, state, c.0);
                            }
                        }
                        // The configuration that was left has its successors in the list.
                        assert forall|i: int, d: (S, usize)|
                            0 <= i < head + 1 && #[trigger] self.successors(s@, seen@[i]).contains(
                                d,
                            ) implies seen@.contains(d) by {
                            assert(seen@[i] == before[i]);
                            if i < head {
                                assert(before.contains(d));
                            }
                        }
                        assert forall|i: int| 0 <= i < head + 1 implies !((#[trigger] seen@[i]).1
                            == n && self.accept_set().contains(seen@[i].0)) by {
                            assert(seen@[i] == before[i]);
                        }
                        assert(seen@[0] == before[0]);
                        assert(queue@ =~= seen@.skip(head + 1));
                        head = head + 1;
                    }
                },
            }
        }
    }
}

} // verus!
