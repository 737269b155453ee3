//! Deterministic finite automata.

use vstd::prelude::*;
use crate::atom::Atom;
use crate::nfa::Transition;
use crate::sets::contains;
use crate::table::{assoc_get, find_key, is_last_with_key, lemma_assoc_get_last};
use crate::Automaton;

verus! {

/// A deterministic automaton: a start state, accept states, and a table
/// from `(state, label)` to the one destination state.
#[derive(Debug, Clone)]
pub struct DFA<S: Atom = usize, I: Atom = char> {
    pub start: S,
    pub accept_states: Vec<S>,
    pub transitions: Vec<((S, Transition<I>), S)>,
}

/// A walk of a deterministic automaton over one input, state by state.
pub struct DFAIter<'a, S: Atom, I: Atom> {
    input: Vec<I>,
    transitions: &'a Vec<((S, Transition<I>), S)>,
    pos: usize,
    cur_state: &'a S,
    finished: bool,
}

/// The state that the table leads to from `s` on the symbol `c`: by the
/// entry for exactly `c` where there is one, else by the wildcard entry.
pub open spec fn table_step<S, I>(table: Seq<((S, Transition<I>), S)>, s: S, c: I) -> Option<S> {
    match assoc_get(table, (s, Transition::Input(c))) {
        Some(t) => Some(t),
        None => assoc_get(table, (s, Transition::Anything)),
    }
}

/// The states that a walk visits from `s` at position `pos` of `input`: one
/// for each symbol consumed, and the state in which the walk ends, be it at
/// the end of the input or at a symbol that the table has no move for.
pub open spec fn table_trace<S, I>(
    table: Seq<((S, Transition<I>), S)>,
    s: S,
    input: Seq<I>,
    pos: int,
) -> Seq<S>
    decreases input.len() - pos,
{
    if 0 <= pos < input.len() {
        match table_step(table, s, input[pos]) {
            Some(t) => seq![s] + table_trace(table, t, input, pos + 1),
            None => seq![s],
        }
    } else {
        seq![s]
    }
}

/// A walk from position `pos` visits at least the state it starts in, which
/// comes first, and at most one more state than symbols are left.
pub proof fn lemma_table_trace_bounds<S, I>(
    table: Seq<((S, Transition<I>), S)>,
    s: S,
    input: Seq<I>,
    pos: int,
)
    requires
        0 <= pos <= input.len(),
    ensures
        1 <= table_trace(table, s, input, pos).len() <= input.len() - pos + 1,
        table_trace(table, s, input, pos)[0] == s,
    decreases input.len() - pos,
{
    if pos < input.len() {
        match table_step(table, s, input[pos]) {
            Some(t) => {
                lemma_table_trace_bounds(table, t, input, pos + 1);
            },
            None => {},
        }
    }
}

/// The table's move from `state` on `c`, as `table_step` defines it.
pub fn lookup_step<'a, S: Atom, I: Atom>(
    table: &'a Vec<((S, Transition<I>), S)>,
    state: S,
    c: I,
) -> (r: Option<&'a S>)
    ensures
        match r {
            Some(t) => table_step(table@, state, c) == Some(*t),
            None => table_step(table@, state, c) is None,
        },
{
    match find_key(table, state, Transition::Input(c)) {
        Some(k) => Some(&table[k].1),
        None => {
            match find_key(table, state, Transition::Anything) {
                Some(k) => Some(&table[k].1),
                None => None,
            }
        },
    }
}

impl<S: Atom, I: Atom> DFA<S, I> {
    /// The set of accept states.
    pub open spec fn accept_set(&self) -> Set<S> {
        self.accept_states@.to_set()
    }

    /// The destination that the table gives for `(s, l)`.
    pub open spec fn delta(&self, s: S, l: Transition<I>) -> Option<S> {
        assoc_get(self.transitions@, (s, l))
    }

    /// The move from `s` on the symbol `c`: the exact one where the table
    /// has it, else the wildcard one.
    pub open spec fn step(&self, s: S, c: I) -> Option<S> {
        table_step(self.transitions@, s, c)
    }

    /// The state after consuming all of `input` from the start state, or
    /// `None` where some symbol has no move.
    pub open spec fn state_after(&self, input: Seq<I>) -> Option<S>
        decreases input.len(),
    {
        if input.len() == 0 {
            Some(self.start)
        } else {
            match self.state_after(input.drop_last()) {
                Some(q) => self.step(q, input.last()),
                None => None,
            }
        }
    }

    /// Whether every symbol of `input` can be consumed and the state reached
    /// at its end is an accept state.
    pub open spec fn recognizes(&self, input: Seq<I>) -> bool {
        match self.state_after(input) {
            Some(q) => self.accept_set().contains(q),
            None => false,
        }
    }

    /// The states that the automaton uses: the start state, the accept
    /// states, and the states that a move of the table leaves or leads to.
    pub open spec fn states(&self) -> Set<S> {
        Set::new(
            |q: S|
                {
                    ||| q == self.start
                    ||| self.accept_set().contains(q)
                    ||| exists|a: Transition<I>| #[trigger] self.delta(q, a) is Some
                    ||| exists|p: S, a: Transition<I>| #[trigger] self.delta(p, a) == Some(q)
                },
        )
    }

    /// The states that a walk over `input` visits, as `iter` hands them out.
    pub open spec fn trace(&self, input: Seq<I>) -> Seq<S> {
        table_trace(self.transitions@, self.start, input, 0)
    }

    /// Builds an automaton from its parts. Nothing is checked.
    pub fn new(start: S, accept_states: Vec<S>, transitions: Vec<((S, Transition<I>), S)>) -> (dfa:
        DFA<S, I>)
        ensures
            dfa.start == start,
            dfa.accept_states@ == accept_states@,
            dfa.transitions@ == transitions@,
    {
        DFA { start: start, accept_states: accept_states, transitions: transitions }
    }

    /// The accept states, as they were given.
    pub fn get_accept_states(&self) -> (r: &Vec<S>)
        ensures
            r@ == self.accept_states@,
    {
        &self.accept_states
    }

    /// The start state.
    pub fn get_start_state(&self) -> (r: &S)
        ensures
            *r == self.start,
    {
        &self.start
    }

    /// The transition table, as it was given.
    pub fn get_transitions(&self) -> (r: &Vec<((S, Transition<I>), S)>)
        ensures
            r@ == self.transitions@,
    {
        &self.transitions
    }

    /// Starts a walk over `input` from the start state.
    pub fn iter(&self, input: Vec<I>) -> (it: DFAIter<'_, S, I>)
        ensures
            it.remaining() == self.trace(input@),
            it.input_len() == input@.len(),
    {
        DFAIter {
            input: input,
            transitions: &self.transitions,
            cur_state: &self.start,
            pos: 0,
            finished: false,
        }
    }
}

impl<'a, S: Atom, I: Atom> DFAIter<'a, S, I> {
    /// The walk never stands beyond the end of its input.
    #[verifier::type_invariant]
    spec fn within_input(&self) -> bool {
        self.pos <= self.input@.len()
    }

    /// The states that the walk has yet to hand out, in order.
    pub closed spec fn remaining(&self) -> Seq<S> {
        if self.finished {
            Seq::empty()
        } else {
            table_trace(self.transitions@, *self.cur_state, self.input@, self.pos as int)
        }
    }

    /// The length of the input that is walked over.
    pub closed spec fn input_len(&self) -> nat {
        self.input@.len()
    }

    /// Hands out the next state of the walk, or `None` once the walk is over.
    ///
    /// Each symbol that has a move yields the state it was consumed in. The
    /// walk ends by yielding the state it stopped in: at the end of the input,
    /// or at the first symbol without a move.
    pub fn next(&mut self) -> (r: Option<&'a S>)
        ensures
            match r {
                Some(s) => old(self).remaining().len() > 0 && *s == old(self).remaining()[0]
                    && final(self).remaining() == old(self).remaining().skip(1),
                None => old(self).remaining().len() == 0 && final(self).remaining().len() == 0,
            },
            final(self).input_len() == old(self).input_len(),
    {
        proof {
            use_type_invariant(&*self);
        }
        if self.finished {
            None
        } else if self.pos == self.input.len() {
            self.finished = true;
            let ret = self.cur_state;
            Some(ret)
        } else {
            let c = self.input[self.pos];
            let ret = self.cur_state;
            match lookup_step(self.transitions, *self.cur_state, c) {
                Some(s) => {
                    self.pos += 1;
                    self.cur_state = s;
                    Some(ret)
                },
                None => {
                    self.finished = true;
                    Some(ret)
                },
            }
        }
    }

    /// A guess at the number of states still to come: the length of the
    /// input, as lower and as upper bound.
    pub fn size_hint(&self) -> (r: (usize, Option<usize>))
        ensures
            r.0 == self.input_len(),
            r.1 == Some(r.0),
    {
        (self.input.len(), Some(self.input.len()))
    }
}

impl<S: Atom, I: Atom> Automaton for DFA<S, I> {
    type State = S;

    type Alphabet = I;

    open spec fn accepts(&self, input: Seq<I>) -> bool {
        self.recognizes(input)
    }

    /// Takes for each symbol the one move that the table has for it: the
    /// exact one, else the wildcard one. The first symbol without a move
    /// fails the run, whatever was consumed before it.
    fn run(&self, s: Vec<I>) -> (r: Option<Vec<I>>) {
        let mut cur_state = self.start;
        let mut i: usize = 0;
        while i < s.len()
            invariant
                i <= s.len(),
                self.state_after(s@.take(i as int)) == Some(cur_state),
            decreases s.len() - i,
        {
            let c = s[i];
            proof {
                assert(s@.take(i + 1).drop_last() == s@.take(i as int));
            }
            match lookup_step(&self.transitions, cur_state, c) {
                Some(t) => {
                    cur_state = *t;
                },
                None => {
                    proof {
                        self.lemma_stuck(s@, i + 1);
                    }
                    return None;
                },
            }
            i += 1;
        }
        assert(s@.take(s@.len() as int) == s@);
        if contains(&self.accept_states, cur_state) {
            Some(s)
        } else {
            None
        }
    }
}

impl<S: Atom, I: Atom> DFA<S, I> {
    /// A key has one destination, whichever entries the table lists for it:
    /// only one entry is the last with the key, and it decides.
    pub proof fn lemma_one_destination(&self, s: S, l: Transition<I>, i: int, j: int)
        requires
            is_last_with_key(self.transitions@, (s, l), i),
            is_last_with_key(self.transitions@, (s, l), j),
        ensures
            i == j,
            self.delta(s, l) == Some(self.transitions@[i].1),
    {
        lemma_assoc_get_last(self.transitions@, (s, l), i);
    }

    /// A walk hands out at least one state, the start state first, and at
    /// most one more state than the input has symbols.
    pub proof fn lemma_trace_bounds(&self, input: Seq<I>)
        ensures
            1 <= self.trace(input).len() <= input.len() + 1,
            self.trace(input)[0] == self.start,
    {
        lemma_table_trace_bounds(self.transitions@, self.start, input, 0);
    }

    /// A walk that goes on from `s` at position `pos`, where `s` is the state
    /// after the first `pos` symbols, visits the state after each longer
    /// prefix that can be consumed, and no other.
    pub proof fn lemma_walk_follows_run(&self, s: S, input: Seq<I>, pos: int, k: int)
        requires
            0 <= pos <= input.len(),
            self.state_after(input.take(pos)) == Some(s),
            0 <= k <= input.len() - pos,
        ensures
            k < table_trace(self.transitions@, s, input, pos).len() <==> self.state_after(
                input.take(pos + k),
            ) is Some,
            k < table_trace(self.transitions@, s, input, pos).len() ==> self.state_after(
                input.take(pos + k),
            ) == Some(table_trace(self.transitions@, s, input, pos)[k]),
        decreases k,
    {
        if k > 0 {
            assert(input.take(pos + 1).drop_last() == input.take(pos));
            match self.step(s, input[pos]) {
                Some(t) => {
                    self.lemma_walk_follows_run(t, input, pos + 1, k - 1);
                },
                None => {
                    assert(input.take(pos + k).take(pos + 1) == input.take(pos + 1));
                    self.lemma_stuck(input.take(pos + k), pos + 1);
                },
            }
        }
    }

    /// The walk over an input visits the states in which the automaton is
    /// after each prefix that it can consume; it visits one more state than
    /// the input has symbols exactly if the whole input can be consumed.
    pub proof fn lemma_trace_follows_run(&self, input: Seq<I>, k: int)
        requires
            0 <= k <= input.len(),
        ensures
            k < self.trace(input).len() <==> self.state_after(input.take(k)) is Some,
            k < self.trace(input).len() ==> self.state_after(input.take(k)) == Some(
                self.trace(input)[k],
            ),
    {
        self.lemma_walk_follows_run(self.start, input, 0, k);
    }

    /// Once a prefix cannot be consumed, no longer prefix can.
    pub proof fn lemma_stuck(&self, input: Seq<I>, k: int)
        requires
            0 <= k <= input.len(),
            self.state_after(input.take(k)) is None,
        ensures
            self.state_after(input) is None,
        decreases input.len() - k,
    {
        if k < input.len() {
            assert(input.take(k + 1).drop_last() == input.take(k));
            self.lemma_stuck(input, k + 1);
        } else {
            assert(input.take(k) == input);
        }
    }
}

} // verus!
