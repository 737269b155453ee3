//! Finite automata over arbitrary symbols and state identifiers:
//! nondeterministic automata with exact, wildcard and free moves,
//! deterministic automata, simulation of both, and the subset construction
//! that turns the first into the second.

use vstd::prelude::*;

pub mod atom;
pub mod conversion;
pub mod dfa;
pub mod nfa;
pub mod powerset;
pub mod sets;
pub mod subset;
pub mod table;
pub mod walk;

pub use atom::Atom;
pub use dfa::DFA;
pub use nfa::{Transition, NFA};

verus! {

/// What the two kinds of automaton have in common: they decide whether a
/// finite input is accepted.
pub trait Automaton {
    type State;

    type Alphabet;

    /// Whether the automaton accepts `input`.
    spec fn accepts(&self, input: Seq<Self::Alphabet>) -> bool;

    /// Runs the automaton over the whole of `s`. An accepted input comes
    /// back as the consumed symbols, which are all of `s`; any other input
    /// gives `None`.
    fn run(&self, s: Vec<Self::Alphabet>) -> (r: Option<Vec<Self::Alphabet>>)
        ensures
            r is Some <==> self.accepts(s@),
            r matches Some(p) ==> p@ == s@,
    ;
}

/// Running an automaton twice on one input gives one result: whatever two
/// runs return, both are `None`, or both are the same symbols.
pub proof fn lemma_run_deterministic<A: Automaton>(
    automaton: &A,
    input: Seq<A::Alphabet>,
    first: Option<Seq<A::Alphabet>>,
    second: Option<Seq<A::Alphabet>>,
)
    requires
        first is Some <==> automaton.accepts(input),
        first matches Some(p) ==> p == input,
        second is Some <==> automaton.accepts(input),
        second matches Some(p) ==> p == input,
    ensures
        first == second,
{
}

} // verus!
