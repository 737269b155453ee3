//! What the subset construction guarantees: the automaton it builds is
//! determined by the automaton it is built from, accepts what that automaton
//! accepts, and has at most as many states as there are sets of its states.

use vstd::arithmetic::power2::{lemma_pow2_strictly_increases, pow2};
use vstd::prelude::*;
use vstd::set_lib::lemma_len_subset;
use crate::atom::Atom;
use crate::dfa::DFA;
use crate::nfa::{Transition, NFA};
use crate::powerset::lemma_distinct_subsets_bound;
use crate::sets::{below, lemma_below_len};
use crate::subset::precedes;
use crate::Automaton;

verus! {

/// Two subset constructions of one automaton that agree on the subsets
/// numbered below `j` do not find the subset numbered `j` at different places.
proof fn lemma_found_at_same_place<S: Atom, I: Atom>(
    nfa: &NFA<S, I>,
    first: &DFA<usize, I>,
    second: &DFA<usize, I>,
    subsets1: Seq<Set<S>>,
    subsets2: Seq<Set<S>>,
    j: int,
    i1: int,
    k1: int,
    i2: int,
    k2: int,
)
    requires
        nfa.subset_construction(first, subsets1),
        nfa.subset_construction(second, subsets2),
        1 <= j < subsets1.len(),
        j < subsets2.len(),
        forall|i: int| 0 <= i < j ==> subsets1[i] == subsets2[i],
        nfa.found_at(subsets1, j, i1, k1),
        nfa.found_at(subsets2, j, i2, k2),
    ensures
        !precedes(i1, k1, i2, k2),
{
    if precedes(i1, k1, i2, k2) {
        // The second construction, too, moves from the subset `i1` on the
        // label `k1` to the subset that the first numbers `j`. Whatever
        // number it gives that subset, something is contradicted.
        let a = nfa.labels()[k1];
        let reach = subsets1[j];
        nfa.lemma_labels_are_alphabet();
        assert(nfa.target(subsets2, i1, k1) == reach);
        let q = choose|q: S| reach.contains(q);
        assert(nfa.subset_step(subsets2[i1], a).contains(q));
        assert(nfa.expands(subsets2, i1 as usize, a));
        let t = second.delta(i1 as usize, a).unwrap();
        assert(subsets2[t as int] == reach);
        if t < j {
            // The first construction would list the subset twice.
            assert(subsets1[t as int] == subsets1[j]);
        } else if t > j {
            // The second would find a later subset before an earlier one.
            assert(nfa.found(subsets2, t as int));
            let (i3, k3) = choose|i3: int, k3: int|
                #[trigger] nfa.found_at(subsets2, t as int, i3, k3);
            assert(precedes(i2, k2, i3, k3));
        }
        // Where `t` is `j`, the second finds the subset before `(i2, k2)`.
    }
}

/// Two subset constructions of one automaton give the same subset the same
/// number.
proof fn lemma_subsets_agree<S: Atom, I: Atom>(
    nfa: &NFA<S, I>,
    first: &DFA<usize, I>,
    second: &DFA<usize, I>,
    subsets1: Seq<Set<S>>,
    subsets2: Seq<Set<S>>,
    j: int,
)
    requires
        nfa.subset_construction(first, subsets1),
        nfa.subset_construction(second, subsets2),
        0 <= j < subsets1.len(),
        j < subsets2.len(),
    ensures
        forall|i: int| 0 <= i <= j ==> subsets1[i] == subsets2[i],
    decreases j,
{
    if j > 0 {
        lemma_subsets_agree(nfa, first, second, subsets1, subsets2, j - 1);
        assert(nfa.found(subsets1, j));
        assert(nfa.found(subsets2, j));
        let (i1, k1) = choose|i1: int, k1: int| #[trigger] nfa.found_at(subsets1, j, i1, k1);
        let (i2, k2) = choose|i2: int, k2: int| #[trigger] nfa.found_at(subsets2, j, i2, k2);
        lemma_found_at_same_place(nfa, first, second, subsets1, subsets2, j, i1, k1, i2, k2);
        lemma_found_at_same_place(nfa, second, first, subsets2, subsets1, j, i2, k2, i1, k1);
    }
}

/// Of two subset constructions of one automaton, neither finds more subsets
/// than the other.
proof fn lemma_no_more_subsets<S: Atom, I: Atom>(
    nfa: &NFA<S, I>,
    first: &DFA<usize, I>,
    second: &DFA<usize, I>,
    subsets1: Seq<Set<S>>,
    subsets2: Seq<Set<S>>,
)
    requires
        nfa.subset_construction(first, subsets1),
        nfa.subset_construction(second, subsets2),
    ensures
        subsets2.len() <= subsets1.len(),
{
    if subsets1.len() < subsets2.len() {
        let j = subsets1.len() as int;
        lemma_subsets_agree(nfa, first, second, subsets1, subsets2, j - 1);
        assert(nfa.found(subsets2, j));
        let (i, k) = choose|i: int, k: int| #[trigger] nfa.found_at(subsets2, j, i, k);
        // The first construction, too, moves from the subset `i` on the
        // label `k` to that subset, and has a number below `j` for it.
        let a = nfa.labels()[k];
        nfa.lemma_labels_are_alphabet();
        let q = choose|q: S| subsets2[j].contains(q);
        assert(nfa.subset_step(subsets1[i], a).contains(q));
        assert(nfa.expands(subsets1, i as usize, a));
        let t = first.delta(i as usize, a).unwrap();
        assert(subsets2[t as int] == subsets2[j]);
    }
}

/// The subset automaton is determined by the automaton it is built from:
/// two subset automata of one automaton stand for the same subsets under the
/// same numbers, and have the same start state, accept states and moves.
pub proof fn lemma_subset_construction_unique<S: Atom, I: Atom>(
    nfa: &NFA<S, I>,
    first: &DFA<usize, I>,
    second: &DFA<usize, I>,
    subsets1: Seq<Set<S>>,
    subsets2: Seq<Set<S>>,
)
    requires
        nfa.subset_construction(first, subsets1),
        nfa.subset_construction(second, subsets2),
    ensures
        subsets1 == subsets2,
        first.start == second.start,
        first.accept_set() == second.accept_set(),
        forall|id: usize, a: Transition<I>| first.delta(id, a) == second.delta(id, a),
{
    lemma_no_more_subsets(nfa, first, second, subsets1, subsets2);
    lemma_no_more_subsets(nfa, second, first, subsets2, subsets1);
    lemma_subsets_agree(nfa, first, second, subsets1, subsets2, subsets1.len() - 1);
    assert forall|id: usize, a: Transition<I>| first.delta(id, a) == second.delta(id, a) by {
        if first.delta(id, a) is Some && second.delta(id, a) is Some {
            let t1 = first.delta(id, a).unwrap();
            let t2 = second.delta(id, a).unwrap();
            assert(subsets1[t1 as int] == subsets1[t2 as int]);
        }
    }
}

/// Free moves from no state lead nowhere.
pub proof fn lemma_eps_closure_of_nothing<S: Atom, I: Atom>(nfa: &NFA<S, I>)
    ensures
        nfa.eps_closure(Set::empty()) == Set::<S>::empty(),
{
    let nothing = Set::<S>::empty();
    assert forall|q: S| !nfa.step_set(nothing, Transition::Epsilon).contains(q) by {}
    nfa.lemma_eps_closure_least(nothing, nothing);
}

/// Where the automaton has no wildcard transitions, the state that the subset
/// automaton is in after an input stands for the set of states that the
/// automaton can be in after it; and the subset automaton is stuck exactly
/// where that set is empty.
pub proof fn lemma_subset_state_tracks<S: Atom, I: Atom>(
    nfa: &NFA<S, I>,
    dfa: &DFA<usize, I>,
    subsets: Seq<Set<S>>,
    input: Seq<I>,
)
    requires
        nfa.subset_construction(dfa, subsets),
        nfa.wildcard_free(),
    ensures
        match dfa.state_after(input) {
            Some(j) => j < subsets.len() && subsets[j as int] == nfa.states_after(input) && exists|
                q: S,
            |
                nfa.states_after(input).contains(q),
            None => nfa.states_after(input) == Set::<S>::empty(),
        },
    decreases input.len(),
{
    if input.len() == 0 {
        nfa.lemma_eps_closure_extends(set![nfa.start_state()]);
        assert(nfa.states_after(input).contains(nfa.start_state()));
    } else {
        let shorter = input.drop_last();
        let c = input.last();
        lemma_subset_state_tracks(nfa, dfa, subsets, shorter);
        let prev = nfa.states_after(shorter);
        let exact = Transition::Input(c);
        let wild = Transition::<I>::Anything;
        nfa.lemma_unused_label(prev, wild);
        let moved = nfa.step_set(prev, exact);
        assert(moved.union(nfa.step_set(prev, wild)) =~= moved);
        match dfa.state_after(shorter) {
            Some(j) => {
                assert(dfa.delta(j, wild) is None);
                assert(nfa.subset_step(prev, exact) == nfa.eps_closure(moved));
                if !nfa.alphabet().contains(exact) {
                    nfa.lemma_unused_label(prev, exact);
                    lemma_eps_closure_of_nothing(nfa);
                } else if dfa.delta(j, exact) is Some {
                    let q = choose|q: S|
                        #[trigger] nfa.subset_step(subsets[j as int], exact).contains(q);
                    assert(nfa.states_after(input).contains(q));
                } else {
                    assert(!nfa.expands(subsets, j, exact));
                }
            },
            None => {
                assert(moved =~= Set::<S>::empty());
                lemma_eps_closure_of_nothing(nfa);
            },
        }
    }
}

/// The subset automaton of an automaton without wildcard transitions accepts
/// an input exactly if the automaton accepts it.
pub proof fn lemma_conversion_preserves_acceptance<S: Atom, I: Atom>(
    nfa: &NFA<S, I>,
    dfa: &DFA<usize, I>,
    input: Seq<I>,
)
    requires
        nfa.constructs(dfa),
        nfa.wildcard_free(),
    ensures
        nfa.accepts(input) == dfa.accepts(input),
{
    let subsets = choose|subsets: Seq<Set<S>>| nfa.subset_construction(dfa, subsets);
    lemma_subset_state_tracks(nfa, dfa, subsets, input);
    let reached = nfa.states_after(input);
    if dfa.state_after(input) is Some {
        let j = dfa.state_after(input).unwrap();
        if nfa.recognizes(input) {
            let q = choose|q: S| #[trigger] reached.contains(q) && nfa.accept_set().contains(q);
            assert(!subsets[j as int].disjoint(nfa.accept_set()));
        }
        if dfa.recognizes(input) {
            let q = choose|q: S| subsets[j as int].contains(q) && nfa.accept_set().contains(q);
            assert(reached.contains(q));
        }
    }
}

/// Every subset of a subset construction is made of the start state and of
/// destinations of the table.
pub proof fn lemma_subsets_in_reach_base<S: Atom, I: Atom>(
    nfa: &NFA<S, I>,
    dfa: &DFA<usize, I>,
    subsets: Seq<Set<S>>,
    j: int,
)
    requires
        nfa.subset_construction(dfa, subsets),
        0 <= j < subsets.len(),
    ensures
        subsets[j].subset_of(nfa.reach_base()),
{
    if j == 0 {
        nfa.lemma_eps_closure_in_dest_set(set![nfa.start_state()]);
    } else {
        assert(nfa.found(subsets, j));
        let (i, k) = choose|i: int, k: int| #[trigger] nfa.found_at(subsets, j, i, k);
        nfa.lemma_subset_step_in_dest_set(subsets[i], nfa.labels()[k]);
    }
}

/// A subset automaton has at most `2^n` states, where `n` is the number of
/// states of the automaton it was built from.
pub proof fn lemma_subset_count_bound<S: Atom, I: Atom>(nfa: &NFA<S, I>, dfa: &DFA<usize, I>)
    requires
        nfa.constructs(dfa),
    ensures
        dfa.states().finite(),
        dfa.states().len() <= pow2(nfa.states().len()),
{
    let subsets = choose|subsets: Seq<Set<S>>| nfa.subset_construction(dfa, subsets);
    assert forall|j: int| 0 <= j < subsets.len() implies (#[trigger] subsets[j]).subset_of(
        nfa.reach_base(),
    ) by {
        lemma_subsets_in_reach_base(nfa, dfa, subsets, j);
    }
    lemma_distinct_subsets_bound(subsets, nfa.reach_base());
    lemma_len_subset(nfa.reach_base(), nfa.states());
    if nfa.reach_base().len() < nfa.states().len() {
        lemma_pow2_strictly_increases(nfa.reach_base().len(), nfa.states().len());
    }

    // The states of the subset automaton are numbers below `subsets.len()`.
    assert forall|q: usize| dfa.states().contains(q) implies q < subsets.len() by {
        if exists|a: Transition<I>| #[trigger] dfa.delta(q, a) is Some {
            let a = choose|a: Transition<I>| #[trigger] dfa.delta(q, a) is Some;
            assert(nfa.expands(subsets, q, a));
        }
    }
    let n = subsets.len() as usize;
    lemma_below_len(n);
    lemma_len_subset(dfa.states(), below(n));
}

} // verus!
