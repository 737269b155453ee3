use std::collections::HashSet;

use automaton::nfa::NFAIter;
use automaton::Transition::{Anything, Epsilon, Input};
use automaton::{Automaton, Transition, DFA, NFA};

fn chars(s: &str) -> Vec<char> {
    s.chars().collect()
}

fn set(states: &[usize]) -> HashSet<usize> {
    states.iter().copied().collect()
}

fn as_set(states: &Vec<usize>) -> HashSet<usize> {
    states.iter().copied().collect()
}

fn sample_with_start(start: usize) -> NFA<usize, char> {
    let transitions = vec![
        ((0, Input('a')), vec![0, 1]),
        ((0, Input('b')), vec![1]),
        ((1, Input('a')), vec![0, 1]),
        ((1, Input('b')), vec![2]),
    ];
    NFA::new(start, vec![2], transitions)
}

fn sample() -> NFA<usize, char> {
    sample_with_start(0)
}

fn collect(mut it: NFAIter<'_, usize, char>, limit: usize) -> Vec<usize> {
    let mut out = Vec::new();
    while out.len() < limit {
        match it.next() {
            Some(s) => out.push(*s),
            None => break,
        }
    }
    out
}

fn move_of(dfa: &DFA<usize, char>, state: usize, label: Transition<char>) -> Option<usize> {
    let mut found = None;
    for ((s, l), t) in dfa.get_transitions() {
        if *s == state && *l == label {
            found = Some(*t);
        }
    }
    found
}

#[test]
fn test_nfa() {
    let nfa = sample();
    assert_eq!(nfa.run(chars("aaaaa")), None);
    assert_eq!(nfa.run(chars("aabaa")), None);
    assert_eq!(nfa.run(chars("aababbb")), None);
    assert_eq!(nfa.run(chars("aababb")), Some(chars("aababb")));
    assert_eq!(nfa.run(chars("aabb")), Some(chars("aabb")));
}

#[test]
fn test_into_dfa() {
    let nfa = sample();
    let dfa1 = nfa.into_dfa();
    let expected = vec![
        ((0, 'a'), 1),
        ((0, 'b'), 2),
        ((1, 'a'), 1),
        ((1, 'b'), 3),
        ((2, 'a'), 1),
        ((2, 'b'), 4),
        ((3, 'a'), 1),
        ((3, 'b'), 4),
    ];
    assert_eq!(*dfa1.get_start_state(), 0);
    assert_eq!(as_set(dfa1.get_accept_states()), set(&[3, 4]));
    assert_eq!(dfa1.get_transitions().len(), expected.len());
    for ((state, symbol), target) in expected {
        assert_eq!(move_of(&dfa1, state, Input(symbol)), Some(target));
    }
    assert_eq!(move_of(&dfa1, 4, Input('a')), None);
    assert_eq!(move_of(&dfa1, 4, Input('b')), None);
}

#[test]
fn test_reachable() {
    let nfa = sample();
    let s = nfa.reachable_states(&vec![0], Input('a'));
    assert_eq!(as_set(&s), set(&[0, 1]));

    let s = nfa.reachable_states(&vec![0], Input('b'));
    assert_eq!(as_set(&s), set(&[1]));

    let s = nfa.reachable_states(&vec![1], Input('a'));
    assert_eq!(as_set(&s), set(&[0, 1]));

    let s = nfa.reachable_states(&vec![1], Input('b'));
    assert_eq!(as_set(&s), set(&[2]));

    let s = nfa.reachable_states(&vec![2], Input('a'));
    assert_eq!(as_set(&s), HashSet::new());

    let s = nfa.reachable_states(&vec![2], Input('b'));
    assert_eq!(as_set(&s), HashSet::new());
}

#[test]
fn test_epsilon_closure() {
    let nfa = sample_with_start(1);

    let mut s = vec![0];
    nfa.epsilon_closure(&mut s);
    assert_eq!(s, vec![0]);

    let mut s = vec![1];
    nfa.epsilon_closure(&mut s);
    assert_eq!(s, vec![1]);

    let mut s = vec![2];
    nfa.epsilon_closure(&mut s);
    assert_eq!(s, vec![2]);
}

#[test]
fn nfa_getters_return_the_parts() {
    let nfa = sample();
    assert_eq!(*nfa.get_start_state(), 0);
    assert_eq!(nfa.get_accept_states(), &vec![2]);
    assert_eq!(nfa.get_transitions().len(), 4);
    assert_eq!(nfa.get_transitions()[3], ((1, Input('b')), vec![2]));
}

#[test]
fn reachable_states_lists_each_state_once() {
    let nfa = sample();
    let s = nfa.reachable_states(&vec![0, 1], Input('a'));
    assert_eq!(s, vec![0, 1]);
    let s = nfa.reachable_states(&vec![1, 0, 1], Input('b'));
    assert_eq!(s, vec![2, 1]);
    let s = nfa.reachable_states(&vec![0, 1], Epsilon);
    assert_eq!(s, Vec::<usize>::new());
    let s = nfa.reachable_states(&vec![], Input('a'));
    assert_eq!(s, Vec::<usize>::new());
}

#[test]
fn epsilon_closure_follows_chains_and_cycles() {
    let transitions = vec![
        ((0, Epsilon), vec![1]),
        ((1, Epsilon), vec![2, 0]),
        ((2, Input('a')), vec![3]),
        ((3, Epsilon), vec![3]),
    ];
    let nfa: NFA<usize, char> = NFA::new(0, vec![3], transitions);

    let mut s = vec![0];
    nfa.epsilon_closure(&mut s);
    assert_eq!(s, vec![0, 1, 2]);

    let mut s = vec![3];
    nfa.epsilon_closure(&mut s);
    assert_eq!(s, vec![3]);

    let mut s = vec![2, 1];
    nfa.epsilon_closure(&mut s);
    assert_eq!(s, vec![2, 1, 0]);

    let mut s: Vec<usize> = vec![];
    nfa.epsilon_closure(&mut s);
    assert_eq!(s, Vec::<usize>::new());
}

#[test]
fn epsilon_closure_is_a_fixpoint() {
    let transitions = vec![((0, Epsilon), vec![1]), ((1, Epsilon), vec![2]), ((4, Epsilon), vec![0])];
    let nfa: NFA<usize, char> = NFA::new(0, vec![], transitions);
    let mut once = vec![4];
    nfa.epsilon_closure(&mut once);
    let mut twice = once.clone();
    nfa.epsilon_closure(&mut twice);
    assert_eq!(once, twice);
    assert_eq!(as_set(&once), set(&[4, 0, 1, 2]));
}

#[test]
fn get_accept_finds_a_common_state() {
    let nfa: NFA<usize, char> = NFA::new(0, vec![5, 7, 9], Vec::new());
    assert_eq!(nfa.get_accept(&vec![1, 2, 3]), None);
    assert_eq!(nfa.get_accept(&vec![]), None);
    assert_eq!(nfa.get_accept(&vec![1, 7]), Some(7));
    assert_eq!(nfa.get_accept(&vec![9, 1, 2, 3, 4]), Some(9));
    let found = nfa.get_accept(&vec![9, 5]);
    assert!(found == Some(9) || found == Some(5));
    let none: NFA<usize, char> = NFA::new(0, vec![], Vec::new());
    assert_eq!(none.get_accept(&vec![0, 1]), None);
}

#[test]
fn nfa_empty_input() {
    let nfa = sample();
    assert_eq!(nfa.run(Vec::new()), None);
    let accepting: NFA<usize, char> = NFA::new(2, vec![2], Vec::new());
    assert_eq!(accepting.run(Vec::new()), Some(Vec::new()));
    let by_free_move: NFA<usize, char> = NFA::new(0, vec![1], vec![((0, Epsilon), vec![1])]);
    assert_eq!(by_free_move.run(Vec::new()), Some(Vec::new()));
}

#[test]
fn nfa_acceptance_before_the_end_does_not_count() {
    let nfa = sample();
    // "bb" reaches state 2, but the third symbol cannot be consumed from it.
    assert_eq!(nfa.run(chars("bb")), Some(chars("bb")));
    assert_eq!(nfa.run(chars("bba")), None);
}

#[test]
fn nfa_free_moves_consume_nothing() {
    let transitions = vec![
        ((0, Epsilon), vec![1]),
        ((1, Input('a')), vec![2]),
        ((2, Epsilon), vec![3]),
    ];
    let nfa: NFA<usize, char> = NFA::new(0, vec![3], transitions);
    assert_eq!(nfa.run(chars("a")), Some(chars("a")));
    assert_eq!(nfa.run(chars("")), None);
    assert_eq!(nfa.run(chars("aa")), None);
}

#[test]
fn nfa_wildcard_consumes_any_one_symbol() {
    let transitions = vec![((0, Anything), vec![1]), ((1, Input('z')), vec![2])];
    let nfa: NFA<usize, char> = NFA::new(0, vec![2], transitions);
    assert_eq!(nfa.run(chars("az")), Some(chars("az")));
    assert_eq!(nfa.run(chars("qz")), Some(chars("qz")));
    assert_eq!(nfa.run(chars("z")), None);
    assert_eq!(nfa.run(chars("")), None);
    assert_eq!(nfa.run(chars("qq")), None);
}

#[test]
fn nfa_wildcard_and_exact_moves_both_apply() {
    let transitions = vec![((0, Anything), vec![1]), ((0, Input('a')), vec![2])];
    let to_wild: NFA<usize, char> =
        NFA::new(0, vec![1], vec![((0, Anything), vec![1]), ((0, Input('a')), vec![2])]);
    let to_exact: NFA<usize, char> = NFA::new(0, vec![2], transitions);
    assert_eq!(to_wild.run(chars("a")), Some(chars("a")));
    assert_eq!(to_exact.run(chars("a")), Some(chars("a")));
    assert_eq!(to_wild.run(chars("b")), Some(chars("b")));
    assert_eq!(to_exact.run(chars("b")), None);
}

#[test]
fn nfa_run_ends_on_cycles_of_free_moves() {
    let transitions = vec![
        ((0, Epsilon), vec![1]),
        ((1, Epsilon), vec![0]),
        ((1, Input('a')), vec![2]),
        ((2, Epsilon), vec![2]),
    ];
    let nfa: NFA<usize, char> = NFA::new(0, vec![2], transitions);
    assert_eq!(nfa.run(chars("a")), Some(chars("a")));
    assert_eq!(nfa.run(chars("")), None);
    assert_eq!(nfa.run(chars("b")), None);
    assert_eq!(nfa.run(chars("aa")), None);
}

#[test]
fn nfa_run_twice_gives_the_same_result() {
    let nfa = sample();
    for word in ["aabb", "aababbb", "", "bbb", "abab"] {
        assert_eq!(nfa.run(chars(word)), nfa.run(chars(word)));
    }
}

#[test]
fn nfa_last_entry_of_a_key_decides() {
    let transitions = vec![((0, Input('a')), vec![1]), ((0, Input('a')), vec![2])];
    let nfa: NFA<usize, char> = NFA::new(0, vec![1], transitions);
    assert_eq!(nfa.run(chars("a")), None);
    assert_eq!(nfa.reachable_states(&vec![0], Input('a')), vec![2]);
}

#[test]
fn nfa_walk_visits_configurations_breadth_first() {
    let nfa = sample();
    // (0,0) -> a: (0,1) (1,1) -> b from 0: (1,2); b from 1: (2,2) -> end.
    let it = nfa.iter(chars("ab"));
    assert_eq!(collect(it, 100), vec![0, 0, 1, 1, 2]);
}

#[test]
fn nfa_walk_enqueues_free_then_wildcard_then_exact_moves() {
    let transitions = vec![
        ((0, Input('a')), vec![3]),
        ((0, Anything), vec![2]),
        ((0, Epsilon), vec![1]),
    ];
    let nfa: NFA<usize, char> = NFA::new(0, vec![], transitions);
    assert_eq!(collect(nfa.iter(chars("a")), 100), vec![0, 1, 2, 3]);
    // With no input left, only the free move is taken.
    assert_eq!(collect(nfa.iter(chars("")), 100), vec![0, 1]);
    // A symbol without an exact move still takes the wildcard.
    assert_eq!(collect(nfa.iter(chars("b")), 100), vec![0, 1, 2]);
}

#[test]
fn nfa_walk_is_over_once_the_queue_is_empty() {
    let nfa = sample();
    let mut it = nfa.iter(chars(""));
    assert_eq!(it.next(), Some(&0));
    assert_eq!(it.next(), None);
    assert_eq!(it.next(), None);
}

#[test]
fn nfa_walk_revisits_configurations_on_a_cycle_of_free_moves() {
    let transitions = vec![((0, Epsilon), vec![1]), ((1, Epsilon), vec![0])];
    let nfa: NFA<usize, char> = NFA::new(0, vec![], transitions);
    assert_eq!(collect(nfa.iter(chars("")), 6), vec![0, 1, 0, 1, 0, 1]);
}

#[test]
fn nfa_walk_ends_where_free_moves_make_no_cycle() {
    // State 3 is reached by two chains of free moves, and visited for each.
    let transitions = vec![
        ((0, Epsilon), vec![1, 2]),
        ((1, Epsilon), vec![3]),
        ((2, Epsilon), vec![3]),
        ((3, Input('a')), vec![0]),
    ];
    let nfa: NFA<usize, char> = NFA::new(0, vec![], transitions);
    assert_eq!(collect(nfa.iter(chars("")), 100), vec![0, 1, 2, 3, 3]);
    let mut it = nfa.iter(chars("a"));
    let mut count = 0;
    while it.next().is_some() {
        count += 1;
        assert!(count <= 100);
    }
    assert_eq!(count, 15);
    assert_eq!(it.next(), None);
}

#[test]
fn nfa_walk_size_hint_knows_nothing() {
    let nfa = sample();
    let it = nfa.iter(chars("ab"));
    assert_eq!(it.size_hint(), (0, None));
}

#[test]
fn into_dfa_agrees_with_the_nfa() {
    let nfa = sample();
    let dfa = nfa.into_dfa();
    for word in ["aaaaa", "aabaa", "aababbb", "aababb", "aabb"] {
        assert_eq!(nfa.run(chars(word)), dfa.run(chars(word)));
    }
    assert_eq!(dfa.run(chars("aaaaa")), None);
    assert_eq!(dfa.run(chars("aabaa")), None);
    assert_eq!(dfa.run(chars("aababbb")), None);
    assert_eq!(dfa.run(chars("aababb")), Some(chars("aababb")));
    assert_eq!(dfa.run(chars("aabb")), Some(chars("aabb")));
}

#[test]
fn into_dfa_agrees_with_the_nfa_with_free_moves() {
    let transitions = vec![
        ((0, Epsilon), vec![1]),
        ((1, Input('a')), vec![1, 2]),
        ((2, Epsilon), vec![0, 3]),
        ((3, Input('b')), vec![4]),
        ((4, Epsilon), vec![4]),
    ];
    let nfa: NFA<usize, char> = NFA::new(0, vec![4], transitions);
    let dfa = nfa.into_dfa();
    let words = ["", "a", "b", "ab", "aab", "abb", "aba", "abab", "ba", "c", "abc", "aaab"];
    for word in words {
        assert_eq!(nfa.run(chars(word)).is_some(), dfa.run(chars(word)).is_some());
    }
    assert_eq!(dfa.run(chars("ab")), Some(chars("ab")));
    assert_eq!(dfa.run(chars("aaab")), Some(chars("aaab")));
    assert_eq!(dfa.run(chars("a")), None);
    assert_eq!(dfa.run(chars("abb")), None);
}

#[test]
fn into_dfa_start_state_accepts_with_its_subset() {
    let nfa: NFA<usize, char> = NFA::new(0, vec![0], vec![((0, Input('a')), vec![0])]);
    let dfa = nfa.into_dfa();
    assert_eq!(nfa.run(Vec::new()), Some(Vec::new()));
    assert_eq!(dfa.run(Vec::new()), Some(Vec::new()));
    assert_eq!(dfa.run(chars("aaa")), Some(chars("aaa")));
    assert_eq!(dfa.run(chars("ab")), None);
    assert_eq!(*dfa.get_start_state(), 0);
    assert_eq!(dfa.get_accept_states(), &vec![0]);
    assert_eq!(dfa.get_transitions(), &vec![((0, Input('a')), 0)]);
}

#[test]
fn into_dfa_of_an_accepting_start_state_without_transitions() {
    let nfa: NFA<usize, char> = NFA::new(0, vec![0], Vec::new());
    let dfa = nfa.into_dfa();
    assert_eq!(*dfa.get_start_state(), 0);
    assert_eq!(dfa.get_accept_states(), &vec![0]);
    assert!(dfa.get_transitions().is_empty());
    assert_eq!(dfa.run(Vec::new()), Some(Vec::new()));
    assert_eq!(nfa.run(Vec::new()), Some(Vec::new()));
    assert_eq!(dfa.run(chars("a")), None);
}

#[test]
fn into_dfa_start_state_accepts_by_a_free_move() {
    let nfa: NFA<usize, char> =
        NFA::new(0, vec![1], vec![((0, Epsilon), vec![1]), ((1, Input('a')), vec![2])]);
    let dfa = nfa.into_dfa();
    assert_eq!(dfa.get_accept_states(), &vec![0]);
    assert_eq!(dfa.run(Vec::new()), Some(Vec::new()));
    assert_eq!(dfa.run(chars("a")), None);
    assert_eq!(nfa.run(chars("a")), None);
}

#[test]
fn into_dfa_numbers_equal_subsets_once() {
    // Both labels lead from {0} to the same subset, listed in different order.
    let transitions = vec![((0, Input('a')), vec![1, 2]), ((0, Input('b')), vec![2, 1])];
    let nfa: NFA<usize, char> = NFA::new(0, vec![2], transitions);
    let dfa = nfa.into_dfa();
    assert_eq!(dfa.get_transitions(), &vec![((0, Input('a')), 1), ((0, Input('b')), 1)]);
    assert_eq!(dfa.get_accept_states(), &vec![1]);
}

#[test]
fn into_dfa_wildcard_absorbs_one_further_move() {
    let transitions = vec![((0, Anything), vec![1]), ((1, Input('a')), vec![2])];
    let nfa: NFA<usize, char> = NFA::new(0, vec![2], transitions);
    let dfa = nfa.into_dfa();
    // {0} -any-> {1} absorbs {2}; {1,2} -a-> {2}.
    assert_eq!(dfa.get_transitions(), &vec![((0, Anything), 1), ((1, Input('a')), 2)]);
    assert_eq!(as_set(dfa.get_accept_states()), set(&[1, 2]));
    assert_eq!(dfa.run(chars("x")), Some(chars("x")));
    assert_eq!(nfa.run(chars("x")), None);
    assert_eq!(dfa.run(chars("xa")), Some(chars("xa")));
    assert_eq!(nfa.run(chars("xa")), Some(chars("xa")));
}

#[test]
fn into_dfa_absorbs_a_single_round_only() {
    let transitions = vec![
        ((0, Anything), vec![1]),
        ((1, Input('a')), vec![2]),
        ((2, Input('a')), vec![3]),
    ];
    let nfa: NFA<usize, char> = NFA::new(0, vec![3], transitions);
    let dfa = nfa.into_dfa();
    // {0} -any-> {1} absorbs {2} but not {3}.
    assert_eq!(move_of(&dfa, 0, Anything), Some(1));
    assert_eq!(dfa.run(chars("x")), None);
    assert_eq!(dfa.run(chars("xa")), Some(chars("xa")));
}

#[test]
fn into_dfa_closes_subsets_under_free_moves() {
    let transitions = vec![((0, Input('a')), vec![1]), ((1, Epsilon), vec![2])];
    let nfa: NFA<usize, char> = NFA::new(0, vec![2], transitions);
    let dfa = nfa.into_dfa();
    assert_eq!(dfa.get_transitions(), &vec![((0, Input('a')), 1)]);
    assert_eq!(dfa.get_accept_states(), &vec![1]);
}

#[test]
fn into_dfa_of_an_automaton_without_transitions() {
    let nfa: NFA<usize, char> = NFA::new(3, vec![4], Vec::new());
    let dfa = nfa.into_dfa();
    assert_eq!(*dfa.get_start_state(), 0);
    assert!(dfa.get_accept_states().is_empty());
    assert!(dfa.get_transitions().is_empty());
}

#[test]
fn into_dfa_has_at_most_two_to_the_n_states() {
    // Three states in which every subset but the empty one is reached.
    let transitions = vec![
        ((0, Input('a')), vec![0, 1]),
        ((0, Input('b')), vec![2]),
        ((1, Input('a')), vec![2]),
        ((1, Input('b')), vec![0]),
        ((2, Input('a')), vec![1]),
        ((2, Input('b')), vec![1, 2]),
    ];
    let nfa: NFA<usize, char> = NFA::new(0, vec![2], transitions);
    let dfa = nfa.into_dfa();
    let mut states: HashSet<usize> = HashSet::new();
    states.insert(*dfa.get_start_state());
    for ((s, _), t) in dfa.get_transitions() {
        states.insert(*s);
        states.insert(*t);
    }
    for s in dfa.get_accept_states() {
        states.insert(*s);
    }
    assert!(states.len() <= 8);
    let dense: HashSet<usize> = (0..states.len()).collect();
    assert_eq!(states, dense);
    for word in ["", "a", "b", "ab", "ba", "aab", "abab", "bbb", "aaa", "abba"] {
        assert_eq!(nfa.run(chars(word)).is_some(), dfa.run(chars(word)).is_some());
    }
}

#[test]
fn into_dfa_leaves_the_nfa_as_it_was() {
    let nfa = sample();
    let _ = nfa.into_dfa();
    assert_eq!(*nfa.get_start_state(), 0);
    assert_eq!(nfa.get_accept_states(), &vec![2]);
    assert_eq!(nfa.get_transitions().len(), 4);
    assert_eq!(nfa.run(chars("aabb")), Some(chars("aabb")));
}
