use automaton::dfa::{lookup_step, DFAIter};
use automaton::{Automaton, Transition, DFA};
use automaton::Transition::{Anything, Input};

fn chars(s: &str) -> Vec<char> {
    s.chars().collect()
}

fn sample() -> DFA<usize, char> {
    let transitions = vec![
        ((0, Input('a')), 0),
        ((0, Input('b')), 1),
        ((1, Input('a')), 0),
        ((1, Input('b')), 2),
    ];
    DFA::new(0, vec![2], transitions)
}

fn collect(mut it: DFAIter<'_, usize, char>) -> Vec<usize> {
    let mut out = Vec::new();
    while let Some(s) = it.next() {
        out.push(*s);
    }
    out
}

#[test]
fn test_dfa() {
    let dfa = sample();
    assert_eq!(dfa.run(chars("aaaaa")), None);
    assert_eq!(dfa.run(chars("aabaa")), None);
    assert_eq!(dfa.run(chars("aababbb")), None);
    assert_eq!(dfa.run(chars("aababb")), Some(chars("aababb")));
    assert_eq!(dfa.run(chars("aabb")), Some(chars("aabb")));
}

#[test]
fn test_iter() {
    let dfa = sample();
    let mut it = dfa.iter(chars("aababbb"));
    assert_eq!(it.next(), Some(&0));
    assert_eq!(it.next(), Some(&0));
    assert_eq!(it.next(), Some(&0));
    assert_eq!(it.next(), Some(&1));
    assert_eq!(it.next(), Some(&0));
    assert_eq!(it.next(), Some(&1));
    assert_eq!(it.next(), Some(&2));
    assert_eq!(it.next(), None);
    assert_eq!(it.next(), None);
    assert_eq!(it.next(), None);
}

#[test]
fn dfa_getters_return_the_parts() {
    let dfa = sample();
    assert_eq!(*dfa.get_start_state(), 0);
    assert_eq!(dfa.get_accept_states(), &vec![2]);
    assert_eq!(dfa.get_transitions().len(), 4);
    assert_eq!(dfa.get_transitions()[1], ((0, Input('b')), 1));
}

#[test]
fn dfa_empty_input_is_accepted_only_in_an_accept_state() {
    let dfa = sample();
    assert_eq!(dfa.run(Vec::new()), None);
    let accepting: DFA<usize, char> = DFA::new(7, vec![7], Vec::new());
    assert_eq!(accepting.run(Vec::new()), Some(Vec::new()));
}

#[test]
fn dfa_run_returns_the_whole_input() {
    let dfa = sample();
    for word in ["b", "bb", "abb", "aabb", "babb", "aababb", "ba", ""] {
        match dfa.run(chars(word)) {
            Some(consumed) => assert_eq!(consumed, chars(word)),
            None => {}
        }
    }
    assert_eq!(dfa.run(chars("bb")), Some(chars("bb")));
    assert_eq!(dfa.run(chars("b")), None);
}

#[test]
fn dfa_run_twice_gives_the_same_result() {
    let dfa = sample();
    for word in ["aabb", "aababbb", "", "bbb", "abab"] {
        assert_eq!(dfa.run(chars(word)), dfa.run(chars(word)));
    }
}

#[test]
fn dfa_first_missing_move_fails_the_run() {
    // State 2 has no move at all, so anything after reaching it fails.
    let dfa = sample();
    assert_eq!(dfa.run(chars("bba")), None);
    assert_eq!(dfa.run(chars("bbb")), None);
    // A symbol outside the table fails at once.
    assert_eq!(dfa.run(chars("c")), None);
    assert_eq!(dfa.run(chars("aacbb")), None);
}

#[test]
fn dfa_exact_move_is_preferred_to_wildcard() {
    let transitions = vec![
        ((0, Anything), 1),
        ((0, Input('a')), 2),
        ((1, Anything), 1),
    ];
    let dfa: DFA<usize, char> = DFA::new(0, vec![2], transitions);
    assert_eq!(dfa.run(chars("a")), Some(chars("a")));
    assert_eq!(dfa.run(chars("b")), None);
    let fallback: DFA<usize, char> =
        DFA::new(0, vec![1], vec![((0, Anything), 1), ((0, Input('a')), 2), ((1, Anything), 1)]);
    assert_eq!(fallback.run(chars("b")), Some(chars("b")));
    assert_eq!(fallback.run(chars("bzz")), Some(chars("bzz")));
    assert_eq!(fallback.run(chars("a")), None);
    assert_eq!(fallback.run(chars("az")), None);
}

#[test]
fn dfa_last_entry_of_a_key_decides() {
    let transitions = vec![((0, Input('a')), 1), ((0, Input('a')), 2)];
    let dfa: DFA<usize, char> = DFA::new(0, vec![2], transitions);
    assert_eq!(dfa.run(chars("a")), Some(chars("a")));
    let other: DFA<usize, char> =
        DFA::new(0, vec![1], vec![((0, Input('a')), 1), ((0, Input('a')), 2)]);
    assert_eq!(other.run(chars("a")), None);
}

#[test]
fn lookup_step_finds_exact_then_wildcard() {
    let table = vec![((0usize, Anything), 9usize), ((0, Input('a')), 1), ((1, Input('b')), 2)];
    assert_eq!(lookup_step(&table, 0, 'a'), Some(&1));
    assert_eq!(lookup_step(&table, 0, 'z'), Some(&9));
    assert_eq!(lookup_step(&table, 1, 'b'), Some(&2));
    assert_eq!(lookup_step(&table, 1, 'a'), None);
    assert_eq!(lookup_step(&table, 2, 'a'), None);
}

#[test]
fn dfa_walk_over_empty_input_yields_the_start_state() {
    let dfa = sample();
    assert_eq!(collect(dfa.iter(Vec::new())), vec![0]);
}

#[test]
fn dfa_walk_stops_at_the_first_missing_move() {
    let dfa = sample();
    // 'c' has no move from state 0: the walk yields the state it is stuck in.
    assert_eq!(collect(dfa.iter(chars("aacbb"))), vec![0, 0, 0]);
    assert_eq!(collect(dfa.iter(chars("c"))), vec![0]);
}

#[test]
fn dfa_walk_over_consumed_input_ends_in_the_final_state() {
    let dfa = sample();
    assert_eq!(collect(dfa.iter(chars("aabb"))), vec![0, 0, 0, 1, 2]);
    assert_eq!(collect(dfa.iter(chars("ab"))), vec![0, 0, 1]);
}

#[test]
fn dfa_walk_yields_between_one_and_length_plus_one_states() {
    let dfa = sample();
    for word in ["", "a", "b", "bb", "bbb", "abab", "aababbb", "cab", "abc"] {
        let yielded = collect(dfa.iter(chars(word)));
        assert!(yielded.len() >= 1);
        assert!(yielded.len() <= word.len() + 1);
        assert_eq!(yielded[0], 0);
    }
}

#[test]
fn dfa_walk_uses_wildcard_as_fallback() {
    let transitions = vec![((0, Anything), 1), ((0, Input('a')), 2), ((1, Anything), 0)];
    let dfa: DFA<usize, char> = DFA::new(0, vec![], transitions);
    assert_eq!(collect(dfa.iter(chars("xya"))), vec![0, 1, 0, 2]);
    assert_eq!(collect(dfa.iter(chars("ab"))), vec![0, 2]);
}

#[test]
fn dfa_walk_size_hint_is_the_input_length() {
    let dfa = sample();
    let mut it = dfa.iter(chars("aab"));
    assert_eq!(it.size_hint(), (3, Some(3)));
    it.next();
    assert_eq!(it.size_hint(), (3, Some(3)));
}

#[test]
fn dfa_over_other_atoms() {
    let transitions = vec![(('p', Input(1u8)), 'q'), (('q', Input(2u8)), 'p')];
    let dfa: DFA<char, u8> = DFA::new('p', vec!['p'], transitions);
    assert_eq!(dfa.run(vec![1, 2, 1, 2]), Some(vec![1, 2, 1, 2]));
    assert_eq!(dfa.run(vec![1, 2, 1]), None);
    assert_eq!(dfa.run(vec![2]), None);
    let label: Transition<u8> = Transition::Epsilon;
    assert_ne!(label, Input(0));
}
