use automaton::sets::{contains, insert, same_elements, subset_of, union_into};
use automaton::table::find_key;
use automaton::Atom;
use automaton::Transition::{Anything, Epsilon, Input};

#[test]
fn atoms_are_compared_by_identity() {
    assert!('a'.same(&'a'));
    assert!(!'a'.same(&'b'));
    assert!(3usize.same(&3));
    assert!(!3usize.same(&4));
    assert!(7u8.same(&7));
    assert!(!7u16.same(&8));
    assert!(7u32.same(&7));
    assert!(!7u64.same(&8));
    assert!((-1i32).same(&-1));
    assert!(!(-1i64).same(&1));
    assert!(true.same(&true));
    assert!(!true.same(&false));
}

#[test]
fn labels_are_compared_by_identity() {
    assert!(Input('a').same(&Input('a')));
    assert!(!Input('a').same(&Input('b')));
    assert!(!Input('a').same(&Anything));
    assert!(!Input('a').same(&Epsilon));
    assert!(Anything::<char>.same(&Anything));
    assert!(Epsilon::<char>.same(&Epsilon));
    assert!(!Anything::<char>.same(&Epsilon));
    assert!(!Epsilon::<char>.same(&Input('e')));
}

#[test]
fn find_key_returns_the_last_entry_with_the_key() {
    let table = vec![((1usize, 'a'), 10), ((2, 'a'), 20), ((1, 'a'), 30), ((1, 'b'), 40)];
    assert_eq!(find_key(&table, 1, 'a'), Some(2));
    assert_eq!(find_key(&table, 2, 'a'), Some(1));
    assert_eq!(find_key(&table, 1, 'b'), Some(3));
    assert_eq!(find_key(&table, 2, 'b'), None);
    let empty: Vec<((usize, char), usize)> = Vec::new();
    assert_eq!(find_key(&empty, 1, 'a'), None);
}

#[test]
fn contains_tells_membership() {
    assert!(contains(&vec![1usize, 2, 3], 2));
    assert!(!contains(&vec![1usize, 2, 3], 4));
    assert!(!contains(&Vec::<usize>::new(), 1));
}

#[test]
fn insert_adds_only_what_is_missing() {
    let mut list = vec![1usize, 2];
    assert!(insert(&mut list, 3));
    assert_eq!(list, vec![1, 2, 3]);
    assert!(!insert(&mut list, 2));
    assert_eq!(list, vec![1, 2, 3]);
}

#[test]
fn union_into_appends_in_order_without_repeating() {
    let mut dst = vec![1usize, 2];
    union_into(&mut dst, &vec![2, 5, 1, 4, 5]);
    assert_eq!(dst, vec![1, 2, 5, 4]);
    union_into(&mut dst, &vec![]);
    assert_eq!(dst, vec![1, 2, 5, 4]);
}

#[test]
fn subset_and_equality_ignore_order_and_repetition() {
    assert!(subset_of(&vec![2usize, 1, 2], &vec![1, 2, 3]));
    assert!(!subset_of(&vec![1usize, 4], &vec![1, 2, 3]));
    assert!(subset_of(&Vec::<usize>::new(), &vec![1]));
    assert!(same_elements(&vec![1usize, 2, 2], &vec![2, 1]));
    assert!(!same_elements(&vec![1usize, 2], &vec![1, 2, 3]));
    assert!(same_elements(&Vec::<usize>::new(), &Vec::new()));
}
