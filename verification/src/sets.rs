//! Sets of atoms kept as lists.
//!
//! A list stands for the set of its elements. The operations here never add
//! an element that a list already holds, so a list without repetition stays
//! one.

use vstd::prelude::*;
use crate::atom::Atom;

verus! {

/// Whether `x` occurs in `list`.
pub fn contains<T: Atom>(list: &Vec<T>, x: T) -> (r: bool)
    ensures
        r == list@.contains(x),
{
    let mut i: usize = 0;
    while i < list.len()
        invariant
            i <= list.len(),
            forall|j: int| 0 <= j < i ==> list@[j] != x,
        decreases list.len() - i,
    {
        if list[i].same(&x) {
            return true;
        }
        i += 1;
    }
    false
}

/// Appends `x` unless the list holds it already; tells whether it was added.
pub fn insert<T: Atom>(list: &mut Vec<T>, x: T) -> (added: bool)
    ensures
        added == !old(list)@.contains(x),
        added ==> final(list)@ == old(list)@.push(x),
        !added ==> final(list)@ == old(list)@,
        final(list)@.to_set() == old(list)@.to_set().insert(x),
        old(list)@.no_duplicates() ==> final(list)@.no_duplicates(),
{
    if contains(list, x) {
        assert(list@.to_set() =~= list@.to_set().insert(x));
        false
    } else {
        proof {
            list@.lemma_push_to_set_commute(x);
        }
        list.push(x);
        true
    }
}

/// Adds to `dst` every element of `src` that it does not hold yet, in the
/// order of `src`.
pub fn union_into<T: Atom>(dst: &mut Vec<T>, src: &Vec<T>)
    ensures
        final(dst)@.to_set() == old(dst)@.to_set().union(src@.to_set()),
        old(dst)@.is_prefix_of(final(dst)@),
        old(dst)@.no_duplicates() ==> final(dst)@.no_duplicates(),
        final(dst)@.len() == old(dst)@.len() <==> src@.to_set().subset_of(old(dst)@.to_set()),
{
    let mut i: usize = 0;
    while i < src.len()
        invariant
            i <= src.len(),
            dst@.to_set() == old(dst)@.to_set().union(src@.take(i as int).to_set()),
            old(dst)@.is_prefix_of(dst@),
            old(dst)@.no_duplicates() ==> dst@.no_duplicates(),
            dst@.len() == old(dst)@.len() <==> src@.take(i as int).to_set().subset_of(
                old(dst)@.to_set(),
            ),
        decreases src.len() - i,
    {
        let ghost before = dst@;
        let added = insert(dst, src[i]);
        proof {
            let x = src@[i as int];
            let seen = src@.take(i as int).to_set();
            let grown = src@.take(i + 1).to_set();
            let start = old(dst)@.to_set();
            assert(src@.take(i + 1) == src@.take(i as int).push(x));
            src@.take(i as int).lemma_push_to_set_commute(x);
            assert(grown =~= seen.insert(x));
            if added {
                assert(!before.to_set().contains(x));
                assert(!start.contains(x));
            } else if seen.subset_of(start) {
                assert(before.to_set().contains(x));
                assert(grown.subset_of(start));
            } else {
                let y = choose|y: T| seen.contains(y) && !start.contains(y);
                assert(grown.contains(y));
            }
        }
        i += 1;
    }
    assert(src@.take(src@.len() as int) == src@);
}

/// Whether every element of `a` occurs in `b`.
pub fn subset_of<T: Atom>(a: &Vec<T>, b: &Vec<T>) -> (r: bool)
    ensures
        r == a@.to_set().subset_of(b@.to_set()),
{
    let mut i: usize = 0;
    while i < a.len()
        invariant
            i <= a.len(),
            forall|j: int| 0 <= j < i ==> b@.contains(#[trigger] a@[j]),
        decreases a.len() - i,
    {
        if !contains(b, a[i]) {
            assert(a@.to_set().contains(a@[i as int]));
            return false;
        }
        i += 1;
    }
    true
}

/// Whether the two lists hold the same elements, in whatever order and
/// however often.
pub fn same_elements<T: Atom>(a: &Vec<T>, b: &Vec<T>) -> (r: bool)
    ensures
        r == (a@.to_set() == b@.to_set()),
{
    let r = subset_of(a, b) && subset_of(b, a);
    assert(r ==> a@.to_set() =~= b@.to_set());
    r
}

/// One more element of a list is one more element to find in it.
pub proof fn lemma_take_next_contains<T>(list: Seq<T>, k: int, x: T)
    requires
        0 <= k < list.len(),
    ensures
        list.take(k + 1).contains(x) <==> list.take(k).contains(x) || x == list[k],
{
    let shorter = list.take(k);
    let longer = list.take(k + 1);
    if longer.contains(x) {
        let i = choose|i: int| 0 <= i < longer.len() && longer[i] == x;
        if i < k {
            assert(shorter[i] == x);
        }
    }
    if shorter.contains(x) {
        let i = choose|i: int| 0 <= i < shorter.len() && shorter[i] == x;
        assert(longer[i] == x);
    }
    assert(longer[k] == list[k]);
}

/// The pairs of an element of `base` and a number up to `n`.
pub open spec fn pairs_upto<T>(base: Set<T>, n: usize) -> Set<(T, usize)> {
    Set::new(|c: (T, usize)| base.contains(c.0) && c.1 <= n)
}

/// Finitely many elements and numbers make finitely many pairs.
pub proof fn lemma_pairs_upto_finite<T>(base: Set<T>, n: usize)
    requires
        base.finite(),
    ensures
        pairs_upto(base, n).finite(),
    decreases n,
{
    let layer = base.map(|q: T| (q, n));
    base.lemma_map_finite(|q: T| (q, n));
    if n == 0 {
        assert(pairs_upto(base, n) =~= layer);
    } else {
        let fewer: usize = (n - 1) as usize;
        lemma_pairs_upto_finite(base, fewer);
        assert(pairs_upto(base, n) =~= pairs_upto(base, fewer).union(layer));
    }
}

/// The numbers below `n`.
pub open spec fn below(n: usize) -> Set<usize> {
    Set::new(|j: usize| j < n)
}

/// There are `n` numbers below `n`.
pub proof fn lemma_below_len(n: usize)
    ensures
        below(n).finite(),
        below(n).len() == n,
    decreases n,
{
    if n == 0 {
        assert(below(n) =~= Set::<usize>::empty());
    } else {
        let m: usize = (n - 1) as usize;
        lemma_below_len(m);
        assert(below(n) =~= below(m).insert(m));
    }
}

} // verus!
