//! Association lists.
//!
//! A transition table is a list of `(key, value)` entries read like a map that
//! was filled by inserting the entries in order: where a key occurs more than
//! once, the last entry decides.

use vstd::prelude::*;
use crate::atom::Atom;

verus! {

/// The value that the entry list assigns to `key`: that of the last entry
/// with this key, or `None` where no entry has it.
pub open spec fn assoc_get<K, V>(entries: Seq<(K, V)>, key: K) -> Option<V>
    decreases entries.len(),
{
    if entries.len() == 0 {
        None
    } else if entries.last().0 == key {
        Some(entries.last().1)
    } else {
        assoc_get(entries.drop_last(), key)
    }
}

/// Whether `i` is the position of the last entry with `key`.
pub open spec fn is_last_with_key<K, V>(entries: Seq<(K, V)>, key: K, i: int) -> bool {
    &&& 0 <= i < entries.len()
    &&& entries[i].0 == key
    &&& forall|j: int| i < j < entries.len() ==> (#[trigger] entries[j]).0 != key
}

/// Whether no entry has `key`.
pub open spec fn key_absent<K, V>(entries: Seq<(K, V)>, key: K) -> bool {
    forall|j: int| 0 <= j < entries.len() ==> (#[trigger] entries[j]).0 != key
}

/// Whether no two entries have the same key.
pub open spec fn keys_distinct<K, V>(entries: Seq<(K, V)>) -> bool {
    forall|i: int, j: int|
        0 <= i < j < entries.len() ==> (#[trigger] entries[i]).0 != (#[trigger] entries[j]).0
}

/// The last entry with a key decides the value for that key.
pub proof fn lemma_assoc_get_last<K, V>(entries: Seq<(K, V)>, key: K, i: int)
    requires
        is_last_with_key(entries, key, i),
    ensures
        assoc_get(entries, key) == Some(entries[i].1),
    decreases entries.len(),
{
    if i < entries.len() - 1 {
        let rest = entries.drop_last();
        assert(entries.last() == entries[entries.len() - 1]);
        assert forall|j: int| i < j < rest.len() implies (#[trigger] rest[j]).0 != key by {
            assert(rest[j] == entries[j]);
        }
        assert(rest[i] == entries[i]);
        lemma_assoc_get_last(rest, key, i);
    }
}

/// A key that no entry has is assigned nothing.
pub proof fn lemma_assoc_get_absent<K, V>(entries: Seq<(K, V)>, key: K)
    requires
        key_absent(entries, key),
    ensures
        assoc_get(entries, key) is None,
    decreases entries.len(),
{
    if entries.len() > 0 {
        let rest = entries.drop_last();
        assert(entries.last() == entries[entries.len() - 1]);
        assert forall|j: int| 0 <= j < rest.len() implies (#[trigger] rest[j]).0 != key by {
            assert(rest[j] == entries[j]);
        }
        lemma_assoc_get_absent(rest, key);
    }
}

/// A key that is assigned nothing is the key of no entry.
pub proof fn lemma_assoc_get_none<K, V>(entries: Seq<(K, V)>, key: K)
    requires
        assoc_get(entries, key) is None,
    ensures
        key_absent(entries, key),
    decreases entries.len(),
{
    if entries.len() > 0 {
        let rest = entries.drop_last();
        lemma_assoc_get_none(rest, key);
        assert forall|j: int| 0 <= j < entries.len() implies (#[trigger] entries[j]).0 != key by {
            if j < rest.len() {
                assert(rest[j] == entries[j]);
            }
        }
    }
}

/// Whatever a list assigns to a key is the value of one of its entries with
/// that key, and of the last such entry.
pub proof fn lemma_assoc_get_some<K, V>(entries: Seq<(K, V)>, key: K) -> (i: int)
    requires
        assoc_get(entries, key) is Some,
    ensures
        is_last_with_key(entries, key, i),
        assoc_get(entries, key) == Some(entries[i].1),
    decreases entries.len(),
{
    if entries.last().0 == key {
        entries.len() - 1
    } else {
        let rest = entries.drop_last();
        let i = lemma_assoc_get_some(rest, key);
        assert(rest[i] == entries[i]);
        assert forall|j: int| i < j < entries.len() implies (#[trigger] entries[j]).0 != key by {
            if j < rest.len() {
                assert(rest[j] == entries[j]);
            }
        }
        i
    }
}

/// Position of the last entry of `table` whose key is `(a, b)`.
pub fn find_key<A: Atom, B: Atom, V>(table: &Vec<((A, B), V)>, a: A, b: B) -> (r: Option<usize>)
    ensures
        match r {
            Some(i) => is_last_with_key(table@, (a, b), i as int) && assoc_get(table@, (a, b))
                == Some(table@[i as int].1),
            None => key_absent(table@, (a, b)) && assoc_get(table@, (a, b)) is None,
        },
{
    let mut i: usize = table.len();
    while i > 0
        invariant
            i <= table.len(),
            forall|j: int| i <= j < table@.len() ==> (#[trigger] table@[j]).0 != (a, b),
        decreases i,
    {
        i -= 1;
        if table[i].0.0.same(&a) && table[i].0.1.same(&b) {
            proof {
                lemma_assoc_get_last(table@, (a, b), i as int);
            }
            return Some(i);
        }
    }
    proof {
        lemma_assoc_get_absent(table@, (a, b));
    }
    None
}

} // verus!
