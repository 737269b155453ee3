//! Counting the subsets of a finite set.

use vstd::prelude::*;
use vstd::arithmetic::power2::{lemma_pow2_unfold, pow2};
use vstd::relations::injective_on;
use vstd::set_lib::{lemma_len_subset, lemma_map_size, lemma_set_disjoint_lens};

verus! {

/// A family of subsets of a finite set of `n` elements is finite and has at
/// most `2^n` members.
pub proof fn lemma_family_bound<A>(family: Set<Set<A>>, base: Set<A>)
    requires
        base.finite(),
        forall|s: Set<A>| #[trigger] family.contains(s) ==> s.subset_of(base),
    ensures
        family.finite(),
        family.len() <= pow2(base.len()),
    decreases base.len(),
{
    if base.len() == 0 {
        let only = set![Set::<A>::empty()];
        assert forall|s: Set<A>| family.contains(s) implies only.contains(s) by {
            assert(s.subset_of(base));
            assert(base =~= Set::<A>::empty());
            assert(s =~= Set::<A>::empty());
        }
        lemma_len_subset(family, only);
        assert(only.len() == 1);
        assert(pow2(0) == 1) by {
            vstd::arithmetic::power2::lemma2_to64();
        }
    } else {
        let x = base.choose();
        let rest = base.remove(x);
        let with = family.filter(|s: Set<A>| s.contains(x));
        let without = family.filter(|s: Set<A>| !s.contains(x));
        let strip = |s: Set<A>| s.remove(x);
        let put = |s: Set<A>| s.insert(x);
        let stripped = with.map(strip);

        assert forall|s: Set<A>| #[trigger] without.contains(s) implies s.subset_of(rest) by {
            assert(family.contains(s));
        }
        lemma_family_bound(without, rest);

        assert forall|t: Set<A>| #[trigger] stripped.contains(t) implies t.subset_of(rest)
            && !t.contains(x) by {
            let s = choose|s: Set<A>| with.contains(s) && strip(s) == t;
            assert(family.contains(s));
        }
        lemma_family_bound(stripped, rest);

        assert(injective_on(put, stripped)) by {
            assert forall|t1: Set<A>, t2: Set<A>|
                stripped.contains(t1) && stripped.contains(t2) && #[trigger] put(t1)
                    == #[trigger] put(t2) implies t1 == t2 by {
                assert(t1 =~= put(t1).remove(x));
                assert(t2 =~= put(t2).remove(x));
            }
        }
        assert(stripped.map(put) =~= with) by {
            assert forall|s: Set<A>| with.contains(s) implies stripped.map(put).contains(s) by {
                assert(stripped.contains(strip(s)));
                assert(put(strip(s)) =~= s);
            }
            assert forall|s: Set<A>| stripped.map(put).contains(s) implies with.contains(s) by {
                let t = choose|t: Set<A>| stripped.contains(t) && put(t) == s;
                let s0 = choose|s0: Set<A>| with.contains(s0) && strip(s0) == t;
                assert(put(strip(s0)) =~= s0);
            }
        }
        lemma_map_size(stripped, with, put);

        assert(family =~= with + without);
        assert(with.disjoint(without));
        lemma_set_disjoint_lens(with, without);
        lemma_pow2_unfold(base.len());
    }
}

/// A list of pairwise different subsets of a finite set of `n` elements has
/// at most `2^n` entries.
pub proof fn lemma_distinct_subsets_bound<A>(subsets: Seq<Set<A>>, base: Set<A>)
    requires
        base.finite(),
        subsets.no_duplicates(),
        forall|i: int| 0 <= i < subsets.len() ==> (#[trigger] subsets[i]).subset_of(base),
    ensures
        subsets.len() <= pow2(base.len()),
{
    let family = subsets.to_set();
    assert forall|s: Set<A>| #[trigger] family.contains(s) implies s.subset_of(base) by {
        let i = choose|i: int| 0 <= i < subsets.len() && subsets[i] == s;
        assert(subsets[i].subset_of(base));
    }
    lemma_family_bound(family, base);
    subsets.unique_seq_to_set();
}

} // verus!
