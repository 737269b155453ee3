//! The subset construction, which turns a nondeterministic automaton into a
//! deterministic one whose states stand for sets of its states.

use vstd::arithmetic::power2::pow2;
use vstd::prelude::*;
use vstd::seq_lib::lemma_seq_contains_after_push;
use crate::atom::Atom;
use crate::dfa::DFA;
use crate::nfa::{Transition, NFA};
use crate::powerset::lemma_distinct_subsets_bound;
use crate::sets::{insert, lemma_take_next_contains, same_elements, union_into};
use crate::table::{assoc_get, keys_distinct, lemma_assoc_get_none};

verus! {

/// The labels that consume a symbol, each once, in the order in which the
/// entries first name them.
pub open spec fn distinct_labels<S, I>(entries: Seq<((S, Transition<I>), Vec<S>)>) -> Seq<
    Transition<I>,
>
    decreases entries.len(),
{
    if entries.len() == 0 {
        Seq::empty()
    } else {
        let earlier = distinct_labels(entries.drop_last());
        let l = entries.last().0.1;
        if l == Transition::<I>::Epsilon || earlier.contains(l) {
            earlier
        } else {
            earlier.push(l)
        }
    }
}

/// `distinct_labels` repeats no label, and holds the labels other than the
/// free move that some entry names.
pub proof fn lemma_distinct_labels<S, I>(entries: Seq<((S, Transition<I>), Vec<S>)>)
    ensures
        distinct_labels(entries).no_duplicates(),
        forall|l: Transition<I>|
            distinct_labels(entries).contains(l) <==> l != Transition::<I>::Epsilon && exists|
                k: int,
            |
                0 <= k < entries.len() && (#[trigger] entries[k]).0.1 == l,
    decreases entries.len(),
{
    if entries.len() > 0 {
        let rest = entries.drop_last();
        let earlier = distinct_labels(rest);
        let last = entries.last().0.1;
        let all = distinct_labels(entries);
        lemma_distinct_labels(rest);
        assert(entries[entries.len() - 1].0.1 == last);
        assert forall|l: Transition<I>| all.contains(l) <==> earlier.contains(l) || (l == last
            && l != Transition::<I>::Epsilon) by {
            if all.contains(l) {
                let i = choose|i: int| 0 <= i < all.len() && all[i] == l;
                if i < earlier.len() {
                    assert(earlier[i] == l);
                }
            }
            if earlier.contains(l) {
                let i = choose|i: int| 0 <= i < earlier.len() && earlier[i] == l;
                assert(all[i] == l);
            } else if l == last && l != Transition::<I>::Epsilon {
                assert(all[earlier.len() as int] == l);
            }
        }
        assert forall|l: Transition<I>|
            all.contains(l) <==> l != Transition::<I>::Epsilon && exists|k: int|
                0 <= k < entries.len() && (#[trigger] entries[k]).0.1 == l by {
            if earlier.contains(l) {
                let k = choose|k: int| 0 <= k < rest.len() && (#[trigger] rest[k]).0.1 == l;
                assert(entries[k].0.1 == l);
            }
            if l != Transition::<I>::Epsilon && exists|k: int|
                0 <= k < entries.len() && (#[trigger] entries[k]).0.1 == l {
                let k = choose|k: int| 0 <= k < entries.len() && (#[trigger] entries[k]).0.1 == l;
                if k < rest.len() {
                    assert(rest[k].0.1 == l);
                    assert(earlier.contains(l));
                }
            }
        }
    }
}

/// Whether `(i, k)` comes before `(i2, k2)`: an earlier subset, or the same
/// subset and an earlier label.
pub open spec fn precedes(i: int, k: int, i2: int, k2: int) -> bool {
    i < i2 || (i == i2 && k < k2)
}

impl<S: Atom, I: Atom> NFA<S, I> {
    /// The labels of the alphabet in the order in which the table first names
    /// them.
    pub open spec fn labels(&self) -> Seq<Transition<I>> {
        distinct_labels(self.entries())
    }

    /// The labels that consume a symbol and occur in the table.
    pub open spec fn alphabet(&self) -> Set<Transition<I>> {
        Set::new(
            |l: Transition<I>|
                l != Transition::<I>::Epsilon && exists|k: int|
                    0 <= k < self.entries().len() && (#[trigger] self.entries()[k]).0.1 == l,
        )
    }

    /// What the wildcard adds to `reach`, the states that one wildcard move
    /// leads to: the states one further move away, on any exact label of the
    /// alphabet. Any other label adds nothing.
    pub open spec fn absorb(&self, reach: Set<S>, l: Transition<I>) -> Set<S> {
        if l == Transition::<I>::Anything {
            reach.union(
                Set::new(
                    |q: S|
                        exists|b: Transition<I>|
                            self.alphabet().contains(b) && b != Transition::<I>::Anything
                                && #[trigger] self.step_set(reach, b).contains(q),
                ),
            )
        } else {
            reach
        }
    }

    /// The subset that the construction moves to from the subset `from` on
    /// the label `l`: one `l`-move, what the wildcard absorbs, and free moves
    /// after that.
    pub open spec fn subset_step(&self, from: Set<S>, l: Transition<I>) -> Set<S> {
        self.eps_closure(self.absorb(self.step_set(from, l), l))
    }

    /// Whether the construction gives the subset numbered `id` a move on `a`:
    /// the label is of the alphabet and leads to some state.
    pub open spec fn expands(&self, subsets: Seq<Set<S>>, id: usize, a: Transition<I>) -> bool {
        &&& id < subsets.len()
        &&& self.alphabet().contains(a)
        &&& exists|q: S| #[trigger] self.subset_step(subsets[id as int], a).contains(q)
    }

    /// The subset that the subset numbered `i` moves to on the label
    /// numbered `k`.
    pub open spec fn target(&self, subsets: Seq<Set<S>>, i: int, k: int) -> Set<S> {
        self.subset_step(subsets[i], self.labels()[k])
    }

    /// Whether the subset numbered `j` is first found as what the subset
    /// numbered `i` moves to on the label numbered `k`: it holds a state, an
    /// earlier subset moves to it, and no move that comes before does.
    pub open spec fn found_at(&self, subsets: Seq<Set<S>>, j: int, i: int, k: int) -> bool {
        &&& 0 <= i < j
        &&& 0 <= k < self.labels().len()
        &&& exists|q: S| subsets[j].contains(q)
        &&& subsets[j] == self.target(subsets, i, k)
        &&& forall|i2: int, k2: int|
            0 <= i2 && 0 <= k2 < self.labels().len() && precedes(i2, k2, i, k)
                ==> #[trigger] self.target(subsets, i2, k2) != subsets[j]
    }

    /// Whether the subset numbered `j` is first found somewhere.
    pub open spec fn found(&self, subsets: Seq<Set<S>>, j: int) -> bool {
        exists|i: int, k: int| #[trigger] self.found_at(subsets, j, i, k)
    }

    /// Whether `dfa` is the subset automaton of `self`, its state `id` standing
    /// for the subset `subsets[id]`.
    ///
    /// State 0 stands for the free-move closure of the start state. The
    /// subsets are pairwise different, each but the first is one that an
    /// earlier one moves to, and they are numbered in the order in which they
    /// are first found. A state has a move on a label exactly where the
    /// construction gives its subset one, and to the state of the subset
    /// moved to. A state accepts exactly if its subset holds an accept state.
    pub open spec fn subset_construction(&self, dfa: &DFA<usize, I>, subsets: Seq<Set<S>>) -> bool {
        &&& dfa.start == 0
        &&& 1 <= subsets.len() <= usize::MAX
        &&& subsets[0] == self.eps_closure(set![self.start_state()])
        &&& subsets.no_duplicates()
        &&& forall|j: int| 1 <= j < subsets.len() ==> #[trigger] self.found(subsets, j)
        &&& forall|j1: int, j2: int, i1: int, k1: int, i2: int, k2: int|
            1 <= j1 < j2 < subsets.len() && #[trigger] self.found_at(subsets, j1, i1, k1)
                && #[trigger] self.found_at(subsets, j2, i2, k2) ==> precedes(i1, k1, i2, k2)
        &&& forall|j: usize|
            dfa.accept_set().contains(j) <==> j < subsets.len() && !subsets[j as int].disjoint(
                self.accept_set(),
            )
        &&& forall|id: usize, a: Transition<I>|
            match #[trigger] dfa.delta(id, a) {
                Some(j) => self.expands(subsets, id, a) && j < subsets.len() && subsets[j as int]
                    == self.subset_step(subsets[id as int], a),
                None => !self.expands(subsets, id, a),
            }
    }

    /// Whether `dfa` is a subset automaton of `self`, whichever subsets its
    /// states stand for.
    pub open spec fn constructs(&self, dfa: &DFA<usize, I>) -> bool {
        exists|subsets: Seq<Set<S>>| self.subset_construction(dfa, subsets)
    }

    /// The states that subsets are made of: the start state and every
    /// destination of the table.
    pub open spec fn reach_base(&self) -> Set<S> {
        set![self.start_state()].union(self.dest_set())
    }

    /// The listed labels are those of the alphabet, each once.
    pub proof fn lemma_labels_are_alphabet(&self)
        ensures
            self.labels().no_duplicates(),
            self.labels().to_set() == self.alphabet(),
    {
        lemma_distinct_labels(self.entries());
        assert(self.labels().to_set() =~= self.alphabet());
    }

    /// Every subset that the construction moves to is made of destinations
    /// of the table.
    pub proof fn lemma_subset_step_in_dest_set(&self, from: Set<S>, l: Transition<I>)
        ensures
            self.subset_step(from, l).subset_of(self.dest_set()),
    {
        let reach = self.step_set(from, l);
        let absorbed = self.absorb(reach, l);
        self.lemma_step_set_in_dest_set(from, l);
        assert forall|q: S| absorbed.contains(q) implies self.dest_set().contains(q) by {
            if !reach.contains(q) {
                let b = choose|b: Transition<I>|
                    self.alphabet().contains(b) && b != Transition::<I>::Anything
                        && #[trigger] self.step_set(reach, b).contains(q);
                self.lemma_step_set_in_dest_set(reach, b);
            }
        }
        self.lemma_eps_closure_in_dest_set(absorbed);
    }

    /// A subset is first found at one place only.
    pub proof fn lemma_found_once(
        &self,
        subsets: Seq<Set<S>>,
        j: int,
        i1: int,
        k1: int,
        i2: int,
        k2: int,
    )
        requires
            self.found_at(subsets, j, i1, k1),
            self.found_at(subsets, j, i2, k2),
        ensures
            i1 == i2,
            k1 == k2,
    {
        if precedes(i1, k1, i2, k2) {
            assert(self.target(subsets, i1, k1) != subsets[j]);
        }
        if precedes(i2, k2, i1, k1) {
            assert(self.target(subsets, i2, k2) != subsets[j]);
        }
    }
}

/// Position of a list in `subsets` that holds the same elements as `target`.
fn find_subset<S: Atom>(subsets: &Vec<Vec<S>>, target: &Vec<S>) -> (r: Option<usize>)
    ensures
        match r {
            Some(i) => i < subsets@.len() && subsets@[i as int]@.to_set() == target@.to_set(),
            None => forall|i: int|
                0 <= i < subsets@.len() ==> (#[trigger] subsets@[i])@.to_set() != target@.to_set(),
        },
{
    let mut i: usize = 0;
    while i < subsets.len()
        invariant
            i <= subsets.len(),
            forall|j: int| 0 <= j < i ==> (#[trigger] subsets@[j])@.to_set() != target@.to_set(),
        decreases subsets.len() - i,
    {
        if same_elements(&subsets[i], target) {
            return Some(i);
        }
        i += 1;
    }
    None
}

impl<S: Atom, I: Atom> NFA<S, I> {
    /// The labels of the alphabet, each once, in the order in which the table
    /// first names them.
    fn alphabet_list(&self) -> (r: Vec<Transition<I>>)
        ensures
            r@ == self.labels(),
    {
        let table = self.get_transitions();
        let mut alphabet: Vec<Transition<I>> = Vec::new();
        let mut k: usize = 0;
        assert(table@.take(0) =~= Seq::empty());
        while k < table.len()
            invariant
                k <= table@.len(),
                table@ == self.entries(),
                alphabet@ == distinct_labels(table@.take(k as int)),
            decreases table.len() - k,
        {
            let l = table[k].0.1;
            proof {
                assert(table@.take(k + 1).drop_last() == table@.take(k as int));
                assert(table@.take(k + 1).last() == table@[k as int]);
            }
            match l {
                Transition::Epsilon => {},
                _ => {
                    insert(&mut alphabet, l);
                },
            }
            k += 1;
        }
        assert(table@.take(table@.len() as int) == table@);
        alphabet
    }

    /// The subset that the construction moves to from `from` on `a`, each
    /// state listed once.
    fn subset_successor(&self, alphabet: &Vec<Transition<I>>, from: &Vec<S>, a: Transition<I>) -> (r:
        Vec<S>)
        requires
            alphabet@.to_set() == self.alphabet(),
        ensures
            r@.to_set() == self.subset_step(from@.to_set(), a),
            r@.no_duplicates(),
    {
        let mut new_state = self.reachable_states(from, a);
        let ghost reach = new_state@.to_set();
        if a.same(&Transition::Anything) {
            let mut moved: Vec<S> = Vec::new();
            union_into(&mut moved, &new_state);
            let mut k: usize = 0;
            while k < alphabet.len()
                invariant
                    k <= alphabet.len(),
                    alphabet@.to_set() == self.alphabet(),
                    moved@.to_set() == reach,
                    new_state@.no_duplicates(),
                    new_state@.to_set() == reach.union(
                        Set::new(
                            |q: S|
                                exists|b: Transition<I>|
                                    alphabet@.take(k as int).contains(b) && b
                                        != Transition::<I>::Anything && #[trigger] self.step_set(
                                        reach,
                                        b,
                                    ).contains(q),
                        ),
                    ),
                decreases alphabet.len() - k,
            {
                let b = alphabet[k];
                let ghost before = new_state@.to_set();
                if !b.same(&Transition::Anything) {
                    let extra_states = self.reachable_states(&moved, b);
                    union_into(&mut new_state, &extra_states);
                }
                proof {
                    let done = alphabet@.take(k as int);
                    let grown = alphabet@.take(k + 1);
                    assert forall|x: Transition<I>| grown.contains(x) <==> done.contains(x) || x
                        == b by {
                        lemma_take_next_contains(alphabet@, k as int, x);
                    }
                    let target = reach.union(
                        Set::new(
                            |q: S|
                                exists|b: Transition<I>|
                                    grown.contains(b) && b != Transition::<I>::Anything
                                        && #[trigger] self.step_set(reach, b).contains(q),
                        ),
                    );
                    assert forall|q: S| new_state@.to_set().contains(q) implies target.contains(
                        q,
                    ) by {
                        if before.contains(q) {
                            if !reach.contains(q) {
                                let b0 = choose|b0: Transition<I>|
                                    done.contains(b0) && b0 != Transition::<I>::Anything
                                        && #[trigger] self.step_set(reach, b0).contains(q);
                                assert(grown.contains(b0));
                            }
                        } else {
                            assert(self.step_set(reach, b).contains(q));
                            assert(grown.contains(b));
                        }
                    }
                    assert forall|q: S| target.contains(q) implies new_state@.to_set().contains(
                        q,
                    ) by {
                        if !reach.contains(q) {
                            let b0 = choose|b0: Transition<I>|
                                grown.contains(b0) && b0 != Transition::<I>::Anything
                                    && #[trigger] self.step_set(reach, b0).contains(q);
                            if done.contains(b0) {
                                assert(before.contains(q));
                            }
                        }
                    }
                    assert(new_state@.to_set() =~= target);
                }
                k += 1;
            }
            proof {
                assert(alphabet@.take(alphabet@.len() as int) == alphabet@);
                assert(new_state@.to_set() =~= self.absorb(reach, a));
            }
        }
        self.epsilon_closure(&mut new_state);
        new_state
    }

    /// Whether the move of subset `id` on `a` is due and has been looked at,
    /// when the subsets before `cur` are done with and the subset `cur` is
    /// done with on the labels before `k`.
    spec fn expanded(
        &self,
        subsets: Seq<Set<S>>,
        cur: int,
        k: int,
        id: usize,
        a: Transition<I>,
    ) -> bool {
        self.expands(subsets, id, a) && (id < cur || (id == cur && self.labels().take(k).contains(
            a,
        )))
    }

    /// What holds of the subsets, the places where they were found, the
    /// accept states and the moves so far, when the subsets before `cur` are
    /// done with and the subset `cur` is done with on the labels before `k`.
    spec fn discovery(
        &self,
        subsets: Seq<Set<S>>,
        origins: Seq<(int, int)>,
        accept: Seq<usize>,
        moves: Seq<((usize, Transition<I>), usize)>,
        cur: int,
        k: int,
    ) -> bool {
        &&& 1 <= subsets.len() <= usize::MAX
        &&& origins.len() == subsets.len()
        &&& subsets[0] == self.eps_closure(set![self.start_state()])
        &&& subsets.no_duplicates()
        &&& forall|j: int|
            1 <= j < subsets.len() ==> #[trigger] self.found_at(
                subsets,
                j,
                origins[j].0,
                origins[j].1,
            )
        &&& forall|j: int|
            1 <= j < subsets.len() ==> precedes((#[trigger] origins[j]).0, origins[j].1, cur, k)
        &&& forall|j1: int, j2: int|
            1 <= j1 < j2 < subsets.len() ==> precedes(
                (#[trigger] origins[j1]).0,
                origins[j1].1,
                (#[trigger] origins[j2]).0,
                origins[j2].1,
            )
        &&& forall|j: int|
            0 <= j < subsets.len() ==> (#[trigger] subsets[j]).subset_of(self.reach_base())
        &&& accept.no_duplicates()
        &&& keys_distinct(moves)
        &&& forall|j: usize|
            accept.contains(j) <==> j < subsets.len() && !subsets[j as int].disjoint(
                self.accept_set(),
            )
        &&& forall|id: usize, a: Transition<I>|
            match #[trigger] assoc_get(moves, (id, a)) {
                Some(j) => self.expanded(subsets, cur, k, id, a) && j < subsets.len()
                    && subsets[j as int] == self.subset_step(subsets[id as int], a),
                None => !self.expanded(subsets, cur, k, id, a),
            }
    }

    /// Looking at one more label of the subset `cur` makes due the move on
    /// that label, and no other.
    proof fn lemma_expanded_next(
        &self,
        subsets: Seq<Set<S>>,
        cur: usize,
        k: int,
        id: usize,
        a: Transition<I>,
    )
        requires
            0 <= k < self.labels().len(),
        ensures
            self.expanded(subsets, cur as int, k + 1, id, a) == (self.expanded(
                subsets,
                cur as int,
                k,
                id,
                a,
            ) || (id == cur && a == self.labels()[k] && self.expands(subsets, id, a))),
            !self.expanded(subsets, cur as int, k, cur, self.labels()[k]),
    {
        lemma_take_next_contains(self.labels(), k, a);
        self.lemma_labels_are_alphabet();
        if self.labels().take(k).contains(self.labels()[k]) {
            let i = choose|i: int|
                0 <= i < self.labels().take(k).len() && self.labels().take(k)[i]
                    == self.labels()[k];
            assert(self.labels()[i] == self.labels()[k]);
        }
    }

    /// The move of the subset `cur` on the label numbered `k` is not among the
    /// moves before that label is looked at.
    proof fn lemma_new_key(
        &self,
        subsets: Seq<Set<S>>,
        origins: Seq<(int, int)>,
        accept: Seq<usize>,
        moves: Seq<((usize, Transition<I>), usize)>,
        cur: usize,
        k: int,
        to: usize,
    )
        requires
            self.discovery(subsets, origins, accept, moves, cur as int, k),
            0 <= k < self.labels().len(),
        ensures
            keys_distinct(moves.push(((cur, self.labels()[k]), to))),
    {
        let a = self.labels()[k];
        let grown = moves.push(((cur, a), to));
        self.lemma_expanded_next(subsets, cur, k, cur, a);
        assert(assoc_get(moves, (cur, a)) is None);
        lemma_assoc_get_none(moves, (cur, a));
        assert forall|i: int, j: int| 0 <= i < j < grown.len() implies (#[trigger] grown[i]).0
            != (#[trigger] grown[j]).0 by {
            assert(grown[i] == moves[i]);
            if j < moves.len() {
                assert(grown[j] == moves[j]);
            }
        }
    }

    /// A label that leads nowhere adds no move.
    proof fn lemma_discovery_skip(
        &self,
        subsets: Seq<Set<S>>,
        origins: Seq<(int, int)>,
        accept: Seq<usize>,
        moves: Seq<((usize, Transition<I>), usize)>,
        cur: usize,
        k: int,
    )
        requires
            self.discovery(subsets, origins, accept, moves, cur as int, k),
            cur < subsets.len(),
            0 <= k < self.labels().len(),
            forall|q: S| !self.target(subsets, cur as int, k).contains(q),
        ensures
            self.discovery(subsets, origins, accept, moves, cur as int, k + 1),
    {
        assert forall|id: usize, a: Transition<I>|
            self.expanded(subsets, cur as int, k + 1, id, a) == self.expanded(
                subsets,
                cur as int,
                k,
                id,
                a,
            ) by {
            self.lemma_expanded_next(subsets, cur, k, id, a);
            if id == cur && a == self.labels()[k] && self.expands(subsets, id, a) {
                let q = choose|q: S| #[trigger] self.subset_step(subsets[id as int], a).contains(q);
                assert(self.target(subsets, cur as int, k).contains(q));
            }
        }
    }

    /// A label that leads to the subset numbered `to` adds the move to it.
    proof fn lemma_discovery_link(
        &self,
        subsets: Seq<Set<S>>,
        origins: Seq<(int, int)>,
        accept: Seq<usize>,
        moves: Seq<((usize, Transition<I>), usize)>,
        cur: usize,
        k: int,
        to: usize,
    )
        requires
            self.discovery(subsets, origins, accept, moves, cur as int, k),
            cur < subsets.len(),
            0 <= k < self.labels().len(),
            to < subsets.len(),
            subsets[to as int] == self.target(subsets, cur as int, k),
            exists|q: S| subsets[to as int].contains(q),
        ensures
            self.discovery(
                subsets,
                origins,
                accept,
                moves.push(((cur, self.labels()[k]), to)),
                cur as int,
                k + 1,
            ),
    {
        let a = self.labels()[k];
        let grown = moves.push(((cur, a), to));
        assert(grown.last() == ((cur, a), to));
        assert(grown.drop_last() == moves);
        self.lemma_labels_are_alphabet();
        assert(self.labels().to_set().contains(a));
        let q = choose|q: S| subsets[to as int].contains(q);
        assert(self.subset_step(subsets[cur as int], a).contains(q));
        assert(self.expands(subsets, cur, a));
        self.lemma_new_key(subsets, origins, accept, moves, cur, k, to);
        assert forall|id: usize, b: Transition<I>|
            match #[trigger] assoc_get(grown, (id, b)) {
                Some(j) => self.expanded(subsets, cur as int, k + 1, id, b) && j < subsets.len()
                    && subsets[j as int] == self.subset_step(subsets[id as int], b),
                None => !self.expanded(subsets, cur as int, k + 1, id, b),
            } by {
            self.lemma_expanded_next(subsets, cur, k, id, b);
            if (id, b) != (cur, a) {
                assert(assoc_get(grown, (id, b)) == assoc_get(moves, (id, b)));
            }
        }
    }

    /// A subset that was not found before joins the list under the next
    /// number, with the move to it, and accepts if it holds an accept state.
    proof fn lemma_discovery_found(
        &self,
        subsets: Seq<Set<S>>,
        origins: Seq<(int, int)>,
        accept: Seq<usize>,
        moves: Seq<((usize, Transition<I>), usize)>,
        cur: usize,
        k: int,
        accepting: bool,
    )
        requires
            self.discovery(subsets, origins, accept, moves, cur as int, k),
            cur < subsets.len() < usize::MAX,
            0 <= k < self.labels().len(),
            forall|i: int|
                0 <= i < subsets.len() ==> #[trigger] subsets[i] != self.target(
                    subsets,
                    cur as int,
                    k,
                ),
            exists|q: S| self.target(subsets, cur as int, k).contains(q),
            accepting == !self.target(subsets, cur as int, k).disjoint(self.accept_set()),
        ensures
            self.discovery(
                subsets.push(self.target(subsets, cur as int, k)),
                origins.push((cur as int, k)),
                if accepting {
                    accept.push(subsets.len() as usize)
                } else {
                    accept
                },
                moves.push(((cur, self.labels()[k]), subsets.len() as usize)),
                cur as int,
                k + 1,
            ),
    {
        let a = self.labels()[k];
        let reach = self.target(subsets, cur as int, k);
        let more = subsets.push(reach);
        let places = origins.push((cur as int, k));
        let id = subsets.len() as usize;
        let marked = if accepting {
            accept.push(id)
        } else {
            accept
        };
        let grown = moves.push(((cur, a), id));
        assert(grown.last() == ((cur, a), id));
        assert(grown.drop_last() == moves);
        self.lemma_labels_are_alphabet();
        self.lemma_subset_step_in_dest_set(subsets[cur as int], a);
        self.lemma_new_key(subsets, origins, accept, moves, cur, k, id);

        // The subsets that were there move where they moved before.
        assert forall|i2: int, k2: int|
            0 <= i2 < subsets.len() && 0 <= k2 < self.labels().len() implies self.target(
                more,
                i2,
                k2,
            ) == #[trigger] self.target(subsets, i2, k2) by {
            assert(more[i2] == subsets[i2]);
        }

        // Each of them is first found where it was, and the new one here.
        assert forall|j: int| 1 <= j < more.len() implies precedes(
            (#[trigger] places[j]).0,
            places[j].1,
            cur as int,
            k + 1,
        ) by {
            if j < subsets.len() {
                assert(places[j] == origins[j]);
            }
        }
        assert forall|j: int| 1 <= j < more.len() implies #[trigger] self.found_at(
            more,
            j,
            places[j].0,
            places[j].1,
        ) by {
            if j < subsets.len() {
                let (i, kk) = origins[j];
                assert(self.found_at(subsets, j, i, kk));
                assert(places[j] == origins[j]);
                assert(more[j] == subsets[j]);
                assert forall|i2: int, k2: int|
                    0 <= i2 && 0 <= k2 < self.labels().len() && precedes(
                        i2,
                        k2,
                        i,
                        kk,
                    ) implies #[trigger] self.target(more, i2, k2) != more[j] by {
                    assert(self.target(subsets, i2, k2) != subsets[j]);
                }
            } else {
                // A move before this one leads nowhere, or to a subset that
                // was there, and the new subset is none of those.
                assert(places[j] == (cur as int, k));
                assert(more[j] == reach);
                assert forall|i2: int, k2: int|
                    0 <= i2 && 0 <= k2 < self.labels().len() && precedes(
                        i2,
                        k2,
                        cur as int,
                        k,
                    ) implies #[trigger] self.target(more, i2, k2) != more[j] by {
                    let b = self.labels()[k2];
                    let from = self.target(subsets, i2, k2);
                    if exists|q: S| from.contains(q) {
                        assert(self.labels().to_set().contains(b));
                        assert(self.expands(subsets, i2 as usize, b));
                        if i2 == cur {
                            assert(self.labels().take(k)[k2] == b);
                        }
                        assert(self.expanded(subsets, cur as int, k, i2 as usize, b));
                        let t = assoc_get(moves, (i2 as usize, b)).unwrap();
                        assert(subsets[t as int] == from);
                    }
                }
            }
        }
        assert forall|j1: int, j2: int| 1 <= j1 < j2 < more.len() implies precedes(
            (#[trigger] places[j1]).0,
            places[j1].1,
            (#[trigger] places[j2]).0,
            places[j2].1,
        ) by {
            assert(places[j1] == origins[j1]);
            if j2 < subsets.len() {
                assert(places[j2] == origins[j2]);
            }
        }

        // The new number is marked as accepting exactly if its subset holds
        // an accept state, and no mark is there twice.
        assert forall|j: usize|
            marked.contains(j) <==> j < more.len() && !more[j as int].disjoint(
                self.accept_set(),
            ) by {
            if accepting {
                lemma_seq_contains_after_push(accept, id, j);
            }
            if j < subsets.len() {
                assert(more[j as int] == subsets[j as int]);
            }
        }
        assert(marked.no_duplicates()) by {
            if accepting {
                assert forall|i: int| 0 <= i < accept.len() implies accept[i] != id by {
                    assert(accept.contains(accept[i]));
                }
            }
        }

        // The moves are those that were there and the move to the new subset.
        let q = choose|q: S| reach.contains(q);
        assert(self.subset_step(more[cur as int], a).contains(q));
        assert forall|id2: usize, b: Transition<I>|
            match #[trigger] assoc_get(grown, (id2, b)) {
                Some(j) => self.expanded(more, cur as int, k + 1, id2, b) && j < more.len()
                    && more[j as int] == self.subset_step(more[id2 as int], b),
                None => !self.expanded(more, cur as int, k + 1, id2, b),
            } by {
            self.lemma_expanded_next(subsets, cur, k, id2, b);
            if id2 <= cur {
                assert(more[id2 as int] == subsets[id2 as int]);
            }
            if (id2, b) != (cur, a) {
                assert(assoc_get(grown, (id2, b)) == assoc_get(moves, (id2, b)));
                if assoc_get(moves, (id2, b)) is Some {
                    let j = assoc_get(moves, (id2, b)).unwrap();
                    assert(more[j as int] == subsets[j as int]);
                }
            }
        }
    }

    /// A subset whose labels have all been looked at is done with.
    proof fn lemma_discovery_next(
        &self,
        subsets: Seq<Set<S>>,
        origins: Seq<(int, int)>,
        accept: Seq<usize>,
        moves: Seq<((usize, Transition<I>), usize)>,
        cur: usize,
    )
        requires
            self.discovery(subsets, origins, accept, moves, cur as int, self.labels().len() as int),
            cur < subsets.len(),
        ensures
            self.discovery(subsets, origins, accept, moves, cur + 1, 0),
    {
        let all = self.labels();
        self.lemma_labels_are_alphabet();
        assert(all.take(all.len() as int) == all);
        assert forall|id: usize, b: Transition<I>|
            self.expanded(subsets, cur + 1, 0, id, b) == self.expanded(
                subsets,
                cur as int,
                all.len() as int,
                id,
                b,
            ) by {
            if self.expands(subsets, id, b) {
                assert(all.to_set().contains(b));
            }
        }
    }

    /// Once every subset is done with, the subsets, accept states and moves
    /// make a subset automaton.
    proof fn lemma_discovery_done(
        &self,
        dfa: &DFA<usize, I>,
        subsets: Seq<Set<S>>,
        origins: Seq<(int, int)>,
    )
        requires
            dfa.start == 0,
            self.discovery(
                subsets,
                origins,
                dfa.accept_states@,
                dfa.transitions@,
                subsets.len() as int,
                0,
            ),
        ensures
            self.subset_construction(dfa, subsets),
            dfa.accept_states@.no_duplicates(),
            keys_distinct(dfa.transitions@),
    {
        assert forall|id: usize, a: Transition<I>|
            self.expanded(subsets, subsets.len() as int, 0, id, a) == self.expands(
                subsets,
                id,
                a,
            ) by {}
        assert forall|j: int| 1 <= j < subsets.len() implies #[trigger] self.found(
            subsets,
            j,
        ) by {
            assert(self.found_at(subsets, j, origins[j].0, origins[j].1));
        }
        assert forall|j1: int, j2: int, i1: int, k1: int, i2: int, k2: int|
            1 <= j1 < j2 < subsets.len() && #[trigger] self.found_at(subsets, j1, i1, k1)
                && #[trigger] self.found_at(subsets, j2, i2, k2) implies precedes(
            i1,
            k1,
            i2,
            k2,
        ) by {
            assert(self.found_at(subsets, j1, origins[j1].0, origins[j1].1));
            assert(self.found_at(subsets, j2, origins[j2].0, origins[j2].1));
            self.lemma_found_once(subsets, j1, i1, k1, origins[j1].0, origins[j1].1);
            self.lemma_found_once(subsets, j2, i2, k2, origins[j2].0, origins[j2].1);
        }
    }

    /// The subset automaton of this automaton.
    ///
    /// Its states are numbered from 0 in the order in which their subsets
    /// are found: breadth first from the closure of the start state, and for
    /// each subset label by label, in the order in which the table first
    /// names the labels. A state accepts if its subset holds an accept state,
    /// the first state like any other. No accept state is listed twice, and
    /// no key has two entries in the table.
    pub fn into_dfa(&self) -> (dfa: DFA<usize, I>)
        ensures
            self.constructs(&dfa),
            dfa.accept_states@.no_duplicates(),
            keys_distinct(dfa.transitions@),
    {
        let alphabet = self.alphabet_list();
        let mut init_state: Vec<S> = Vec::new();
        init_state.push(*self.get_start_state());
        proof {
            assert(init_state@[0] == self.start_state());
            assert(init_state@.to_set() =~= set![self.start_state()]);
        }
        self.epsilon_closure(&mut init_state);
        let mut accept_states: Vec<usize> = Vec::new();
        if self.get_accept(&init_state).is_some() {
            accept_states.push(0);
        }
        let mut subsets: Vec<Vec<S>> = Vec::new();
        let ghost mut views: Seq<Set<S>> = seq![init_state@.to_set()];
        let ghost mut origins: Seq<(int, int)> = seq![(0int, 0int)];
        subsets.push(init_state);
        let mut transitions: Vec<((usize, Transition<I>), usize)> = Vec::new();
        let mut cur: usize = 0;
        proof {
            self.lemma_eps_closure_in_dest_set(set![self.start_state()]);
            self.lemma_labels_are_alphabet();
            assert(views.no_duplicates());
            assert forall|j: usize|
                accept_states@.contains(j) <==> j < views.len() && !views[j as int].disjoint(
                    self.accept_set(),
                ) by {
                if accept_states@.len() > 0 {
                    assert(accept_states@[0] == 0);
                }
            }
        }
        while cur < subsets.len()
            invariant
                alphabet@ == self.labels(),
                alphabet@.to_set() == self.alphabet(),
                cur <= subsets@.len(),
                views.len() == subsets@.len(),
                forall|i: int| 0 <= i < views.len() ==> #[trigger] views[i] == subsets@[i]@.to_set(),
                self.discovery(views, origins, accept_states@, transitions@, cur as int, 0),
            decreases pow2(self.reach_base().len()) - cur,
        {
            proof {
                lemma_distinct_subsets_bound(views, self.reach_base());
            }
            let mut k: usize = 0;
            while k < alphabet.len()
                invariant
                    alphabet@ == self.labels(),
                    alphabet@.to_set() == self.alphabet(),
                    k <= alphabet@.len(),
                    cur < subsets@.len(),
                    views.len() == subsets@.len(),
                    forall|i: int|
                        0 <= i < views.len() ==> #[trigger] views[i] == subsets@[i]@.to_set(),
                    self.discovery(
                        views,
                        origins,
                        accept_states@,
                        transitions@,
                        cur as int,
                        k as int,
                    ),
                decreases alphabet.len() - k,
            {
                let a = alphabet[k];
                let new_state = self.subset_successor(&alphabet, &subsets[cur], a);
                if new_state.len() > 0 {
                    let ghost witness = new_state@[0];
                    assert(new_state@.to_set().contains(witness));
                    match find_subset(&subsets, &new_state) {
                        Some(id) => {
                            proof {
                                assert(views[id as int].contains(witness));
                                self.lemma_discovery_link(
                                    views,
                                    origins,
                                    accept_states@,
                                    transitions@,
                                    cur,
                                    k as int,
                                    id,
                                );
                            }
                            transitions.push(((cur, a), id));
                        },
                        None => {
                            let id = subsets.len();
                            let accepting = self.get_accept(&new_state).is_some();
                            let ghost accept_before = accept_states@;
                            let ghost moves_before = transitions@;
                            let ghost found = new_state@.to_set();
                            if accepting {
                                accept_states.push(id);
                            }
                            subsets.push(new_state);
                            transitions.push(((cur, a), id));
                            proof {
                                assert(subsets.len() == subsets@.len());
                                assert(self.target(views, cur as int, k as int).contains(witness));
                                self.lemma_discovery_found(
                                    views,
                                    origins,
                                    accept_before,
                                    moves_before,
                                    cur,
                                    k as int,
                                    accepting,
                                );
                                views = views.push(found);
                                origins = origins.push((cur as int, k as int));
                            }
                        },
                    }
                } else {
                    proof {
                        assert forall|q: S| !self.target(views, cur as int, k as int).contains(
                            q,
                        ) by {
                            if new_state@.to_set().contains(q) {
                                assert(new_state@.contains(q));
                            }
                        }
                        self.lemma_discovery_skip(
                            views,
                            origins,
                            accept_states@,
                            transitions@,
                            cur,
                            k as int,
                        );
                    }
                }
                k += 1;
            }
            proof {
                self.lemma_discovery_next(views, origins, accept_states@, transitions@, cur);
            }
            cur += 1;
        }
        let dfa = DFA::new(0, accept_states, transitions);
        proof {
            self.lemma_discovery_done(&dfa, views, origins);
        }
        dfa
    }
}

} // verus!
