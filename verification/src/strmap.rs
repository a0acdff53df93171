//! An ordered map keyed by text.
//!
//! Modelled by a mathematical `Map` from character sequences to the models of
//! the values; walking it visits the keys in ascending order.

use crate::modelled::{at, fresh, put, Modelled};
use crate::text::{
    ascending, ascends, before, holds, lemma_ascending, lemma_lex_irreflexive, lemma_lex_total,
    lemma_lex_transitive, lex_lt, same_text,
};
use vstd::prelude::*;
use vstd::string::*;

verus! {

/// The keys of a list of entries.
pub open spec fn entry_keys<V>(e: Seq<(String, V)>) -> Seq<Seq<char>> {
    Seq::new(e.len(), |i: int| e[i].0@)
}

/// Where `k` stands in a list of entries.
pub open spec fn place<V>(e: Seq<(String, V)>, k: Seq<char>) -> int {
    choose|i: int| 0 <= i < e.len() && (#[trigger] e[i]).0@ == k
}

/// The map that a list of entries stands for.
pub open spec fn entries_map<V: DeepView>(e: Seq<(String, V)>) -> Map<Seq<char>, V::V> {
    Map::new(|k: Seq<char>| entry_keys(e).contains(k), |k: Seq<char>| e[place(e, k)].1.deep_view())
}

/// An ordered map from text to `V`.
#[derive(Debug, PartialEq)]
pub struct StrMap<V> {
    entries: Vec<(String, V)>,
}

impl<V> StrMap<V> {
    #[verifier::type_invariant]
    spec fn inv(self) -> bool {
        ascends(entry_keys(self.entries@))
    }
}

impl<V: DeepView> DeepView for StrMap<V> {
    type V = Map<Seq<char>, V::V>;

    closed spec fn deep_view(&self) -> Map<Seq<char>, V::V> {
        entries_map(self.entries@)
    }
}

proof fn lemma_place<V: DeepView>(e: Seq<(String, V)>, i: int)
    requires
        ascends(entry_keys(e)),
        0 <= i < e.len(),
    ensures
        place(e, e[i].0@) == i,
        entries_map(e).contains_key(e[i].0@),
        entries_map(e)[e[i].0@] == e[i].1.deep_view(),
{
    let k = e[i].0@;
    let ks = entry_keys(e);
    assert(ks[i] == k);
    assert(ks.contains(k));
    let p = place(e, k);
    assert(0 <= p < e.len() && e[p].0@ == k);
    assert(ks[p] == k);
    lemma_lex_irreflexive(k);
    if p < i {
        assert(lex_lt(ks[p], ks[i]));
    }
    if i < p {
        assert(lex_lt(ks[i], ks[p]));
    }
}

proof fn lemma_keys<V: DeepView>(e: Seq<(String, V)>)
    requires
        ascends(entry_keys(e)),
    ensures
        ascending(entries_map(e).dom()) == entry_keys(e),
{
    assert(entry_keys(e).to_set() =~= entries_map(e).dom());
    lemma_ascending(entry_keys(e), entries_map(e).dom());
}

impl<V: DeepView> StrMap<V> {
    /// The map with no entries.
    pub fn new() -> (r: Self)
        ensures
            r.deep_view() == Map::<Seq<char>, V::V>::empty(),
    {
        let r = StrMap { entries: Vec::new() };
        assert(r.deep_view() =~= Map::<Seq<char>, V::V>::empty());
        r
    }

    /// How many entries there are.
    pub fn len(&self) -> (n: usize)
        ensures
            n == ascending(self.deep_view().dom()).len(),
            n == self.deep_view().len(),
            self.deep_view().dom().finite(),
            ascends(ascending(self.deep_view().dom())),
            ascending(self.deep_view().dom()).to_set() == self.deep_view().dom(),
    {
        proof {
            use_type_invariant(self);
            lemma_keys(self.entries@);
            let ks = entry_keys(self.entries@);
            assert(ks.to_set() =~= self.deep_view().dom());
            assert forall|i: int, j: int| 0 <= i < ks.len() && 0 <= j < ks.len() && i != j implies ks[i]
                != ks[j] by {
                lemma_lex_irreflexive(ks[i]);
                if i < j {
                    assert(lex_lt(ks[i], ks[j]));
                } else {
                    assert(lex_lt(ks[j], ks[i]));
                }
            }
            ks.unique_seq_to_set();
            vstd::seq_lib::seq_to_set_is_finite(ks);
        }
        self.entries.len()
    }

    /// The keys in ascending order.
    pub fn keys(&self) -> (r: Vec<String>)
        ensures
            r.deep_view() == ascending(self.deep_view().dom()),
            r.deep_view().to_set() == self.deep_view().dom(),
    {
        let mut r: Vec<String> = fresh();
        let n: usize = self.len();
        let ghost ks = ascending(self.deep_view().dom());
        let mut i: usize = 0;
        assert(ks.take(0) =~= Seq::<Seq<char>>::empty());
        while i < n
            invariant
                i <= n,
                n == ks.len(),
                ks == ascending(self.deep_view().dom()),
                r.deep_view() == ks.take(i as int),
            decreases n - i,
        {
            put(&mut r, self.key_at(i).clone());
            assert(ks.take(i + 1) =~= ks.take(i as int).push(ks[i as int]));
            i += 1;
        }
        assert(ks.take(n as int) =~= ks);
        r
    }

    /// Is there no entry?
    pub fn is_empty(&self) -> (b: bool)
        ensures
            b == (self.deep_view() == Map::<Seq<char>, V::V>::empty()),
    {
        proof {
            use_type_invariant(self);
            if self.entries@.len() > 0 {
                lemma_place(self.entries@, 0);
            } else {
                assert(self.deep_view() =~= Map::<Seq<char>, V::V>::empty());
            }
        }
        self.entries.len() == 0
    }

    /// The `i`-th key in ascending order.
    pub fn key_at(&self, i: usize) -> (k: &String)
        requires
            i < ascending(self.deep_view().dom()).len(),
        ensures
            k@ == ascending(self.deep_view().dom())[i as int],
            self.deep_view().contains_key(k@),
    {
        proof {
            use_type_invariant(self);
            lemma_keys(self.entries@);
            lemma_place(self.entries@, i as int);
        }
        &self.entries[i].0
    }

    /// The value of the `i`-th key in ascending order.
    pub fn value_at(&self, i: usize) -> (v: &V)
        requires
            i < ascending(self.deep_view().dom()).len(),
        ensures
            v.deep_view() == self.deep_view()[ascending(self.deep_view().dom())[i as int]],
    {
        proof {
            use_type_invariant(self);
            lemma_keys(self.entries@);
            lemma_place(self.entries@, i as int);
        }
        &self.entries[i].1
    }

    fn index_of(&self, k: &str) -> (r: Option<usize>)
        ensures
            match r {
                Some(i) => i < self.entries@.len() && self.entries@[i as int].0@ == k@,
                None => !entry_keys(self.entries@).contains(k@),
            },
    {
        let mut i: usize = 0;
        while i < self.entries.len()
            invariant
                i <= self.entries@.len(),
                forall|j: int| 0 <= j < i ==> (#[trigger] self.entries@[j]).0@ != k@,
            decreases self.entries@.len() - i,
        {
            if same_text(self.entries[i].0.as_str(), k) {
                return Some(i);
            }
            i += 1;
        }
        None
    }

    /// The value at `k`, if there is one.
    pub fn get(&self, k: &str) -> (r: Option<&V>)
        ensures
            match r {
                Some(v) => self.deep_view().contains_key(k@) && v.deep_view()
                    == self.deep_view()[k@],
                None => !self.deep_view().contains_key(k@),
            },
    {
        proof {
            use_type_invariant(self);
        }
        match self.index_of(k) {
            Some(i) => {
                proof {
                    lemma_place(self.entries@, i as int);
                }
                Some(&self.entries[i].1)
            },
            None => None,
        }
    }

    /// Is there an entry at `k`?
    pub fn contains_key(&self, k: &str) -> (b: bool)
        ensures
            b == self.deep_view().contains_key(k@),
    {
        self.get(k).is_some()
    }

    /// Sets the value at `k`.
    pub fn insert(&mut self, k: String, v: V)
        ensures
            final(self).deep_view() == old(self).deep_view().insert(k@, v.deep_view()),
    {
        proof {
            use_type_invariant(&*self);
        }
        let ghost before_map = self.deep_view();
        let mut e: Vec<(String, V)> = Vec::new();
        std::mem::swap(&mut e, &mut self.entries);
        let ghost e0 = e@;
        let mut i: usize = 0;
        while i < e.len() && before(e[i].0.as_str(), k.as_str())
            invariant
                i <= e@.len(),
                e@ == e0,
                forall|j: int| 0 <= j < i ==> lex_lt((#[trigger] e0[j]).0@, k@),
            decreases e@.len() - i,
        {
            i += 1;
        }
        let ghost ks0 = entry_keys(e0);
        assert(forall|j: int| 0 <= j < e0.len() ==> ks0[j] == (#[trigger] e0[j]).0@);
        if i < e.len() && e[i].0 == k {
            e.set(i, (k, v));
            proof {
                assert(entry_keys(e@) =~= ks0);
                assert forall|q: Seq<char>| ks0.contains(q) implies entries_map(e@)[q]
                    == before_map.insert(k@, v.deep_view())[q] by {
                    let j = choose|j: int| 0 <= j < ks0.len() && ks0[j] == q;
                    lemma_place(e@, j);
                    lemma_place(e0, j);
                    lemma_place(e0, i as int);
                    if q == k@ {
                        lemma_place(e@, i as int);
                    }
                }
                lemma_place(e0, i as int);
                assert(entries_map(e@) =~= before_map.insert(k@, v.deep_view()));
            }
        } else {
            proof {
                assert forall|j: int| i <= j < e0.len() implies lex_lt(k@, (#[trigger] e0[j]).0@) by {
                    lemma_lex_total(k@, e0[i as int].0@);
                    if i < j {
                        assert(lex_lt(ks0[i as int], ks0[j]));
                        lemma_lex_transitive(k@, e0[i as int].0@, e0[j].0@);
                    }
                }
            }
            let ghost kv = k@;
            let ghost vv = v.deep_view();
            e.insert(i, (k, v));
            proof {
                let ks = entry_keys(e@);
                assert(ks =~= ks0.insert(i as int, kv));
                assert forall|a: int, b: int| 0 <= a < b < ks.len() implies lex_lt(
                    #[trigger] ks[a],
                    #[trigger] ks[b],
                ) by {
                    let a0 = if a < i { a } else { a - 1 };
                    let b0 = if b < i { b } else { b - 1 };
                    if a != i && b != i {
                        assert(lex_lt(ks0[a0], ks0[b0]));
                    }
                }
                assert forall|q: Seq<char>| ks.contains(q) == (q == kv || ks0.contains(q)) by {
                    if ks0.contains(q) {
                        let j = choose|j: int| 0 <= j < ks0.len() && ks0[j] == q;
                        assert(ks[if j < i { j } else { j + 1 }] == q);
                    }
                    assert(ks[i as int] == kv);
                    if ks.contains(q) && q != kv {
                        let j = choose|j: int| 0 <= j < ks.len() && ks[j] == q;
                        assert(ks0[if j < i { j } else { j - 1 }] == q);
                    }
                }
                assert forall|q: Seq<char>| ks.contains(q) implies entries_map(e@)[q]
                    == before_map.insert(kv, vv)[q] by {
                    let j = choose|j: int| 0 <= j < ks.len() && ks[j] == q;
                    lemma_place(e@, j);
                    if j != i {
                        lemma_place(e0, if j < i { j } else { j - 1 });
                        if j < i {
                            lemma_lex_irreflexive(kv);
                        } else {
                            lemma_lex_irreflexive(kv);
                        }
                    }
                }
                assert(entries_map(e@) =~= before_map.insert(kv, vv));
            }
        }
        self.entries = e;
    }

    /// Drops the entry at `k`, if there is one.
    pub fn remove(&mut self, k: &str)
        ensures
            final(self).deep_view() == old(self).deep_view().remove(k@),
    {
        proof {
            use_type_invariant(&*self);
        }
        let ghost before_map = self.deep_view();
        match self.index_of(k) {
            None => {
                proof {
                    assert(before_map.remove(k@) =~= before_map);
                }
            },
            Some(i) => {
                let mut e: Vec<(String, V)> = Vec::new();
                std::mem::swap(&mut e, &mut self.entries);
                let ghost e0 = e@;
                let gone = e.remove(i);
                proof {
                    let ks0 = entry_keys(e0);
                    let ks = entry_keys(e@);
                    assert(ks =~= ks0.remove(i as int));
                    assert forall|a: int, b: int| 0 <= a < b < ks.len() implies lex_lt(
                        #[trigger] ks[a],
                        #[trigger] ks[b],
                    ) by {
                        let a0 = if a < i { a } else { a + 1 };
                        let b0 = if b < i { b } else { b + 1 };
                        assert(lex_lt(ks0[a0], ks0[b0]));
                    }
                    assert(ks0[i as int] == k@);
                    assert forall|q: Seq<char>| ks.contains(q) == (q != k@ && ks0.contains(q)) by {
                        if ks0.contains(q) && q != k@ {
                            let j = choose|j: int| 0 <= j < ks0.len() && ks0[j] == q;
                            assert(ks[if j < i { j } else { j - 1 }] == q);
                        }
                        if ks.contains(q) {
                            let j = choose|j: int| 0 <= j < ks.len() && ks[j] == q;
                            let j0 = if j < i { j } else { j + 1 };
                            assert(ks0[j0] == q);
                            lemma_lex_irreflexive(q);
                            if j0 < i {
                                assert(lex_lt(ks0[j0], ks0[i as int]));
                            } else {
                                assert(lex_lt(ks0[i as int], ks0[j0]));
                            }
                        }
                    }
                    assert forall|q: Seq<char>| ks.contains(q) implies entries_map(e@)[q]
                        == before_map.remove(k@)[q] by {
                        let j = choose|j: int| 0 <= j < ks.len() && ks[j] == q;
                        lemma_place(e@, j);
                        lemma_place(e0, if j < i { j } else { j + 1 });
                    }
                    assert(entries_map(e@) =~= before_map.remove(k@));
                }
                self.entries = e;
            },
        }
    }
}

impl<V: Modelled> StrMap<V> {
    /// The entries whose key is in `keep`.
    pub fn only(&self, keep: &Vec<String>) -> (r: Self)
        ensures
            r.deep_view() == self.deep_view().restrict(keep.deep_view().to_set()),
    {
        let mut r = self.dup();
        let ks = self.keys();
        let ghost m = self.deep_view();
        let ghost kv = ks.deep_view();
        let ghost keeps = keep.deep_view().to_set();
        let mut i: usize = 0;
        assert(m.remove_keys(dropped_before(kv, 0, keeps)) =~= m);
        while i < ks.len()
            invariant
                i <= ks@.len(),
                kv == ks.deep_view(),
                keeps == keep.deep_view().to_set(),
                r.deep_view() == m.remove_keys(dropped_before(kv, i as int, keeps)),
            decreases ks@.len() - i,
        {
            let k = at(&ks, i);
            if !holds(keep, k.as_str()) {
                r.remove(k.as_str());
            }
            assert(r.deep_view() =~= m.remove_keys(dropped_before(kv, i + 1, keeps)));
            i += 1;
        }
        proof {
            assert forall|q: Seq<char>| m.contains_key(q) && !keeps.contains(q) implies dropped_before(
                kv,
                kv.len() as int,
                keeps,
            ).contains(q) by {
                assert(kv.to_set().contains(q));
            }
            assert(r.deep_view() =~= m.restrict(keeps));
        }
        r
    }

    /// This map with the entries of `top` over it.
    pub fn overlaid(&self, top: &Self) -> (r: Self)
        ensures
            r.deep_view() == self.deep_view().union_prefer_right(top.deep_view()),
    {
        let mut r = self.dup();
        let ghost m = self.deep_view();
        let ghost t = top.deep_view();
        let n: usize = top.len();
        let ghost ks = ascending(t.dom());
        let mut i: usize = 0;
        assert(m.union_prefer_right(t.restrict(ks.take(0).to_set())) =~= m);
        while i < n
            invariant
                i <= n,
                n == ks.len(),
                t == top.deep_view(),
                ks == ascending(t.dom()),
                r.deep_view() == m.union_prefer_right(t.restrict(ks.take(i as int).to_set())),
            decreases n - i,
        {
            r.insert(top.key_at(i).clone(), top.value_at(i).dup());
            proof {
                let t0 = ks.take(i as int);
                let t1 = ks.take(i + 1);
                assert(t1 =~= t0.push(ks[i as int]));
                assert forall|q: Seq<char>| t1.to_set().contains(q) == (q == ks[i as int]
                    || t0.to_set().contains(q)) by {
                    if t0.contains(q) {
                        let j = choose|j: int| 0 <= j < t0.len() && t0[j] == q;
                        assert(t1[j] == q);
                    }
                    assert(t1[i as int] == ks[i as int]);
                }
                assert(r.deep_view() =~= m.union_prefer_right(t.restrict(t1.to_set())));
            }
            i += 1;
        }
        proof {
            assert(ks.take(n as int) =~= ks);
            assert(t.restrict(ks.to_set()) =~= t);
        }
        r
    }

    /// The entries whose key is not in `drop`.
    pub fn except(&self, drop: &Vec<String>) -> (r: Self)
        ensures
            r.deep_view() == self.deep_view().remove_keys(drop.deep_view().to_set()),
    {
        let mut r = self.dup();
        let ghost m = self.deep_view();
        let ghost dv = drop.deep_view();
        let mut i: usize = 0;
        assert(m.remove_keys(dv.take(0).to_set()) =~= m);
        while i < drop.len()
            invariant
                i <= drop@.len(),
                dv == drop.deep_view(),
                r.deep_view() == m.remove_keys(dv.take(i as int).to_set()),
            decreases drop@.len() - i,
        {
            r.remove(at(drop, i).as_str());
            proof {
                let t0 = dv.take(i as int);
                let t1 = dv.take(i + 1);
                assert(t1 =~= t0.push(dv[i as int]));
                assert forall|q: Seq<char>| t1.to_set().contains(q) == (q == dv[i as int]
                    || t0.to_set().contains(q)) by {
                    if t0.contains(q) {
                        let j = choose|j: int| 0 <= j < t0.len() && t0[j] == q;
                        assert(t1[j] == q);
                    }
                    assert(t1[i as int] == dv[i as int]);
                }
                assert(r.deep_view() =~= m.remove_keys(t1.to_set()));
            }
            i += 1;
        }
        assert(dv.take(dv.len() as int) =~= dv);
        r
    }
}

/// Those of the first `i` keys that are not in `keeps`.
spec fn dropped_before(ks: Seq<Seq<char>>, i: int, keeps: Set<Seq<char>>) -> Set<Seq<char>> {
    Set::new(
        |k: Seq<char>|
            !keeps.contains(k) && exists|j: int| 0 <= j < i && j < ks.len() && #[trigger] ks[j] == k,
    )
}

impl<V: Modelled> Clone for StrMap<V> {
    fn clone(&self) -> (r: Self)
        ensures
            r.deep_view() == self.deep_view(),
    {
        self.dup()
    }
}

impl<V: Modelled> Modelled for StrMap<V> {
    fn dup(&self) -> (r: Self) {
        let mut r: StrMap<V> = StrMap::new();
        let mut i: usize = 0;
        let n: usize = self.len();
        let ghost ks = ascending(self.deep_view().dom());
        proof {
            use_type_invariant(self);
            lemma_keys(self.entries@);
        }
        assert(ks.take(0) =~= Seq::<Seq<char>>::empty());
        assert(r.deep_view() =~= self.deep_view().restrict(ks.take(0).to_set()));
        while i < n
            invariant
                i <= n,
                n == ks.len(),
                ks == ascending(self.deep_view().dom()),
                forall|j: int| 0 <= j < n ==> self.deep_view().contains_key(#[trigger] ks[j]),
                r.deep_view() == self.deep_view().restrict(ks.take(i as int).to_set()),
            decreases n - i,
        {
            let k = self.key_at(i).clone();
            let v = self.value_at(i).dup();
            r.insert(k, v);
            proof {
                let t0 = ks.take(i as int);
                let t1 = ks.take(i + 1);
                assert(t1 =~= t0.push(ks[i as int]));
                assert forall|q: Seq<char>| t1.to_set().contains(q) == (q == ks[i as int]
                    || t0.to_set().contains(q)) by {
                    if t0.contains(q) {
                        let j = choose|j: int| 0 <= j < t0.len() && t0[j] == q;
                        assert(t1[j] == q);
                    }
                    assert(t1[i as int] == ks[i as int]);
                }
                assert(r.deep_view() =~= self.deep_view().restrict(t1.to_set()));
            }
            i += 1;
        }
        proof {
            assert(ks.take(n as int) =~= ks);
            assert(ks.to_set() =~= self.deep_view().dom());
            assert(self.deep_view().restrict(ks.to_set()) =~= self.deep_view());
        }
        r
    }

    fn same(&self, other: &Self) -> (r: bool) {
        proof {
            use_type_invariant(self);
            use_type_invariant(other);
            lemma_keys(self.entries@);
            lemma_keys(other.entries@);
        }
        if self.entries.len() != other.entries.len() {
            return false;
        }
        let mut i: usize = 0;
        while i < self.entries.len()
            invariant
                i <= self.entries@.len(),
                self.entries@.len() == other.entries@.len(),
                ascends(entry_keys(self.entries@)),
                ascends(entry_keys(other.entries@)),
                ascending(self.deep_view().dom()) == entry_keys(self.entries@),
                ascending(other.deep_view().dom()) == entry_keys(other.entries@),
                forall|j: int|
                    0 <= j < i ==> (#[trigger] self.entries@[j]).0@ == other.entries@[j].0@
                        && self.entries@[j].1.deep_view() == other.entries@[j].1.deep_view(),
            decreases self.entries@.len() - i,
        {
            proof {
                lemma_place(self.entries@, i as int);
                lemma_place(other.entries@, i as int);
                assert(entry_keys(self.entries@)[i as int] == self.entries@[i as int].0@);
                assert(entry_keys(other.entries@)[i as int] == other.entries@[i as int].0@);
            }
            if !(self.entries[i].0 == other.entries[i].0) {
                return false;
            }
            if !self.entries[i].1.same(&other.entries[i].1) {
                return false;
            }
            i += 1;
        }
        proof {
            assert(entry_keys(self.entries@) =~= entry_keys(other.entries@));
            assert forall|q: Seq<char>| entry_keys(self.entries@).contains(q) implies
                self.deep_view()[q] == other.deep_view()[q] by {
                let ks = entry_keys(self.entries@);
                let j = choose|j: int| 0 <= j < ks.len() && ks[j] == q;
                lemma_place(self.entries@, j);
                lemma_place(other.entries@, j);
            }
            assert(self.deep_view() =~= other.deep_view());
        }
        true
    }
}

} // verus!
