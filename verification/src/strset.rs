//! An ordered set of texts.
//!
//! Modelled by a mathematical `Set` of character sequences; walking it visits
//! the members in ascending order.

use crate::modelled::{at, fresh, Modelled};
use crate::text::{
    ascending, ascends, before, holds, lemma_ascending, lemma_lex_total, lemma_lex_transitive,
    lex_lt, same_text,
};
use vstd::prelude::*;

verus! {

/// An ordered set of texts.
#[derive(Debug, PartialEq, Eq)]
pub struct StrSet {
    items: Vec<String>,
}

impl StrSet {
    #[verifier::type_invariant]
    spec fn inv(self) -> bool {
        ascends(self.items.deep_view())
    }
}

impl DeepView for StrSet {
    type V = Set<Seq<char>>;

    closed spec fn deep_view(&self) -> Set<Seq<char>> {
        self.items.deep_view().to_set()
    }
}

impl StrSet {
    /// The set with no members.
    pub fn new() -> (r: Self)
        ensures
            r.deep_view() == Set::<Seq<char>>::empty(),
    {
        let r = StrSet { items: fresh() };
        assert(r.deep_view() =~= Set::<Seq<char>>::empty());
        r
    }

    /// How many members there are.
    pub fn len(&self) -> (n: usize)
        ensures
            n == ascending(self.deep_view()).len(),
            ascends(ascending(self.deep_view())),
            ascending(self.deep_view()).to_set() == self.deep_view(),
    {
        proof {
            use_type_invariant(self);
            lemma_ascending(self.items.deep_view(), self.deep_view());
        }
        self.items.len()
    }

    /// The `i`-th member in ascending order.
    pub fn item(&self, i: usize) -> (r: &String)
        requires
            i < ascending(self.deep_view()).len(),
        ensures
            r@ == ascending(self.deep_view())[i as int],
    {
        proof {
            use_type_invariant(self);
            lemma_ascending(self.items.deep_view(), self.deep_view());
        }
        at(&self.items, i)
    }

    /// The members in ascending order.
    pub fn list(&self) -> (r: Vec<String>)
        ensures
            r.deep_view() == ascending(self.deep_view()),
    {
        proof {
            use_type_invariant(self);
            lemma_ascending(self.items.deep_view(), self.deep_view());
        }
        self.items.dup()
    }

    /// Is `s` a member?
    pub fn contains(&self, s: &str) -> (r: bool)
        ensures
            r == self.deep_view().contains(s@),
    {
        holds(&self.items, s)
    }

    /// Adds `s`.
    pub fn insert(&mut self, s: String)
        ensures
            final(self).deep_view() == old(self).deep_view().insert(s@),
    {
        proof {
            use_type_invariant(&*self);
        }
        let ghost was = self.deep_view();
        let mut v: Vec<String> = Vec::new();
        std::mem::swap(&mut v, &mut self.items);
        let ghost v0 = v.deep_view();
        let mut i: usize = 0;
        while i < v.len() && before(v[i].as_str(), s.as_str())
            invariant
                i <= v@.len(),
                v.deep_view() == v0,
                forall|j: int| 0 <= j < i ==> lex_lt(#[trigger] v0[j], s@),
            decreases v@.len() - i,
        {
            assert(v0[i as int] == v@[i as int]@);
            i += 1;
        }
        if i < v.len() && same_text(v[i].as_str(), s.as_str()) {
            proof {
                assert(v0[i as int] == s@);
                assert(was.insert(s@) =~= was);
            }
            self.items = v;
        } else {
            proof {
                assert forall|j: int| i <= j < v0.len() implies lex_lt(s@, #[trigger] v0[j]) by {
                    assert(v0[i as int] == v@[i as int]@);
                    lemma_lex_total(s@, v0[i as int]);
                    if i < j {
                        assert(lex_lt(v0[i as int], v0[j]));
                        lemma_lex_transitive(s@, v0[i as int], v0[j]);
                    }
                }
            }
            let ghost sv = s@;
            v.insert(i, s);
            proof {
                let w = v.deep_view();
                assert(w =~= v0.insert(i as int, sv));
                assert forall|a: int, b: int| 0 <= a < b < w.len() implies lex_lt(
                    #[trigger] w[a],
                    #[trigger] w[b],
                ) by {
                    let a0 = if a < i { a } else { a - 1 };
                    let b0 = if b < i { b } else { b - 1 };
                    if a != i && b != i {
                        assert(lex_lt(v0[a0], v0[b0]));
                    }
                }
                assert forall|q: Seq<char>| w.to_set().contains(q) == was.insert(sv).contains(q) by {
                    if v0.contains(q) {
                        let j = choose|j: int| 0 <= j < v0.len() && v0[j] == q;
                        assert(w[if j < i { j } else { j + 1 }] == q);
                    }
                    assert(w[i as int] == sv);
                    if w.contains(q) && q != sv {
                        let j = choose|j: int| 0 <= j < w.len() && w[j] == q;
                        assert(v0[if j < i { j } else { j - 1 }] == q);
                    }
                }
                assert(w.to_set() =~= was.insert(sv));
            }
            self.items = v;
        }
    }

    /// The members that `other` has too.
    pub fn shared(&self, other: &StrSet) -> (r: StrSet)
        ensures
            r.deep_view() == self.deep_view().intersect(other.deep_view()),
    {
        self.sifted(other, true)
    }

    /// The members that `other` has not.
    pub fn minus(&self, other: &StrSet) -> (r: StrSet)
        ensures
            r.deep_view() == self.deep_view().difference(other.deep_view()),
    {
        self.sifted(other, false)
    }

    /// The members that `other` has, or has not.
    fn sifted(&self, other: &StrSet, there: bool) -> (r: StrSet)
        ensures
            there ==> r.deep_view() == self.deep_view().intersect(other.deep_view()),
            !there ==> r.deep_view() == self.deep_view().difference(other.deep_view()),
    {
        let ghost a = self.items.deep_view();
        let ghost b = other.deep_view();
        let mut r = StrSet::new();
        let mut i: usize = 0;
        while i < self.items.len()
            invariant
                i <= self.items@.len(),
                a == self.items.deep_view(),
                b == other.deep_view(),
                forall|q: Seq<char>| #[trigger]
                    r.deep_view().contains(q) <==> a.take(i as int).to_set().contains(q)
                        && b.contains(q) == there,
            decreases self.items@.len() - i,
        {
            let x = at(&self.items, i);
            let ghost had = r.deep_view();
            proof {
                lemma_one_more(a, i as int);
            }
            if other.contains(x.as_str()) == there {
                r.insert(x.clone());
            }
            proof {
                assert forall|q: Seq<char>| #[trigger] r.deep_view().contains(q) <==> a.take(
                    i + 1,
                ).to_set().contains(q) && b.contains(q) == there by {
                    assert(had.contains(q) <==> a.take(i as int).to_set().contains(q)
                        && b.contains(q) == there);
                }
            }
            i += 1;
        }
        proof {
            assert(a.take(a.len() as int) =~= a);
            if there {
                assert(r.deep_view() =~= self.deep_view().intersect(b));
            } else {
                assert(r.deep_view() =~= self.deep_view().difference(b));
            }
        }
        r
    }

    /// The set of the texts in a list.
    pub fn of(list: &Vec<String>) -> (r: Self)
        ensures
            r.deep_view() == list.deep_view().to_set(),
    {
        let ghost vs = list.deep_view();
        let mut r = StrSet::new();
        let mut i: usize = 0;
        assert(vs.take(0).to_set() =~= Set::<Seq<char>>::empty());
        while i < list.len()
            invariant
                i <= list@.len(),
                vs == list.deep_view(),
                r.deep_view() == vs.take(i as int).to_set(),
            decreases list@.len() - i,
        {
            r.insert(at(list, i).clone());
            proof {
                lemma_one_more(vs, i as int);
            }
            i += 1;
        }
        assert(vs.take(vs.len() as int) =~= vs);
        r
    }
}

/// The members of a longer beginning of a list are those of a shorter one and
/// the text that follows it.
pub proof fn lemma_one_more(s: Seq<Seq<char>>, i: int)
    requires
        0 <= i < s.len(),
    ensures
        s.take(i + 1).to_set() == s.take(i).to_set().insert(s[i]),
{
    let a = s.take(i);
    let b = s.take(i + 1);
    assert(b =~= a.push(s[i]));
    assert forall|q: Seq<char>| b.to_set().contains(q) == a.to_set().insert(s[i]).contains(q) by {
        if a.contains(q) {
            let j = choose|j: int| 0 <= j < a.len() && a[j] == q;
            assert(b[j] == q);
        }
        assert(b[i] == s[i]);
        if b.contains(q) && q != s[i] {
            let j = choose|j: int| 0 <= j < b.len() && b[j] == q;
            assert(a[j] == q);
        }
    }
    assert(b.to_set() =~= a.to_set().insert(s[i]));
}

impl Modelled for StrSet {
    fn dup(&self) -> (r: Self) {
        proof {
            use_type_invariant(self);
        }
        StrSet { items: self.items.dup() }
    }

    fn same(&self, other: &Self) -> (r: bool) {
        proof {
            use_type_invariant(self);
            use_type_invariant(other);
            lemma_ascending(self.items.deep_view(), self.deep_view());
            lemma_ascending(other.items.deep_view(), other.deep_view());
        }
        self.items.same(&other.items)
    }
}

impl Clone for StrSet {
    fn clone(&self) -> (r: Self)
        ensures
            r.deep_view() == self.deep_view(),
    {
        self.dup()
    }
}

} // verus!
