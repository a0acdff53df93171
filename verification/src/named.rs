//! Lists of things that are found by a name: nodes by id, properties by label.

use crate::modelled::{at, fresh, put, Modelled};
use crate::text::{
    before, lemma_lex_irreflexive, lemma_lex_total, lemma_lex_transitive, lex_lt, same_text,
};
use vstd::prelude::*;

verus! {

/// A thing that is found by a text: its id, label or slug.
pub trait Named: Modelled {
    /// The text it is found by.
    spec fn name_of(v: Self::V) -> Seq<char>;

    /// The text it is found by.
    fn found_by(&self) -> (r: &String)
        ensures
            r@ == Self::name_of(self.deep_view()),
    ;
}

/// Where the first thing named `id` stands; the length when there is none.
pub open spec fn place_of<T: Named>(s: Seq<T::V>, id: Seq<char>) -> int
    decreases s.len(),
{
    if s.len() == 0 || T::name_of(s[0]) == id {
        0
    } else {
        1 + place_of::<T>(s.drop_first(), id)
    }
}

/// The first thing named `id`.
pub open spec fn first<T: Named>(s: Seq<T::V>, id: Seq<char>) -> Option<T::V> {
    let i = place_of::<T>(s, id);
    if i < s.len() {
        Some(s[i])
    } else {
        None
    }
}

/// Is there a thing named `id`?
pub open spec fn has_named<T: Named>(s: Seq<T::V>, id: Seq<char>) -> bool {
    exists|i: int| 0 <= i < s.len() && T::name_of(#[trigger] s[i]) == id
}

/// The things not named `id`, in order.
pub open spec fn others<T: Named>(s: Seq<T::V>, id: Seq<char>) -> Seq<T::V>
    decreases s.len(),
{
    if s.len() == 0 {
        Seq::empty()
    } else if T::name_of(s.last()) == id {
        others::<T>(s.drop_last(), id)
    } else {
        others::<T>(s.drop_last(), id).push(s.last())
    }
}

/// What a place is: everything before it has another name.
pub proof fn lemma_place_of<T: Named>(s: Seq<T::V>, id: Seq<char>)
    ensures
        0 <= place_of::<T>(s, id) <= s.len(),
        place_of::<T>(s, id) < s.len() ==> T::name_of(s[place_of::<T>(s, id)]) == id,
        forall|j: int|
            0 <= j < place_of::<T>(s, id) ==> T::name_of(#[trigger] s[j]) != id,
        place_of::<T>(s, id) < s.len() <==> has_named::<T>(s, id),
        first::<T>(s, id) is Some <==> has_named::<T>(s, id),
    decreases s.len(),
{
    if s.len() > 0 && T::name_of(s[0]) != id {
        let t = s.drop_first();
        lemma_place_of::<T>(t, id);
        let p = place_of::<T>(t, id);
        assert forall|j: int| 0 <= j < p + 1 implies T::name_of(#[trigger] s[j]) != id by {
            if j > 0 {
                assert(T::name_of(t[j - 1]) != id);
            }
        }
        if p < t.len() {
            assert(s[p + 1] == t[p]);
        }
    }
}

/// The place is the one with the name and with no such name before it.
pub proof fn lemma_place_is<T: Named>(s: Seq<T::V>, id: Seq<char>, i: int)
    requires
        0 <= i <= s.len(),
        i < s.len() ==> T::name_of(s[i]) == id,
        forall|j: int| 0 <= j < i ==> T::name_of(#[trigger] s[j]) != id,
    ensures
        place_of::<T>(s, id) == i,
{
    lemma_place_of::<T>(s, id);
    let p = place_of::<T>(s, id);
    if p < i {
        assert(T::name_of(s[p]) != id);
    }
    if i < p {
        assert(T::name_of(s[i]) != id);
    }
}

/// Where the first thing named `id` stands.
pub fn find<T: Named>(v: &Vec<T>, id: &str) -> (r: Option<usize>)
    ensures
        match r {
            Some(i) => i < v@.len() && i == place_of::<T>(v.deep_view(), id@)
                && first::<T>(v.deep_view(), id@) == Some(v.deep_view()[i as int]) && T::name_of(
                v.deep_view()[i as int],
            ) == id@ && has_named::<T>(v.deep_view(), id@),
            None => place_of::<T>(v.deep_view(), id@) == v@.len() && first::<T>(
                v.deep_view(),
                id@,
            ) is None && !has_named::<T>(v.deep_view(), id@),
        },
{
    let ghost vs = v.deep_view();
    let mut i: usize = 0;
    while i < v.len()
        invariant
            i <= v@.len(),
            vs == v.deep_view(),
            forall|j: int| 0 <= j < i ==> T::name_of(#[trigger] vs[j]) != id@,
        decreases v@.len() - i,
    {
        let x = at(v, i);
        if same_text(x.found_by().as_str(), id) {
            proof {
                lemma_place_is::<T>(vs, id@, i as int);
                lemma_place_of::<T>(vs, id@);
            }
            return Some(i);
        }
        i += 1;
    }
    proof {
        lemma_place_is::<T>(vs, id@, i as int);
        lemma_place_of::<T>(vs, id@);
    }
    None
}

/// Is there a thing named `id`?
pub fn there<T: Named>(v: &Vec<T>, id: &str) -> (r: bool)
    ensures
        r == has_named::<T>(v.deep_view(), id@),
{
    find(v, id).is_some()
}

/// The first thing named `id`.
pub fn pick<T: Named>(v: &Vec<T>, id: &str) -> (r: Option<T>)
    ensures
        r.deep_view() == first::<T>(v.deep_view(), id@),
{
    match find(v, id) {
        Some(i) => Some(at(v, i).dup()),
        None => None,
    }
}

/// The things not named `id`, in order.
pub fn except<T: Named>(v: &Vec<T>, id: &str) -> (r: Vec<T>)
    ensures
        r.deep_view() == others::<T>(v.deep_view(), id@),
{
    let ghost vs = v.deep_view();
    let mut out: Vec<T> = fresh();
    let mut i: usize = 0;
    assert(vs.take(0) =~= Seq::<T::V>::empty());
    while i < v.len()
        invariant
            i <= v@.len(),
            vs == v.deep_view(),
            out.deep_view() == others::<T>(vs.take(i as int), id@),
        decreases v@.len() - i,
    {
        let x = at(v, i);
        proof {
            assert(vs.take(i + 1).drop_last() =~= vs.take(i as int));
        }
        if !same_text(x.found_by().as_str(), id) {
            put(&mut out, x.dup());
        }
        i += 1;
    }
    assert(vs.take(vs.len() as int) =~= vs);
    out
}

// ---- sorting by name ----------------------------------------------------------------

/// A list sorted by name, with `x` put where it belongs, behind its equals.
pub open spec fn placed_by<T: Named>(t: Seq<T::V>, x: T::V) -> Seq<T::V>
    decreases t.len(),
{
    if t.len() > 0 && lex_lt(T::name_of(x), T::name_of(t.last())) {
        placed_by::<T>(t.drop_last(), x).push(t.last())
    } else {
        t.push(x)
    }
}

/// The list sorted by name; those of one name stay in order.
pub open spec fn sorted_by<T: Named>(s: Seq<T::V>) -> Seq<T::V>
    decreases s.len(),
{
    if s.len() == 0 {
        Seq::empty()
    } else {
        placed_by::<T>(sorted_by::<T>(s.drop_last()), s.last())
    }
}

/// Are the names in order?
pub open spec fn ordered_by<T: Named>(s: Seq<T::V>) -> bool {
    forall|i: int, j: int|
        0 <= i < j < s.len() ==> !lex_lt(
            T::name_of(#[trigger] s[j]),
            T::name_of(#[trigger] s[i]),
        )
}

proof fn lemma_placed_by_at<T: Named>(t: Seq<T::V>, x: T::V, p: int)
    requires
        0 <= p <= t.len(),
        forall|j: int| p <= j < t.len() ==> lex_lt(T::name_of(x), T::name_of(#[trigger] t[j])),
        p > 0 ==> !lex_lt(T::name_of(x), T::name_of(t[p - 1])),
    ensures
        placed_by::<T>(t, x) == t.insert(p, x),
    decreases t.len(),
{
    if p < t.len() {
        let d = t.drop_last();
        assert(lex_lt(T::name_of(x), T::name_of(t[t.len() - 1])));
        assert forall|j: int| p <= j < d.len() implies lex_lt(
            T::name_of(x),
            T::name_of(#[trigger] d[j]),
        ) by {
            assert(d[j] == t[j]);
        }
        lemma_placed_by_at::<T>(d, x, p);
        assert(d.insert(p, x).push(t.last()) =~= t.insert(p, x));
    } else {
        assert(t.insert(p, x) =~= t.push(x));
    }
}

/// The list sorted by name; those of one name stay in order.
pub fn sort_by_name<T: Named>(v: &Vec<T>) -> (r: Vec<T>)
    ensures
        r.deep_view() == sorted_by::<T>(v.deep_view()),
{
    let ghost vs = v.deep_view();
    let mut out: Vec<T> = fresh();
    let mut i: usize = 0;
    assert(vs.take(0) =~= Seq::<T::V>::empty());
    while i < v.len()
        invariant
            i <= v@.len(),
            vs == v.deep_view(),
            out.deep_view() == sorted_by::<T>(vs.take(i as int)),
        decreases v@.len() - i,
    {
        let x = at(v, i).dup();
        let ghost xv = x.deep_view();
        let ghost t = out.deep_view();
        assert(vs.take(i + 1).drop_last() =~= vs.take(i as int));
        let mut p: usize = out.len();
        while p > 0 && before(x.found_by().as_str(), at(&out, p - 1).found_by().as_str())
            invariant
                p <= out@.len(),
                t == out.deep_view(),
                xv == x.deep_view(),
                forall|j: int|
                    p <= j < t.len() ==> lex_lt(T::name_of(xv), T::name_of(#[trigger] t[j])),
            decreases p,
        {
            p -= 1;
            assert(t[p as int] == out@[p as int].deep_view());
        }
        proof {
            if p > 0 {
                assert(t[p - 1] == out@[p - 1].deep_view());
            }
            lemma_placed_by_at::<T>(t, xv, p as int);
        }
        out.insert(p, x);
        assert(out.deep_view() =~= t.insert(p as int, xv));
        i += 1;
    }
    assert(vs.take(vs.len() as int) =~= vs);
    out
}

proof fn lemma_placed_by<T: Named>(t: Seq<T::V>, x: T::V)
    requires
        ordered_by::<T>(t),
    ensures
        ordered_by::<T>(placed_by::<T>(t, x)),
        placed_by::<T>(t, x).to_multiset() == t.to_multiset().insert(x),
    decreases t.len(),
{
    broadcast use vstd::seq_lib::group_to_multiset_ensures;

    let xn = T::name_of(x);
    if t.len() > 0 && lex_lt(xn, T::name_of(t.last())) {
        let d = t.drop_last();
        let l = t.last();
        let ln = T::name_of(l);
        assert forall|i: int, j: int| 0 <= i < j < d.len() implies !lex_lt(
            T::name_of(#[trigger] d[j]),
            T::name_of(#[trigger] d[i]),
        ) by {
            assert(d[i] == t[i] && d[j] == t[j]);
        }
        lemma_placed_by::<T>(d, x);
        let p = placed_by::<T>(d, x);
        let r = p.push(l);
        assert(t =~= d.push(l));
        assert(r.to_multiset() =~= t.to_multiset().insert(x));
        assert forall|i: int, j: int| 0 <= i < j < r.len() implies !lex_lt(
            T::name_of(#[trigger] r[j]),
            T::name_of(#[trigger] r[i]),
        ) by {
            if j < p.len() {
                assert(r[i] == p[i] && r[j] == p[j]);
            } else {
                assert(p.to_multiset().count(p[i]) > 0);
                if lex_lt(ln, T::name_of(p[i])) {
                    if p[i] == x {
                        lemma_lex_transitive(xn, ln, xn);
                        lemma_lex_irreflexive(xn);
                    } else {
                        assert(d.to_multiset().count(p[i]) > 0);
                        assert(d.contains(p[i]));
                        let k = choose|k: int| 0 <= k < d.len() && d[k] == p[i];
                        assert(t[k] == p[i]);
                        assert(t[t.len() - 1] == l);
                    }
                }
            }
        }
    } else {
        let r = t.push(x);
        assert(r.to_multiset() =~= t.to_multiset().insert(x));
        assert forall|i: int, j: int| 0 <= i < j < r.len() implies !lex_lt(
            T::name_of(#[trigger] r[j]),
            T::name_of(#[trigger] r[i]),
        ) by {
            if j < t.len() {
                assert(r[i] == t[i] && r[j] == t[j]);
            } else if lex_lt(xn, T::name_of(t[i])) {
                let ln = T::name_of(t[t.len() - 1]);
                if i < t.len() - 1 {
                    assert(!lex_lt(ln, T::name_of(t[i])));
                    lemma_lex_total(T::name_of(t[i]), ln);
                    if lex_lt(T::name_of(t[i]), ln) {
                        lemma_lex_transitive(xn, T::name_of(t[i]), ln);
                    }
                }
            }
        }
    }
}

/// A sorted list is in the order of the names, with nothing lost and nothing added.
pub proof fn law_sorting_by_name<T: Named>(s: Seq<T::V>)
    ensures
        ordered_by::<T>(sorted_by::<T>(s)),
        sorted_by::<T>(s).to_multiset() == s.to_multiset(),
    decreases s.len(),
{
    broadcast use vstd::seq_lib::group_to_multiset_ensures;

    if s.len() > 0 {
        law_sorting_by_name::<T>(s.drop_last());
        lemma_placed_by::<T>(sorted_by::<T>(s.drop_last()), s.last());
        assert(s =~= s.drop_last().push(s.last()));
    } else {
        assert(s =~= Seq::<T::V>::empty());
    }
}

} // verus!
