//! Rolling figures up the tree of nodes.
//!
//! Each node starts from a figure of its own; the figure of its subtree is that one and
//! the own figures of everything below it, each once, whatever loops the parents close.

use crate::drift::{law_subtree, subtree, subtree_ids, under_one_of};
use crate::model::{has_node, NodeView, ScryModel};
use crate::modelled::{at, Modelled};
use crate::strmap::StrMap;
use vstd::prelude::*;

verus! {

/// A figure that can be added up.
pub trait Tally: Modelled {
    /// Two figures taken together.
    spec fn plus(a: Self::V, b: Self::V) -> Self::V;

    /// Can the figure be held?
    spec fn fits(v: Self::V) -> bool;

    /// A figure is no greater than one that it is a part of.
    proof fn lemma_fits(a: Self::V, b: Self::V)
        requires
            Self::fits(Self::plus(a, b)),
        ensures
            Self::fits(a),
            Self::fits(b),
    ;

    /// Takes `other` into `self`.
    fn merge(&mut self, other: &Self)
        requires
            Self::fits(Self::plus(old(self).deep_view(), other.deep_view())),
        ensures
            final(self).deep_view() == Self::plus(old(self).deep_view(), other.deep_view()),
    ;
}

// ---- totals -----------------------------------------------------------------------------

/// `h` and each of `units`, in turn.
pub open spec fn total<T: Tally>(units: Seq<T::V>, h: T::V) -> T::V
    decreases units.len(),
{
    if units.len() == 0 {
        h
    } else {
        T::plus(total::<T>(units.drop_last(), h), units.last())
    }
}

/// The figures on the way to a total are no greater than the total.
pub proof fn lemma_total_fits<T: Tally>(units: Seq<T::V>, h: T::V, i: int)
    requires
        T::fits(total::<T>(units, h)),
        0 <= i <= units.len(),
    ensures
        T::fits(total::<T>(units.take(i), h)),
        T::fits(h),
        i < units.len() ==> T::fits(T::plus(total::<T>(units.take(i), h), units[i])),
    decreases units.len(),
{
    if i == units.len() {
        assert(units.take(i) =~= units);
    }
    if units.len() > 0 {
        let d = units.drop_last();
        T::lemma_fits(total::<T>(d, h), units.last());
        if i < units.len() {
            lemma_total_fits::<T>(d, h, i);
            assert(units.take(i) =~= d.take(i));
            if i == d.len() {
                assert(d.take(i) =~= d);
            }
        } else {
            lemma_total_fits::<T>(d, h, 0);
        }
    }
}

// ---- one value per node -----------------------------------------------------------------

/// The map from each node's id to a value.
pub open spec fn keyed<V>(ns: Seq<NodeView>, f: spec_fn(Seq<char>) -> V) -> Map<Seq<char>, V> {
    Map::new(|id: Seq<char>| has_node(ns, id), f)
}

/// A map over one more node has one more entry.
pub proof fn lemma_keyed<V>(ns: Seq<NodeView>, i: int, f: spec_fn(Seq<char>) -> V)
    requires
        0 <= i < ns.len(),
    ensures
        keyed(ns.take(i + 1), f) == keyed(ns.take(i), f).insert(ns[i].id, f(ns[i].id)),
{
    let a = ns.take(i);
    let b = ns.take(i + 1);
    assert forall|x: Seq<char>| has_node(b, x) == (has_node(a, x) || x == ns[i].id) by {
        if has_node(a, x) {
            let k = choose|k: int| 0 <= k < a.len() && (#[trigger] a[k]).id == x;
            assert(b[k].id == x);
        }
        assert(b[i].id == ns[i].id);
        if has_node(b, x) && x != ns[i].id {
            let k = choose|k: int| 0 <= k < b.len() && (#[trigger] b[k]).id == x;
            assert(a[k].id == x);
        }
    }
    assert(keyed(b, f) =~= keyed(a, f).insert(ns[i].id, f(ns[i].id)));
}

/// Over no node there is no entry; over all of them each node has one.
pub proof fn lemma_keyed_ends<V>(ns: Seq<NodeView>, f: spec_fn(Seq<char>) -> V)
    ensures
        keyed(ns.take(0), f) == Map::<Seq<char>, V>::empty(),
        ns.take(ns.len() as int) == ns,
        based(ns, keyed(ns, f)),
{
    assert(keyed(ns.take(0), f) =~= Map::<Seq<char>, V>::empty());
    assert(ns.take(ns.len() as int) =~= ns);
    assert forall|i: int| 0 <= i < ns.len() implies keyed(ns, f).contains_key(
        (#[trigger] ns[i]).id,
    ) by {
        assert(has_node(ns, ns[i].id));
    }
}

// ---- figures ----------------------------------------------------------------------------

/// Has every node a figure to start from?
pub open spec fn based<V>(ns: Seq<NodeView>, base: Map<Seq<char>, V>) -> bool {
    forall|i: int| 0 <= i < ns.len() ==> base.contains_key((#[trigger] ns[i]).id)
}

/// The own figures of what is below a node.
pub open spec fn figures_below<V>(
    ns: Seq<NodeView>,
    base: Map<Seq<char>, V>,
    id: Seq<char>,
) -> Seq<V> {
    Seq::new((subtree(ns, id).len() - 1) as nat, |i: int| base[subtree(ns, id)[i + 1]])
}

/// The figure of a subtree: the node's own and those of everything below it, each once.
pub open spec fn figure<T: Tally>(
    ns: Seq<NodeView>,
    base: Map<Seq<char>, T::V>,
    id: Seq<char>,
) -> T::V {
    total::<T>(figures_below(ns, base, id), base[id])
}

/// The figure of every node's subtree.
pub open spec fn figures<T: Tally>(ns: Seq<NodeView>, base: Map<Seq<char>, T::V>) -> Map<
    Seq<char>,
    T::V,
> {
    keyed(ns, |id: Seq<char>| figure::<T>(ns, base, id))
}

/// Can every figure be held?
pub open spec fn all_fit<T: Tally>(figures: Map<Seq<char>, T::V>) -> bool {
    forall|x: Seq<char>| #[trigger] figures.contains_key(x) ==> T::fits(figures[x])
}

/// What is below a node is a node.
pub proof fn lemma_below(ns: Seq<NodeView>, id: Seq<char>)
    ensures
        subtree(ns, id).len() > 0,
        subtree(ns, id)[0] == id,
        subtree(ns, id).no_duplicates(),
        forall|k: int|
            1 <= k < subtree(ns, id).len() ==> has_node(ns, #[trigger] subtree(ns, id)[k]),
{
    law_subtree(ns, id);
    let s = subtree(ns, id);
    assert forall|k: int| 1 <= k < s.len() implies has_node(ns, #[trigger] s[k]) by {
        assert(under_one_of(ns, s, k, s[k]));
    }
}

fn figure_of<T: Tally>(model: &ScryModel, base: &StrMap<T>, id: &str, own: &T) -> (r: T)
    requires
        based(model.deep_view().nodes, base.deep_view()),
        own.deep_view() == base.deep_view()[id@],
        T::fits(figure::<T>(model.deep_view().nodes, base.deep_view(), id@)),
    ensures
        r.deep_view() == figure::<T>(model.deep_view().nodes, base.deep_view(), id@),
{
    let ghost ns = model.deep_view().nodes;
    let ghost bs = base.deep_view();
    let ids = subtree_ids(model, id);
    let ghost s = subtree(ns, id@);
    let ghost us = figures_below(ns, bs, id@);
    proof {
        lemma_below(ns, id@);
        lemma_total_fits::<T>(us, bs[id@], 0);
    }
    let mut h = own.dup();
    let mut i: usize = 1;
    assert(us.take(0) =~= Seq::<T::V>::empty());
    while i < ids.len()
        invariant
            1 <= i <= ids@.len(),
            ns == model.deep_view().nodes,
            bs == base.deep_view(),
            s == ids.deep_view(),
            s == subtree(ns, id@),
            us == figures_below(ns, bs, id@),
            based(ns, bs),
            forall|k: int| 1 <= k < s.len() ==> has_node(ns, #[trigger] s[k]),
            T::fits(total::<T>(us, bs[id@])),
            h.deep_view() == total::<T>(us.take(i - 1), bs[id@]),
        decreases ids@.len() - i,
    {
        let x = at(&ids, i);
        proof {
            assert(has_node(ns, s[i as int]));
            lemma_named_based(ns, bs, x@);
            lemma_total_fits::<T>(us, bs[id@], i - 1);
            assert(us.take(i as int).drop_last() =~= us.take(i - 1));
            assert(us.take(i as int).last() == bs[x@]);
        }
        match base.get(x.as_str()) {
            Some(b) => {
                h.merge(b);
            },
            None => {},
        }
        i += 1;
    }
    assert(us.take(us.len() as int) =~= us);
    h
}

proof fn lemma_named_based<V>(ns: Seq<NodeView>, base: Map<Seq<char>, V>, id: Seq<char>)
    requires
        based(ns, base),
        has_node(ns, id),
    ensures
        base.contains_key(id),
{
    let i = choose|i: int| 0 <= i < ns.len() && (#[trigger] ns[i]).id == id;
    assert(base.contains_key(ns[i].id));
}

/// The figure of every node's subtree.
pub fn figures_of<T: Tally>(model: &ScryModel, base: &StrMap<T>) -> (r: StrMap<T>)
    requires
        based(model.deep_view().nodes, base.deep_view()),
        all_fit::<T>(figures::<T>(model.deep_view().nodes, base.deep_view())),
    ensures
        r.deep_view() == figures::<T>(model.deep_view().nodes, base.deep_view()),
{
    let ghost ns = model.deep_view().nodes;
    let ghost bs = base.deep_view();
    let ghost f = |id: Seq<char>| figure::<T>(ns, bs, id);
    let mut out: StrMap<T> = StrMap::new();
    let mut i: usize = 0;
    proof {
        lemma_keyed_ends(ns, f);
    }
    while i < model.nodes.len()
        invariant
            i <= model.nodes@.len(),
            ns == model.deep_view().nodes,
            bs == base.deep_view(),
            based(ns, bs),
            f == |id: Seq<char>| figure::<T>(ns, bs, id),
            all_fit::<T>(figures::<T>(ns, bs)),
            out.deep_view() == keyed(ns.take(i as int), f),
        decreases model.nodes@.len() - i,
    {
        let n = at(&model.nodes, i);
        proof {
            lemma_keyed(ns, i as int, f);
            assert(has_node(ns, ns[i as int].id));
            assert(figures::<T>(ns, bs).contains_key(n.id@));
            lemma_named_based(ns, bs, n.id@);
        }
        match base.get(n.id.as_str()) {
            Some(own) => {
                let h = figure_of(model, base, n.id.as_str(), own);
                out.insert(n.id.clone(), h);
            },
            None => {},
        }
        i += 1;
    }
    out
}

// ---- what every figure has in common ----------------------------------------------------

/// Is a property kept when two figures are taken together?
pub open spec fn additive<T: Tally>(p: spec_fn(T::V) -> bool) -> bool {
    forall|a: T::V, b: T::V| p(a) && p(b) ==> p(#[trigger] T::plus(a, b))
}

/// A property that every node's own figure has, and that two figures taken together keep,
/// holds of the figure of every subtree.
pub proof fn law_every_figure_has<T: Tally>(
    ns: Seq<NodeView>,
    base: Map<Seq<char>, T::V>,
    id: Seq<char>,
    p: spec_fn(T::V) -> bool,
)
    requires
        additive::<T>(p),
        forall|i: int| 0 <= i < ns.len() ==> p(base[(#[trigger] ns[i]).id]),
        has_node(ns, id),
    ensures
        p(figure::<T>(ns, base, id)),
{
    lemma_below(ns, id);
    let s = subtree(ns, id);
    let us = figures_below(ns, base, id);
    let i = choose|i: int| 0 <= i < ns.len() && (#[trigger] ns[i]).id == id;
    assert(p(base[ns[i].id]));
    assert forall|k: int| 0 <= k < us.len() implies p(#[trigger] us[k]) by {
        assert(has_node(ns, s[k + 1]));
        let j = choose|j: int| 0 <= j < ns.len() && (#[trigger] ns[j]).id == s[k + 1];
        assert(p(base[ns[j].id]));
    }
    lemma_total_has::<T>(us, base[id], p);
}

proof fn lemma_total_has<T: Tally>(us: Seq<T::V>, h: T::V, p: spec_fn(T::V) -> bool)
    requires
        additive::<T>(p),
        p(h),
        forall|k: int| 0 <= k < us.len() ==> p(#[trigger] us[k]),
    ensures
        p(total::<T>(us, h)),
    decreases us.len(),
{
    if us.len() > 0 {
        let d = us.drop_last();
        assert forall|k: int| 0 <= k < d.len() implies p(#[trigger] d[k]) by {
            assert(d[k] == us[k]);
        }
        lemma_total_has::<T>(d, h, p);
        assert(p(us[us.len() - 1]));
    }
}

// ---- what the figures come to -----------------------------------------------------------

/// The sum of a measure over a list of ids.
pub open spec fn sum(ids: Seq<Seq<char>>, f: spec_fn(Seq<char>) -> nat) -> nat
    decreases ids.len(),
{
    if ids.len() == 0 {
        0
    } else {
        sum(ids.drop_last(), f) + f(ids.last())
    }
}

proof fn lemma_sum_without(s: Seq<Seq<char>>, f: spec_fn(Seq<char>) -> nat, i: int)
    requires
        0 <= i < s.len(),
    ensures
        sum(s, f) == sum(s.remove(i), f) + f(s[i]),
    decreases s.len(),
{
    let d = s.drop_last();
    if i == s.len() - 1 {
        assert(s.remove(i) =~= d);
    } else {
        lemma_sum_without(d, f, i);
        assert(s.remove(i).drop_last() =~= d.remove(i));
        assert(s.remove(i).last() == s.last());
    }
}

/// A place at which the ids hold `x`.
pub open spec fn place_in(ids: Seq<Seq<char>>, x: Seq<char>) -> int {
    choose|i: int| 0 <= i < ids.len() && ids[i] == x
}

/// The ids without one that is `x`.
pub open spec fn without_one(ids: Seq<Seq<char>>, x: Seq<char>) -> Seq<Seq<char>> {
    if ids.contains(x) {
        ids.remove(place_in(ids, x))
    } else {
        ids
    }
}

/// What is left of distinct ids without one of them.
pub proof fn lemma_without_one(ids: Seq<Seq<char>>, x: Seq<char>, f: spec_fn(Seq<char>) -> nat)
    requires
        ids.no_duplicates(),
    ensures
        without_one(ids, x).no_duplicates(),
        sum(ids, f) == sum(without_one(ids, x), f) + if ids.contains(x) {
            f(x)
        } else {
            0
        },
        forall|k: int|
            0 <= k < without_one(ids, x).len() ==> ids.contains(#[trigger] without_one(ids, x)[k])
                && without_one(ids, x)[k] != x,
{
    let rest = without_one(ids, x);
    if ids.contains(x) {
        let i = place_in(ids, x);
        lemma_sum_without(ids, f, i);
        assert forall|a: int, b: int| 0 <= a < rest.len() && 0 <= b < rest.len() && a
            != b implies rest[a] != rest[b] by {
            let p = if a < i { a } else { a + 1 };
            let q = if b < i { b } else { b + 1 };
            assert(ids[p] != ids[q]);
        }
        assert forall|k: int| 0 <= k < rest.len() implies ids.contains(#[trigger] rest[k])
            && rest[k] != x by {
            let p = if k < i { k } else { k + 1 };
            assert(ids[p] == rest[k]);
            assert(ids[p] != ids[i]);
        }
    } else {
        assert forall|k: int| 0 <= k < rest.len() implies ids.contains(#[trigger] rest[k])
            && rest[k] != x by {
            assert(ids[k] == rest[k]);
        }
    }
}

/// Sums of measures that agree on the ids are the same.
pub proof fn lemma_sum_same_on(
    ids: Seq<Seq<char>>,
    f: spec_fn(Seq<char>) -> nat,
    g: spec_fn(Seq<char>) -> nat,
)
    requires
        forall|k: int| 0 <= k < ids.len() ==> f(#[trigger] ids[k]) == g(ids[k]),
    ensures
        sum(ids, f) == sum(ids, g),
    decreases ids.len(),
{
    if ids.len() > 0 {
        let d = ids.drop_last();
        assert forall|k: int| 0 <= k < d.len() implies f(#[trigger] d[k]) == g(d[k]) by {
            assert(d[k] == ids[k]);
        }
        lemma_sum_same_on(d, f, g);
        assert(f(ids[ids.len() - 1]) == g(ids[ids.len() - 1]));
    }
}

/// A measure that is greater at one id makes the sum greater by as much.
pub proof fn lemma_sum_more(
    ids: Seq<Seq<char>>,
    f: spec_fn(Seq<char>) -> nat,
    g: spec_fn(Seq<char>) -> nat,
    at: Seq<char>,
    n: nat,
)
    requires
        ids.no_duplicates(),
        forall|x: Seq<char>| #[trigger]
            g(x) == f(x) + if x == at {
                n
            } else {
                0
            },
    ensures
        sum(ids, g) == sum(ids, f) + if ids.contains(at) {
            n
        } else {
            0
        },
    decreases ids.len(),
{
    if ids.len() > 0 {
        let d = ids.drop_last();
        assert forall|a: int, b: int| 0 <= a < d.len() && 0 <= b < d.len() && a != b implies d[a]
            != d[b] by {
            assert(ids[a] != ids[b]);
        }
        lemma_sum_more(d, f, g, at, n);
        assert(g(ids.last()) == f(ids.last()) + if ids.last() == at {
            n
        } else {
            0
        });
        if ids.last() == at {
            assert(ids[ids.len() - 1] == at);
            if d.contains(at) {
                let k = choose|k: int| 0 <= k < d.len() && d[k] == at;
                assert(ids[k] == at);
            }
        } else {
            if d.contains(at) {
                let k = choose|k: int| 0 <= k < d.len() && d[k] == at;
                assert(ids[k] == at);
            }
            if ids.contains(at) {
                let k = choose|k: int| 0 <= k < ids.len() && ids[k] == at;
                assert(d[k] == at);
            }
        }
    }
}

/// The sum of nothing.
pub proof fn lemma_sum_zero(ids: Seq<Seq<char>>, f: spec_fn(Seq<char>) -> nat)
    requires
        forall|x: Seq<char>| #[trigger] f(x) == 0,
    ensures
        sum(ids, f) == 0,
    decreases ids.len(),
{
    if ids.len() > 0 {
        lemma_sum_zero(ids.drop_last(), f);
        assert(f(ids.last()) == 0);
    }
}

/// Sums of the same measure are the same.
pub proof fn lemma_sum_agrees(
    ids: Seq<Seq<char>>,
    f: spec_fn(Seq<char>) -> nat,
    g: spec_fn(Seq<char>) -> nat,
)
    requires
        forall|x: Seq<char>| #[trigger] f(x) == g(x),
    ensures
        sum(ids, f) == sum(ids, g),
    decreases ids.len(),
{
    if ids.len() > 0 {
        lemma_sum_agrees(ids.drop_last(), f, g);
        assert(f(ids.last()) == g(ids.last()));
    }
}

/// The sum of two measures.
pub proof fn lemma_sum_of_two(
    ids: Seq<Seq<char>>,
    f: spec_fn(Seq<char>) -> nat,
    g: spec_fn(Seq<char>) -> nat,
    h: spec_fn(Seq<char>) -> nat,
)
    requires
        forall|x: Seq<char>| #[trigger] h(x) == f(x) + g(x),
    ensures
        sum(ids, h) == sum(ids, f) + sum(ids, g),
    decreases ids.len(),
{
    if ids.len() > 0 {
        lemma_sum_of_two(ids.drop_last(), f, g, h);
        assert(h(ids.last()) == f(ids.last()) + g(ids.last()));
    }
}

/// Is a relation between figures and numbers kept when both are added up?
pub open spec fn adds_up<T: Tally>(rel: spec_fn(T::V, nat) -> bool) -> bool {
    forall|a: T::V, b: T::V, p: nat, q: nat|
        #![trigger T::plus(a, b), rel(a, p), rel(b, q)]
        rel(a, p) && rel(b, q) ==> rel(T::plus(a, b), p + q)
}

/// Does every node's own figure stand in the relation to the number it is given?
pub open spec fn rated<V>(
    ns: Seq<NodeView>,
    base: Map<Seq<char>, V>,
    rel: spec_fn(V, nat) -> bool,
    c: spec_fn(Seq<char>) -> nat,
) -> bool {
    forall|i: int| 0 <= i < ns.len() ==> rel(base[(#[trigger] ns[i]).id], c(ns[i].id))
}

/// Where each node's own figure stands in an additive relation to a number of its own, the
/// figure of a subtree stands in it to the sum of the numbers of what is in the subtree:
/// each node counts once.
pub proof fn law_every_node_counts_once<T: Tally>(
    ns: Seq<NodeView>,
    base: Map<Seq<char>, T::V>,
    id: Seq<char>,
    rel: spec_fn(T::V, nat) -> bool,
    c: spec_fn(Seq<char>) -> nat,
)
    requires
        adds_up::<T>(rel),
        rated(ns, base, rel, c),
        has_node(ns, id),
    ensures
        rel(figure::<T>(ns, base, id), sum(subtree(ns, id), c)),
        subtree(ns, id).no_duplicates(),
        forall|k: int| 0 <= k < subtree(ns, id).len() ==> has_node(ns, #[trigger] subtree(ns, id)[k]),
{
    lemma_below(ns, id);
    let s = subtree(ns, id);
    assert forall|k: int| 0 <= k < s.len() implies rel(base[#[trigger] s[k]], c(s[k])) by {
        assert(has_node(ns, s[k]));
        let j = choose|j: int| 0 <= j < ns.len() && (#[trigger] ns[j]).id == s[k];
        assert(rel(base[ns[j].id], c(ns[j].id)));
    }
    lemma_part_related::<T>(s, base, rel, c, s.len() as int);
    let us = figures_below(ns, base, id);
    assert(us.take(us.len() as int) =~= us);
    assert(s.take(s.len() as int) =~= s);
    assert(us =~= Seq::new((s.len() - 1) as nat, |i: int| base[s[i + 1]]));
}

proof fn lemma_part_related<T: Tally>(
    s: Seq<Seq<char>>,
    base: Map<Seq<char>, T::V>,
    rel: spec_fn(T::V, nat) -> bool,
    c: spec_fn(Seq<char>) -> nat,
    k: int,
)
    requires
        adds_up::<T>(rel),
        1 <= k <= s.len(),
        forall|i: int| 0 <= i < s.len() ==> rel(base[#[trigger] s[i]], c(s[i])),
    ensures
        rel(
            total::<T>(
                Seq::new((s.len() - 1) as nat, |i: int| base[s[i + 1]]).take(k - 1),
                base[s[0]],
            ),
            sum(s.take(k), c),
        ),
    decreases k,
{
    let us = Seq::new((s.len() - 1) as nat, |i: int| base[s[i + 1]]);
    assert(s.take(k).drop_last() =~= s.take(k - 1));
    assert(s.take(k).last() == s[k - 1]);
    if k == 1 {
        assert(us.take(0) =~= Seq::<T::V>::empty());
        assert(s.take(0) =~= Seq::<Seq<char>>::empty());
        assert(rel(base[s[0]], c(s[0])));
        assert(sum(s.take(0), c) == 0);
    } else {
        lemma_part_related::<T>(s, base, rel, c, k - 1);
        assert(us.take(k - 1).drop_last() =~= us.take(k - 2));
        assert(us.take(k - 1).last() == base[s[k - 1]]);
        assert(rel(base[s[k - 1]], c(s[k - 1])));
    }
}

} // verus!
