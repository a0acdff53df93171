//! How the figures of a forest add up: a parent's subtree comes to its own figure and its
//! children's subtrees, and the subtrees of the roots come to everything.

use crate::drift::{child, law_subtree, subtree, under_one_of};
use crate::fold_laws::names_differ;
use crate::health::{
    group_counts, group_host, groups_counts, health_of, hosted_counts, no_counts, nodes_counts,
    own_of, start_counts, HealthCounts, HealthCountsView,
};
use crate::model::{has_node, lemma_last_node, GroupView, Node, NodeView, ScryModelView};
use crate::named::Named;
use crate::ownership::node_ids;
use crate::rollup::{
    adds_up, figure, law_every_node_counts_once, lemma_below, lemma_sum_agrees, lemma_sum_more,
    lemma_sum_of_two, lemma_sum_same_on, lemma_sum_zero, lemma_without_one, place_in, rated, sum,
    without_one, Tally,
};
use vstd::prelude::*;

verus! {

// ---- forests ----------------------------------------------------------------------------

/// Do the nodes make a forest? Their ids differ, and none has its own parent below it.
pub open spec fn is_forest(ns: Seq<NodeView>) -> bool {
    &&& names_differ::<Node>(ns)
    &&& forall|i: int|
        0 <= i < ns.len() && (#[trigger] ns[i]).parent_id is Some ==> !subtree(
            ns,
            ns[i].id,
        ).contains(ns[i].parent_id->0)
}

/// The ids of the nodes that are picked, in order.
pub open spec fn picked(ns: Seq<NodeView>, p: spec_fn(NodeView) -> bool) -> Seq<Seq<char>>
    decreases ns.len(),
{
    if ns.len() == 0 {
        Seq::empty()
    } else {
        let before = picked(ns.drop_last(), p);
        if p(ns.last()) {
            before.push(ns.last().id)
        } else {
            before
        }
    }
}

/// The nodes whose parent is `id`.
pub open spec fn children_of(ns: Seq<NodeView>, id: Seq<char>) -> Seq<Seq<char>> {
    picked(ns, |n: NodeView| n.parent_id == Some(id))
}

/// The nodes whose parent is none of the nodes.
pub open spec fn tops(ns: Seq<NodeView>) -> Seq<Seq<char>> {
    picked(ns, |n: NodeView| n.parent_id is None || !has_node(ns, n.parent_id->0))
}

proof fn lemma_picked(ns: Seq<NodeView>, p: spec_fn(NodeView) -> bool)
    requires
        names_differ::<Node>(ns),
    ensures
        picked(ns, p).no_duplicates(),
        forall|k: int| 0 <= k < picked(ns, p).len() ==> chosen(ns, p, #[trigger] picked(ns, p)[k]),
        forall|i: int|
            0 <= i < ns.len() && p(#[trigger] ns[i]) ==> picked(ns, p).contains(ns[i].id),
    decreases ns.len(),
{
    if ns.len() > 0 {
        let d = ns.drop_last();
        let s = picked(ns, p);
        let b = picked(d, p);
        assert forall|i: int, j: int|
            0 <= i < d.len() && 0 <= j < d.len() && i != j implies Node::name_of(#[trigger] d[i])
            != Node::name_of(#[trigger] d[j]) by {
            assert(d[i] == ns[i] && d[j] == ns[j]);
        }
        lemma_picked(d, p);
        assert forall|k: int| 0 <= k < s.len() implies chosen(ns, p, #[trigger] s[k]) by {
            if k < b.len() {
                assert(chosen(d, p, b[k]));
                let i = choose|i: int| 0 <= i < d.len() && p(#[trigger] d[i]) && d[i].id == b[k];
                assert(p(ns[i]) && ns[i].id == s[k]);
            } else {
                assert(p(ns[ns.len() - 1]));
            }
        }
        assert forall|k: int| 0 <= k < b.len() implies #[trigger] b[k] != ns.last().id by {
            assert(chosen(d, p, b[k]));
            let i = choose|i: int| 0 <= i < d.len() && p(#[trigger] d[i]) && d[i].id == b[k];
            assert(Node::name_of(ns[i]) != Node::name_of(ns[ns.len() - 1]));
        }
        assert forall|i: int| 0 <= i < ns.len() && p(#[trigger] ns[i]) implies s.contains(
            ns[i].id,
        ) by {
            if i < d.len() {
                assert(p(d[i]));
                let k = choose|k: int| 0 <= k < b.len() && b[k] == d[i].id;
                assert(s[k] == ns[i].id);
            } else {
                assert(s[s.len() - 1] == ns[i].id);
            }
        }
    }
}

spec fn chosen(ns: Seq<NodeView>, p: spec_fn(NodeView) -> bool, id: Seq<char>) -> bool {
    exists|i: int| 0 <= i < ns.len() && p(#[trigger] ns[i]) && ns[i].id == id
}

proof fn lemma_one_parent(ns: Seq<NodeView>, p: Seq<char>, q: Seq<char>, x: Seq<char>)
    requires
        names_differ::<Node>(ns),
        child(ns, p, x),
        child(ns, q, x),
    ensures
        p == q,
{
    let i = choose|i: int|
        0 <= i < ns.len() && (#[trigger] ns[i]).parent_id == Some(p) && ns[i].id == x;
    let j = choose|j: int|
        0 <= j < ns.len() && (#[trigger] ns[j]).parent_id == Some(q) && ns[j].id == x;
    if i != j {
        assert(Node::name_of(ns[i]) != Node::name_of(ns[j]));
    }
}

/// What is below a node, and not that node, has its parent there too.
proof fn lemma_parent_inside(ns: Seq<NodeView>, c: Seq<char>, p: Seq<char>, x: Seq<char>)
    requires
        names_differ::<Node>(ns),
        child(ns, p, x),
        subtree(ns, c).contains(x),
        x != c,
    ensures
        subtree(ns, c).contains(p),
{
    law_subtree(ns, c);
    let s = subtree(ns, c);
    let k = choose|k: int| 0 <= k < s.len() && s[k] == x;
    assert(under_one_of(ns, s, k, s[k]));
    let q = choose|q: int| 0 <= q < k && q < s.len() && child(ns, #[trigger] s[q], s[k]);
    lemma_one_parent(ns, p, s[q], x);
}

/// Of two nodes that are not below each other, nothing is below both.
proof fn lemma_apart(ns: Seq<NodeView>, a: Seq<char>, b: Seq<char>, k: int)
    requires
        names_differ::<Node>(ns),
        !subtree(ns, a).contains(b),
        !subtree(ns, b).contains(a),
        0 <= k < subtree(ns, a).len(),
    ensures
        !subtree(ns, b).contains(subtree(ns, a)[k]),
    decreases k,
{
    law_subtree(ns, a);
    let s = subtree(ns, a);
    if k > 0 {
        assert(under_one_of(ns, s, k, s[k]));
        let q = choose|q: int| 0 <= q < k && q < s.len() && child(ns, #[trigger] s[q], s[k]);
        lemma_apart(ns, a, b, q);
        if subtree(ns, b).contains(s[k]) {
            assert(s.contains(s[k]));
            lemma_parent_inside(ns, b, s[q], s[k]);
        }
    }
}

/// What is below a node that is below another is below that one too.
proof fn lemma_inside(ns: Seq<NodeView>, a: Seq<char>, b: Seq<char>, k: int)
    requires
        subtree(ns, a).contains(b),
        0 <= k < subtree(ns, b).len(),
    ensures
        subtree(ns, a).contains(subtree(ns, b)[k]),
    decreases k,
{
    law_subtree(ns, a);
    law_subtree(ns, b);
    let s = subtree(ns, b);
    if k > 0 {
        assert(under_one_of(ns, s, k, s[k]));
        let q = choose|q: int| 0 <= q < k && q < s.len() && child(ns, #[trigger] s[q], s[k]);
        lemma_inside(ns, a, b, q);
        lemma_child_inside(ns, a, s[q], s[k]);
    }
}

proof fn lemma_child_inside(ns: Seq<NodeView>, a: Seq<char>, p: Seq<char>, x: Seq<char>)
    requires
        subtree(ns, a).contains(p),
        child(ns, p, x),
    ensures
        subtree(ns, a).contains(x),
{
    law_subtree(ns, a);
    let j = choose|j: int|
        0 <= j < ns.len() && (#[trigger] ns[j]).parent_id == Some(p) && ns[j].id == x;
    assert(subtree(ns, a).contains(ns[j].parent_id->0));
}

// ---- sums -------------------------------------------------------------------------------

/// Lists that hold the same ids, each once, have the same sum.
proof fn lemma_sum_permuted(a: Seq<Seq<char>>, b: Seq<Seq<char>>, f: spec_fn(Seq<char>) -> nat)
    requires
        a.no_duplicates(),
        b.no_duplicates(),
        forall|k: int| 0 <= k < a.len() ==> b.contains(#[trigger] a[k]),
        forall|k: int| 0 <= k < b.len() ==> a.contains(#[trigger] b[k]),
    ensures
        sum(a, f) == sum(b, f),
    decreases a.len(),
{
    if a.len() == 0 {
        if b.len() > 0 {
            assert(a.contains(b[0]));
        }
    } else {
        let x = a.last();
        let d = a.drop_last();
        let rest = without_one(b, x);
        assert(b.contains(a[a.len() - 1]));
        lemma_without_one(b, x, f);
        assert forall|k: int| 0 <= k < d.len() implies rest.contains(#[trigger] d[k]) by {
            assert(a[k] == d[k] && a[k] != a[a.len() - 1]);
            assert(b.contains(a[k]));
            lemma_still_there(b, x, d[k]);
        }
        assert forall|k: int| 0 <= k < rest.len() implies d.contains(#[trigger] rest[k]) by {
            assert(b.contains(rest[k]) && rest[k] != x);
            let q = choose|q: int| 0 <= q < b.len() && b[q] == rest[k];
            assert(a.contains(b[q]));
            let j = choose|j: int| 0 <= j < a.len() && a[j] == b[q];
            assert(d[j] == rest[k]);
        }
        lemma_sum_permuted(d, rest, f);
    }
}

proof fn lemma_still_there(b: Seq<Seq<char>>, x: Seq<char>, y: Seq<char>)
    requires
        b.contains(y),
        x != y,
    ensures
        without_one(b, x).contains(y),
{
    if b.contains(x) {
        let i = place_in(b, x);
        let j = place_in(b, y);
        let r = without_one(b, x);
        if j < i {
            assert(r[j] == y);
        } else {
            assert(r[j - 1] == y);
        }
    }
}

proof fn lemma_sum_joined(a: Seq<Seq<char>>, b: Seq<Seq<char>>, f: spec_fn(Seq<char>) -> nat)
    ensures
        sum(a + b, f) == sum(a, f) + sum(b, f),
    decreases b.len(),
{
    if b.len() == 0 {
        assert(a + b =~= a);
    } else {
        assert((a + b).drop_last() =~= a + b.drop_last());
        lemma_sum_joined(a, b.drop_last(), f);
    }
}

/// The subtrees of several nodes, one behind the other.
spec fn joined(ns: Seq<NodeView>, cs: Seq<Seq<char>>) -> Seq<Seq<char>>
    decreases cs.len(),
{
    if cs.len() == 0 {
        Seq::empty()
    } else {
        joined(ns, cs.drop_last()) + subtree(ns, cs.last())
    }
}

spec fn below_one_of(ns: Seq<NodeView>, cs: Seq<Seq<char>>, x: Seq<char>) -> bool {
    exists|i: int| 0 <= i < cs.len() && subtree(ns, #[trigger] cs[i]).contains(x)
}

/// Is none of the ids below another of them?
spec fn side_by_side(ns: Seq<NodeView>, cs: Seq<Seq<char>>) -> bool {
    forall|i: int, j: int|
        0 <= i < cs.len() && 0 <= j < cs.len() && i != j ==> !subtree(
            ns,
            #[trigger] cs[i],
        ).contains(#[trigger] cs[j])
}

proof fn lemma_joined(ns: Seq<NodeView>, cs: Seq<Seq<char>>, f: spec_fn(Seq<char>) -> nat)
    requires
        names_differ::<Node>(ns),
        side_by_side(ns, cs),
    ensures
        joined(ns, cs).no_duplicates(),
        forall|k: int|
            0 <= k < joined(ns, cs).len() ==> below_one_of(ns, cs, #[trigger] joined(ns, cs)[k]),
        forall|x: Seq<char>| #[trigger]
            below_one_of(ns, cs, x) ==> joined(ns, cs).contains(x),
        sum(joined(ns, cs), f) == sum(cs, |c: Seq<char>| sum(subtree(ns, c), f)),
    decreases cs.len(),
{
    if cs.len() > 0 {
        let d = cs.drop_last();
        let c = cs.last();
        let a = joined(ns, d);
        let b = subtree(ns, c);
        let s = joined(ns, cs);
        assert forall|i: int, j: int|
            0 <= i < d.len() && 0 <= j < d.len() && i != j implies !subtree(
            ns,
            #[trigger] d[i],
        ).contains(#[trigger] d[j]) by {
            assert(d[i] == cs[i] && d[j] == cs[j]);
        }
        lemma_joined(ns, d, f);
        lemma_sum_joined(a, b, f);
        law_subtree(ns, c);
        assert forall|k: int| 0 <= k < a.len() implies !b.contains(#[trigger] a[k]) by {
            assert(below_one_of(ns, d, a[k]));
            let i = choose|i: int| 0 <= i < d.len() && subtree(ns, #[trigger] d[i]).contains(a[k]);
            let t = subtree(ns, d[i]);
            let q = choose|q: int| 0 <= q < t.len() && t[q] == a[k];
            assert(cs[i] == d[i] && cs[cs.len() - 1] == c);
            lemma_apart(ns, d[i], c, q);
        }
        assert forall|i: int, j: int| 0 <= i < s.len() && 0 <= j < s.len() && i != j implies s[i]
            != s[j] by {
            if i < a.len() && j >= a.len() {
                assert(!b.contains(a[i]));
                assert(b[j - a.len()] == s[j]);
            } else if j < a.len() && i >= a.len() {
                assert(!b.contains(a[j]));
                assert(b[i - a.len()] == s[i]);
            } else if i < a.len() {
                assert(a[i] != a[j]);
            } else {
                assert(b[i - a.len()] != b[j - a.len()]);
            }
        }
        assert forall|k: int| 0 <= k < s.len() implies below_one_of(ns, cs, #[trigger] s[k]) by {
            if k < a.len() {
                assert(below_one_of(ns, d, a[k]));
                let i = choose|i: int|
                    0 <= i < d.len() && subtree(ns, #[trigger] d[i]).contains(a[k]);
                assert(subtree(ns, cs[i]).contains(s[k]));
            } else {
                assert(b[k - a.len()] == s[k]);
                assert(subtree(ns, cs[cs.len() - 1]).contains(s[k]));
            }
        }
        assert forall|x: Seq<char>| #[trigger] below_one_of(ns, cs, x) implies s.contains(x) by {
            let i = choose|i: int| 0 <= i < cs.len() && subtree(ns, #[trigger] cs[i]).contains(x);
            if i < d.len() {
                assert(subtree(ns, d[i]).contains(x));
                assert(below_one_of(ns, d, x));
                let k = choose|k: int| 0 <= k < a.len() && a[k] == x;
                assert(s[k] == x);
            } else {
                let k = choose|k: int| 0 <= k < b.len() && b[k] == x;
                assert(s[a.len() + k] == x);
            }
        }
    }
}

// ---- the laws ---------------------------------------------------------------------------

/// In a forest the subtree of a node is the node and the subtrees of its children, side by
/// side: whatever is added up over it comes to the node's own share and its children's.
pub proof fn law_children_add_up(ns: Seq<NodeView>, id: Seq<char>, f: spec_fn(Seq<char>) -> nat)
    requires
        is_forest(ns),
    ensures
        sum(subtree(ns, id), f) == f(id) + sum(
            children_of(ns, id),
            |c: Seq<char>| sum(subtree(ns, c), f),
        ),
{
    let p = |n: NodeView| n.parent_id == Some(id);
    let cs = children_of(ns, id);
    lemma_picked(ns, p);
    law_subtree(ns, id);
    let s = subtree(ns, id);
    assert forall|k: int| 0 <= k < cs.len() implies child(ns, id, #[trigger] cs[k]) && !subtree(
        ns,
        cs[k],
    ).contains(id) by {
        assert(chosen(ns, p, cs[k]));
        let i = choose|i: int| 0 <= i < ns.len() && p(#[trigger] ns[i]) && ns[i].id == cs[k];
        assert(ns[i].parent_id == Some(id));
    }
    assert forall|i: int, j: int|
        0 <= i < cs.len() && 0 <= j < cs.len() && i != j implies !subtree(
        ns,
        #[trigger] cs[i],
    ).contains(#[trigger] cs[j]) by {
        if subtree(ns, cs[i]).contains(cs[j]) {
            lemma_parent_inside(ns, cs[i], id, cs[j]);
        }
    }
    lemma_joined(ns, cs, f);
    let all = joined(ns, cs);
    let whole = seq![id] + all;
    assert forall|k: int| 0 <= k < all.len() implies #[trigger] all[k] != id && s.contains(
        all[k],
    ) by {
        assert(below_one_of(ns, cs, all[k]));
        let i = choose|i: int| 0 <= i < cs.len() && subtree(ns, #[trigger] cs[i]).contains(all[k]);
        let t = subtree(ns, cs[i]);
        let q = choose|q: int| 0 <= q < t.len() && t[q] == all[k];
        assert(s.contains(s[0]));
        lemma_child_inside(ns, id, id, cs[i]);
        lemma_inside(ns, id, cs[i], q);
    }
    assert forall|i: int, j: int| 0 <= i < whole.len() && 0 <= j < whole.len() && i
        != j implies whole[i] != whole[j] by {
        if i > 0 && j > 0 {
            assert(all[i - 1] != all[j - 1]);
        } else if i > 0 {
            assert(all[i - 1] != id);
        } else {
            assert(all[j - 1] != id);
        }
    }
    assert forall|k: int| 0 <= k < whole.len() implies s.contains(#[trigger] whole[k]) by {
        if k == 0 {
            assert(s[0] == id);
        } else {
            assert(s.contains(all[k - 1]));
        }
    }
    assert forall|k: int| 0 <= k < s.len() implies whole.contains(#[trigger] s[k]) by {
        lemma_below_a_child(ns, id, k);
        if k == 0 {
            assert(whole[0] == id);
        } else {
            assert(all.contains(s[k]));
            let q = choose|q: int| 0 <= q < all.len() && all[q] == s[k];
            assert(whole[q + 1] == s[k]);
        }
    }
    lemma_sum_permuted(s, whole, f);
    lemma_sum_joined(seq![id], all, f);
    assert(seq![id].drop_last() =~= Seq::<Seq<char>>::empty());
    assert(sum(seq![id].drop_last(), f) == 0);
    assert(sum(seq![id], f) == f(id));
}

proof fn lemma_below_a_child(ns: Seq<NodeView>, id: Seq<char>, k: int)
    requires
        names_differ::<Node>(ns),
        0 <= k < subtree(ns, id).len(),
    ensures
        k == 0 ==> subtree(ns, id)[k] == id,
        k > 0 ==> below_one_of(ns, children_of(ns, id), subtree(ns, id)[k]),
    decreases k,
{
    law_subtree(ns, id);
    let s = subtree(ns, id);
    let cs = children_of(ns, id);
    let p = |n: NodeView| n.parent_id == Some(id);
    lemma_picked(ns, p);
    if k > 0 {
        assert(under_one_of(ns, s, k, s[k]));
        let q = choose|q: int| 0 <= q < k && q < s.len() && child(ns, #[trigger] s[q], s[k]);
        if q == 0 {
            let j = choose|j: int|
                0 <= j < ns.len() && (#[trigger] ns[j]).parent_id == Some(id) && ns[j].id == s[k];
            assert(p(ns[j]));
            let c = choose|c: int| 0 <= c < cs.len() && cs[c] == s[k];
            law_subtree(ns, cs[c]);
            assert(subtree(ns, cs[c])[0] == s[k]);
            assert(subtree(ns, cs[c]).contains(s[k]));
        } else {
            lemma_below_a_child(ns, id, q);
            let c = choose|c: int| 0 <= c < cs.len() && subtree(ns, #[trigger] cs[c]).contains(s[q]);
            lemma_child_inside(ns, cs[c], s[q], s[k]);
        }
    }
}

/// In a forest the subtrees of the roots stand side by side and hold every node: whatever
/// is added up over each of them comes to what it is over all nodes.
pub proof fn law_roots_add_up(ns: Seq<NodeView>, f: spec_fn(Seq<char>) -> nat)
    requires
        is_forest(ns),
    ensures
        sum(tops(ns), |c: Seq<char>| sum(subtree(ns, c), f)) == sum(node_ids(ns), f),
{
    let p = |n: NodeView| n.parent_id is None || !has_node(ns, n.parent_id->0);
    let cs = tops(ns);
    let ids = node_ids(ns);
    lemma_picked(ns, p);
    assert forall|k: int| 0 <= k < cs.len() implies is_top(ns, #[trigger] cs[k]) by {
        assert(chosen(ns, p, cs[k]));
        let i = choose|i: int| 0 <= i < ns.len() && p(#[trigger] ns[i]) && ns[i].id == cs[k];
        assert(ns[i].id == cs[k]);
    }
    assert forall|i: int, j: int|
        0 <= i < cs.len() && 0 <= j < cs.len() && i != j implies !subtree(
        ns,
        #[trigger] cs[i],
    ).contains(#[trigger] cs[j]) by {
        if subtree(ns, cs[i]).contains(cs[j]) {
            lemma_below(ns, cs[i]);
            law_subtree(ns, cs[i]);
            let s = subtree(ns, cs[i]);
            let k = choose|k: int| 0 <= k < s.len() && s[k] == cs[j];
            assert(under_one_of(ns, s, k, s[k]));
            let q = choose|q: int| 0 <= q < k && q < s.len() && child(ns, #[trigger] s[q], s[k]);
            if q == 0 {
                assert(is_top(ns, cs[i]));
                assert(has_node(ns, cs[i]));
            } else {
                assert(has_node(ns, s[q]));
            }
            lemma_top_has_no_parent(ns, s[q], cs[j]);
        }
    }
    lemma_joined(ns, cs, f);
    let all = joined(ns, cs);
    assert forall|i: int, j: int| 0 <= i < ids.len() && 0 <= j < ids.len() && i != j implies ids[i]
        != ids[j] by {
        assert(Node::name_of(ns[i]) != Node::name_of(ns[j]));
    }
    assert forall|k: int| 0 <= k < all.len() implies ids.contains(#[trigger] all[k]) by {
        assert(below_one_of(ns, cs, all[k]));
        let i = choose|i: int| 0 <= i < cs.len() && subtree(ns, #[trigger] cs[i]).contains(all[k]);
        lemma_below(ns, cs[i]);
        let t = subtree(ns, cs[i]);
        let q = choose|q: int| 0 <= q < t.len() && t[q] == all[k];
        assert(is_top(ns, cs[i]));
        assert(has_node(ns, t[q]));
        let j = choose|j: int| 0 <= j < ns.len() && (#[trigger] ns[j]).id == t[q];
        assert(ids[j] == all[k]);
    }
    assert forall|k: int| 0 <= k < ids.len() implies all.contains(#[trigger] ids[k]) by {
        lemma_below_a_top(ns, k);
    }
    lemma_sum_permuted(ids, all, f);
}

spec fn is_top(ns: Seq<NodeView>, id: Seq<char>) -> bool {
    exists|i: int|
        0 <= i < ns.len() && (#[trigger] ns[i]).id == id && (ns[i].parent_id is None || !has_node(
            ns,
            ns[i].parent_id->0,
        ))
}

proof fn lemma_top_has_no_parent(ns: Seq<NodeView>, p: Seq<char>, x: Seq<char>)
    requires
        names_differ::<Node>(ns),
        is_top(ns, x),
        has_node(ns, p),
    ensures
        !child(ns, p, x),
{
    if child(ns, p, x) {
        let i = choose|i: int|
            0 <= i < ns.len() && (#[trigger] ns[i]).id == x && (ns[i].parent_id is None
                || !has_node(ns, ns[i].parent_id->0));
        let j = choose|j: int|
            0 <= j < ns.len() && (#[trigger] ns[j]).parent_id == Some(p) && ns[j].id == x;
        if i != j {
            assert(Node::name_of(ns[i]) != Node::name_of(ns[j]));
        }
    }
}

/// There are not more ids in a subtree than there are nodes.
proof fn lemma_subtree_bounded(ns: Seq<NodeView>, id: Seq<char>)
    requires
        has_node(ns, id),
    ensures
        subtree(ns, id).len() <= ns.len(),
{
    lemma_below(ns, id);
    lemma_no_more(subtree(ns, id), ns);
}

proof fn lemma_no_more(s: Seq<Seq<char>>, ns: Seq<NodeView>)
    requires
        s.no_duplicates(),
        forall|k: int| 0 <= k < s.len() ==> has_node(ns, #[trigger] s[k]),
    ensures
        s.len() <= ns.len(),
    decreases ns.len(),
{
    if ns.len() == 0 {
        if s.len() > 0 {
            assert(has_node(ns, s[0]));
        }
    } else {
        let d = ns.drop_last();
        let l = ns.last();
        let rest = without_one(s, l.id);
        lemma_without_one(s, l.id, |x: Seq<char>| 0nat);
        assert forall|k: int| 0 <= k < rest.len() implies has_node(d, #[trigger] rest[k]) by {
            assert(s.contains(rest[k]) && rest[k] != l.id);
            let q = choose|q: int| 0 <= q < s.len() && s[q] == rest[k];
            assert(has_node(ns, s[q]));
            let j = choose|j: int| 0 <= j < ns.len() && (#[trigger] ns[j]).id == rest[k];
            assert(d[j].id == rest[k]);
        }
        lemma_no_more(rest, d);
    }
}

/// A node's subtree is smaller than its parent's.
proof fn lemma_smaller(ns: Seq<NodeView>, i: int)
    requires
        is_forest(ns),
        0 <= i < ns.len(),
        ns[i].parent_id is Some,
    ensures
        subtree(ns, ns[i].id).len() < subtree(ns, ns[i].parent_id->0).len(),
{
    let p = ns[i].parent_id->0;
    let a = subtree(ns, p);
    let b = subtree(ns, ns[i].id);
    law_subtree(ns, p);
    law_subtree(ns, ns[i].id);
    assert(a.contains(a[0]));
    assert(child(ns, p, ns[i].id));
    lemma_child_inside(ns, p, p, ns[i].id);
    assert(!b.contains(p));
    let rest = without_one(a, p);
    lemma_without_one(a, p, |x: Seq<char>| 1nat);
    lemma_ones(a);
    lemma_ones(rest);
    assert forall|k: int| 0 <= k < b.len() implies rest.contains(#[trigger] b[k]) by {
        lemma_inside(ns, p, ns[i].id, k);
        assert(b.contains(b[k]));
        lemma_still_there(a, p, b[k]);
    }
    lemma_fewer(b, rest);
}

proof fn lemma_ones(s: Seq<Seq<char>>)
    ensures
        sum(s, |x: Seq<char>| 1nat) == s.len(),
    decreases s.len(),
{
    if s.len() > 0 {
        lemma_ones(s.drop_last());
    }
}

proof fn lemma_fewer(a: Seq<Seq<char>>, b: Seq<Seq<char>>)
    requires
        a.no_duplicates(),
        b.no_duplicates(),
        forall|k: int| 0 <= k < a.len() ==> b.contains(#[trigger] a[k]),
    ensures
        a.len() <= b.len(),
    decreases a.len(),
{
    if a.len() > 0 {
        let x = a.last();
        let d = a.drop_last();
        let rest = without_one(b, x);
        assert(b.contains(a[a.len() - 1]));
        lemma_without_one(b, x, |x: Seq<char>| 1nat);
        lemma_ones(b);
        lemma_ones(rest);
        assert forall|k: int| 0 <= k < d.len() implies rest.contains(#[trigger] d[k]) by {
            assert(a[k] == d[k] && a[k] != a[a.len() - 1]);
            assert(b.contains(a[k]));
            lemma_still_there(b, x, d[k]);
        }
        lemma_fewer(d, rest);
    }
}

proof fn lemma_below_a_top(ns: Seq<NodeView>, i: int)
    requires
        is_forest(ns),
        0 <= i < ns.len(),
    ensures
        below_one_of(ns, tops(ns), ns[i].id),
    decreases ns.len() - subtree(ns, ns[i].id).len(),
{
    let p = |n: NodeView| n.parent_id is None || !has_node(ns, n.parent_id->0);
    let cs = tops(ns);
    let x = ns[i].id;
    lemma_picked(ns, p);
    if p(ns[i]) {
        let c = choose|c: int| 0 <= c < cs.len() && cs[c] == x;
        law_subtree(ns, cs[c]);
        assert(subtree(ns, cs[c])[0] == x);
        assert(subtree(ns, cs[c]).contains(x));
    } else {
        let q = ns[i].parent_id->0;
        let j = choose|j: int| 0 <= j < ns.len() && (#[trigger] ns[j]).id == q;
        lemma_smaller(ns, i);
        lemma_subtree_bounded(ns, q);
        lemma_below_a_top(ns, j);
        let c = choose|c: int| 0 <= c < cs.len() && subtree(ns, #[trigger] cs[c]).contains(q);
        assert(child(ns, q, x));
        lemma_child_inside(ns, cs[c], q, x);
    }
}

// ---- figures ----------------------------------------------------------------------------

/// Does a count of two figures taken together come to the counts of the two?
pub open spec fn counts<T: Tally>(count: spec_fn(T::V) -> nat) -> bool {
    forall|a: T::V, b: T::V| #[trigger] count(T::plus(a, b)) == count(a) + count(b)
}

proof fn lemma_counted<T: Tally>(
    ns: Seq<NodeView>,
    base: Map<Seq<char>, T::V>,
    count: spec_fn(T::V) -> nat,
    id: Seq<char>,
)
    requires
        counts::<T>(count),
        has_node(ns, id),
    ensures
        count(figure::<T>(ns, base, id)) == sum(
            subtree(ns, id),
            |x: Seq<char>| count(base[x]),
        ),
{
    let rel = |v: T::V, n: nat| count(v) == n;
    let c = |x: Seq<char>| count(base[x]);
    assert(adds_up::<T>(rel));
    assert(rated(ns, base, rel, c));
    law_every_node_counts_once::<T>(ns, base, id, rel, c);
}

proof fn lemma_counted_all<T: Tally>(
    ns: Seq<NodeView>,
    base: Map<Seq<char>, T::V>,
    count: spec_fn(T::V) -> nat,
    p: spec_fn(NodeView) -> bool,
)
    requires
        counts::<T>(count),
        names_differ::<Node>(ns),
    ensures
        sum(picked(ns, p), |c: Seq<char>| count(figure::<T>(ns, base, c))) == sum(
            picked(ns, p),
            |c: Seq<char>| sum(subtree(ns, c), |x: Seq<char>| count(base[x])),
        ),
{
    let cs = picked(ns, p);
    let f = |c: Seq<char>| count(figure::<T>(ns, base, c));
    let g = |c: Seq<char>| sum(subtree(ns, c), |x: Seq<char>| count(base[x]));
    lemma_picked(ns, p);
    assert forall|k: int| 0 <= k < cs.len() implies f(#[trigger] cs[k]) == g(cs[k]) by {
        assert(chosen(ns, p, cs[k]));
        let i = choose|i: int| 0 <= i < ns.len() && p(#[trigger] ns[i]) && ns[i].id == cs[k];
        assert(has_node(ns, ns[i].id));
        lemma_counted::<T>(ns, base, count, cs[k]);
    }
    lemma_sum_same_on(cs, f, g);
}

/// In a forest whatever is counted comes, over the subtree of a node, to the node's own
/// count and the counts of its children's subtrees.
pub proof fn law_figures_roll_up<T: Tally>(
    ns: Seq<NodeView>,
    base: Map<Seq<char>, T::V>,
    id: Seq<char>,
    count: spec_fn(T::V) -> nat,
)
    requires
        is_forest(ns),
        has_node(ns, id),
        counts::<T>(count),
    ensures
        count(figure::<T>(ns, base, id)) == count(base[id]) + sum(
            children_of(ns, id),
            |c: Seq<char>| count(figure::<T>(ns, base, c)),
        ),
{
    let own = |x: Seq<char>| count(base[x]);
    lemma_counted::<T>(ns, base, count, id);
    law_children_add_up(ns, id, own);
    lemma_counted_all::<T>(ns, base, count, |n: NodeView| n.parent_id == Some(id));
}

/// In a forest whatever is counted comes, over the subtrees of the roots, to what every
/// node counts for on its own.
pub proof fn law_roots_come_to_everything<T: Tally>(
    ns: Seq<NodeView>,
    base: Map<Seq<char>, T::V>,
    count: spec_fn(T::V) -> nat,
)
    requires
        is_forest(ns),
        counts::<T>(count),
    ensures
        sum(tops(ns), |c: Seq<char>| count(figure::<T>(ns, base, c))) == sum(
            node_ids(ns),
            |x: Seq<char>| count(base[x]),
        ),
{
    law_roots_add_up(ns, |x: Seq<char>| count(base[x]));
    lemma_counted_all::<T>(
        ns,
        base,
        count,
        |n: NodeView| n.parent_id is None || !has_node(ns, n.parent_id->0),
    );
}

// ---- health -----------------------------------------------------------------------------

/// In a forest whatever is counted comes, over the subtree of a node, to the node's own
/// count, that of the groups it hosts, and the counts of its children's subtrees.
pub proof fn law_health_rolls_up(
    m: ScryModelView,
    planned: Option<Seq<NodeView>>,
    files: Option<Set<Seq<char>>>,
    id: Seq<char>,
    count: spec_fn(HealthCountsView) -> nat,
)
    requires
        is_forest(m.nodes),
        has_node(m.nodes, id),
        counts::<HealthCounts>(count),
    ensures
        count(health_of(m, planned, files).nodes[id].subtree) == count(
            health_of(m, planned, files).nodes[id].own,
        ) + count(hosted_counts(m, m.groups, Some(id))) + sum(
            children_of(m.nodes, id),
            |c: Seq<char>| count(health_of(m, planned, files).nodes[c].subtree),
        ),
{
    let ns = m.nodes;
    let bs = start_counts(m, planned);
    law_figures_roll_up::<HealthCounts>(ns, bs, id, count);
    let p = |n: NodeView| n.parent_id == Some(id);
    lemma_of_the_picked(m, planned, files, p, count);
}

proof fn lemma_of_the_picked(
    m: ScryModelView,
    planned: Option<Seq<NodeView>>,
    files: Option<Set<Seq<char>>>,
    p: spec_fn(NodeView) -> bool,
    count: spec_fn(HealthCountsView) -> nat,
)
    requires
        names_differ::<Node>(m.nodes),
    ensures
        sum(
            picked(m.nodes, p),
            |c: Seq<char>| count(health_of(m, planned, files).nodes[c].subtree),
        ) == sum(
            picked(m.nodes, p),
            |c: Seq<char>| count(figure::<HealthCounts>(m.nodes, start_counts(m, planned), c)),
        ),
{
    let ns = m.nodes;
    let cs = picked(ns, p);
    let bs = start_counts(m, planned);
    let f = |c: Seq<char>| count(health_of(m, planned, files).nodes[c].subtree);
    let g = |c: Seq<char>| count(figure::<HealthCounts>(ns, bs, c));
    lemma_picked(ns, p);
    assert forall|k: int| 0 <= k < cs.len() implies f(#[trigger] cs[k]) == g(cs[k]) by {
        assert(chosen(ns, p, cs[k]));
        let i = choose|i: int| 0 <= i < ns.len() && p(#[trigger] ns[i]) && ns[i].id == cs[k];
        assert(has_node(ns, ns[i].id));
    }
    lemma_sum_same_on(cs, f, g);
}

/// In a forest the totals are what the subtrees of the roots come to, together with the
/// groups that no node hosts, whatever is counted.
pub proof fn law_the_roots_come_to_the_totals(
    m: ScryModelView,
    planned: Option<Seq<NodeView>>,
    files: Option<Set<Seq<char>>>,
    count: spec_fn(HealthCountsView) -> nat,
)
    requires
        is_forest(m.nodes),
        counts::<HealthCounts>(count),
    ensures
        count(health_of(m, planned, files).totals) == count(hosted_counts(m, m.groups, None)) + sum(
            tops(m.nodes),
            |r: Seq<char>| count(health_of(m, planned, files).nodes[r].subtree),
        ),
{
    let ns = m.nodes;
    let bs = start_counts(m, planned);
    let ids = node_ids(ns);
    let p = |n: NodeView| n.parent_id is None || !has_node(ns, n.parent_id->0);
    lemma_of_the_picked(m, planned, files, p, count);
    law_roots_come_to_everything::<HealthCounts>(ns, bs, count);
    let own = |x: Seq<char>| count(own_of(m, planned, x));
    let both = |x: Seq<char>| own(x) + hosts(m, m.groups, count)(x);
    let all = |x: Seq<char>| count(bs[x]);
    assert forall|k: int| 0 <= k < ids.len() implies all(#[trigger] ids[k]) == both(ids[k]) by {
        assert(has_node(ns, ns[k].id));
    }
    lemma_sum_same_on(ids, all, both);
    lemma_sum_of_two(ids, own, hosts(m, m.groups, count), both);
    assert(ns.take(ns.len() as int) =~= ns);
    assert(ids.take(ids.len() as int) =~= ids);
    lemma_own_counted(m, planned, count, ns.len() as int);
    assert forall|i: int, j: int| 0 <= i < ids.len() && 0 <= j < ids.len() && i != j implies ids[i]
        != ids[j] by {
        assert(Node::name_of(ns[i]) != Node::name_of(ns[j]));
    }
    lemma_hosted_counted(m, m.groups, count);
}

spec fn hosts(
    m: ScryModelView,
    gs: Seq<GroupView>,
    count: spec_fn(HealthCountsView) -> nat,
) -> spec_fn(Seq<char>) -> nat {
    |x: Seq<char>| count(hosted_counts(m, gs, Some(x)))
}

proof fn lemma_nothing_counted(count: spec_fn(HealthCountsView) -> nat)
    requires
        counts::<HealthCounts>(count),
    ensures
        count(no_counts()) == 0,
{
    assert(HealthCounts::plus(no_counts(), no_counts()) =~= no_counts());
}

proof fn lemma_own_counted(
    m: ScryModelView,
    planned: Option<Seq<NodeView>>,
    count: spec_fn(HealthCountsView) -> nat,
    n: int,
)
    requires
        counts::<HealthCounts>(count),
        names_differ::<Node>(m.nodes),
        0 <= n <= m.nodes.len(),
    ensures
        count(nodes_counts(m, planned, m.nodes.take(n))) == sum(
            node_ids(m.nodes).take(n),
            |x: Seq<char>| count(own_of(m, planned, x)),
        ),
    decreases n,
{
    let ns = m.nodes;
    lemma_nothing_counted(count);
    if n > 0 {
        lemma_own_counted(m, planned, count, n - 1);
        assert(ns.take(n).drop_last() =~= ns.take(n - 1));
        assert(node_ids(ns).take(n).drop_last() =~= node_ids(ns).take(n - 1));
        assert forall|j: int| n - 1 < j < ns.len() implies (#[trigger] ns[j]).id != ns[n - 1].id by {
            assert(Node::name_of(ns[j]) != Node::name_of(ns[n - 1]));
        }
        lemma_last_node(ns, ns[n - 1].id, n - 1);
    }
}

/// Every group is counted with its host, or with those that have none.
proof fn lemma_hosted_counted(
    m: ScryModelView,
    gs: Seq<GroupView>,
    count: spec_fn(HealthCountsView) -> nat,
)
    requires
        counts::<HealthCounts>(count),
        node_ids(m.nodes).no_duplicates(),
    ensures
        count(groups_counts(m, gs)) == count(hosted_counts(m, gs, None)) + sum(
            node_ids(m.nodes),
            hosts(m, gs, count),
        ),
    decreases gs.len(),
{
    let ids = node_ids(m.nodes);
    lemma_nothing_counted(count);
    if gs.len() == 0 {
        lemma_sum_zero(ids, hosts(m, gs, count));
    } else {
        let d = gs.drop_last();
        let g = gs.last();
        let n = count(group_counts(m, g));
        lemma_hosted_counted(m, d, count);
        match group_host(m, g) {
            Some(p) => {
                assert forall|x: Seq<char>| #[trigger] hosts(m, gs, count)(x) == hosts(
                    m,
                    d,
                    count,
                )(x) + if x == p {
                    n
                } else {
                    0
                } by {}
                lemma_sum_more(ids, hosts(m, d, count), hosts(m, gs, count), p, n);
                let i = choose|i: int| 0 <= i < m.nodes.len() && (#[trigger] m.nodes[i]).id == p;
                assert(ids[i] == p);
            },
            None => {
                assert forall|x: Seq<char>| #[trigger] hosts(m, gs, count)(x) == hosts(
                    m,
                    d,
                    count,
                )(x) by {}
                lemma_sum_agrees(ids, hosts(m, gs, count), hosts(m, d, count));
            },
        }
    }
}

} // verus!
