//! What holds of every fold.

use crate::commit::{
    adopted, built_in, claim_adopted, claim_fold, clean, fold, group_fold, group_gate,
    group_with_claim, link_fold, links_outside, moved_in, node_fold, node_gate, node_out,
    node_with_claim, nodes_outside, not_there, prop_fold, removed_ids, scaffolded, Gate,
};
use crate::diff::{
    claim_index, collected, diff_of, flattened, gone, group_changes, group_claims, group_index,
    inner, kept_or_new, law_no_diff_with_itself, lemma_without_self, link_changes, link_index,
    lookup, node_changes, node_claims, node_index, prop_diff, prop_index, resp_changes, with_claims,
    with_props, without, Compared, ElementChangeView, ElementKind, OwnedProp, OwnedPropView,
    OwnedResp, OwnedRespView,
};
use crate::drift::{law_subtree, subtree};
use crate::model::{
    claim_of, group_claim, groups_without_claim, node_claim, nodes_without_claim, Group, GroupView,
    Link, LinkView, Node, NodeView, Responsibility, ResponsibilityView, SchemaProperty,
    SchemaPropertyView, ScryModelView,
};
use crate::named::{first, has_named, lemma_place_of, others, place_of, Named};
use crate::text::ascending;
use vstd::prelude::*;

verus! {

// ---- what enters ------------------------------------------------------------------

/// Does the claim carry no mark that awaits a verdict?
pub open spec fn unmarked(r: ResponsibilityView) -> bool {
    r.vagrant is None && r.stale is None && r.stale_proposal is None
}

/// A claim that folds with its host enters without marks, and is one of the
/// host's claims that passed: what awaits a verdict, is held back or belongs to
/// another change does not enter.
pub proof fn law_only_passed_claims_enter(
    gate: Gate,
    rs: Seq<ResponsibilityView>,
    i: int,
) -> (j: int)
    requires
        0 <= i < gate.folding(rs).len(),
    ensures
        unmarked(gate.folding(rs)[i]),
        0 <= j < rs.len(),
        gate.passes(rs[j]),
        gate.folding(rs)[i] == clean(rs[j]),
    decreases rs.len(),
{
    if gate.passes(rs.last()) && i == gate.folding(rs).len() - 1 {
        rs.len() - 1
    } else {
        law_only_passed_claims_enter(gate, rs.drop_last(), i)
    }
}

/// Every claim that passes enters.
pub proof fn law_passed_claims_enter(gate: Gate, rs: Seq<ResponsibilityView>, j: int)
    requires
        0 <= j < rs.len(),
        gate.passes(rs[j]),
    ensures
        gate.folding(rs).contains(clean(rs[j])),
    decreases rs.len(),
{
    let f = gate.folding(rs);
    if j == rs.len() - 1 {
        assert(f[f.len() - 1] == clean(rs[j]));
    } else {
        law_passed_claims_enter(gate, rs.drop_last(), j);
        let d = gate.folding(rs.drop_last());
        let k = choose|k: int| 0 <= k < d.len() && d[k] == clean(rs[j]);
        assert(f[k] == clean(rs[j]));
    }
}

/// A committed claim whose planned version stays behind keeps its committed
/// original: holding a claim back never deletes it.
pub proof fn law_held_back_keeps_its_original(
    gate: Gate,
    n: NodeView,
    prior: NodeView,
    r: ResponsibilityView,
)
    requires
        prior.responsibilities.contains(r),
        gate.stays_behind(n.responsibilities, r.id),
    ensures
        gate.node_copy(n, Some(prior)).responsibilities.contains(r),
{
    lemma_kept(gate, prior.responsibilities, n.responsibilities, r);
    let f = gate.folding(n.responsibilities);
    let k = gate.kept(prior.responsibilities, n.responsibilities);
    let i = choose|i: int| 0 <= i < k.len() && k[i] == r;
    assert((f + k)[f.len() + i] == r);
}

proof fn lemma_kept(
    gate: Gate,
    prior: Seq<ResponsibilityView>,
    rs: Seq<ResponsibilityView>,
    r: ResponsibilityView,
)
    requires
        prior.contains(r),
        gate.stays_behind(rs, r.id),
    ensures
        gate.kept(prior, rs).contains(r),
    decreases prior.len(),
{
    let k = gate.kept(prior, rs);
    if prior.last() == r {
        assert(k[k.len() - 1] == r);
    } else {
        let i = choose|i: int| 0 <= i < prior.len() && prior[i] == r;
        assert(prior.drop_last()[i] == r);
        lemma_kept(gate, prior.drop_last(), rs, r);
        let d = gate.kept(prior.drop_last(), rs);
        let j = choose|j: int| 0 <= j < d.len() && d[j] == r;
        assert(k[j] == r);
    }
}

// ---- one home ---------------------------------------------------------------------

/// An anchor has one home: where something folds, the plan's entry moves to
/// committed and leaves the plan; everywhere else both layers are as they were.
pub proof fn law_anchors_have_one_home<A>(
    base: Map<Seq<char>, A>,
    plan: Map<Seq<char>, A>,
    ks: Seq<Seq<char>>,
    k: Seq<char>,
)
    ensures
        lookup(moved_in(base, plan, ks), k) == (if ks.contains(k) && plan.contains_key(k) {
            Some(plan[k])
        } else {
            lookup(base, k)
        }),
        lookup(plan.remove_keys(ks.to_set()), k) == (if ks.contains(k) {
            None
        } else {
            lookup(plan, k)
        }),
{
}

// ---- deletions --------------------------------------------------------------------

proof fn lemma_nodes_outside(ns: Seq<NodeView>, gone: Seq<Seq<char>>, i: int)
    requires
        0 <= i < nodes_outside(ns, gone).len(),
    ensures
        !gone.contains(nodes_outside(ns, gone)[i].id),
        ns.contains(nodes_outside(ns, gone)[i]),
    decreases ns.len(),
{
    if !gone.contains(ns.last().id) && i == nodes_outside(ns, gone).len() - 1 {
        assert(ns[ns.len() - 1] == nodes_outside(ns, gone)[i]);
    } else {
        lemma_nodes_outside(ns.drop_last(), gone, i);
        let x = nodes_outside(ns.drop_last(), gone)[i];
        let j = choose|j: int| 0 <= j < ns.drop_last().len() && ns.drop_last()[j] == x;
        assert(ns[j] == x);
    }
}

proof fn lemma_links_outside(ls: Seq<LinkView>, gone: Seq<Seq<char>>, i: int)
    requires
        0 <= i < links_outside(ls, gone).len(),
    ensures
        !gone.contains(links_outside(ls, gone)[i].src),
        !gone.contains(links_outside(ls, gone)[i].dst),
    decreases ls.len(),
{
    let l = ls.last();
    if !(gone.contains(l.src) || gone.contains(l.dst)) && i == links_outside(ls, gone).len() - 1 {
    } else {
        lemma_links_outside(ls.drop_last(), gone, i);
    }
}

proof fn lemma_without(a: Seq<Seq<char>>, b: Seq<Seq<char>>, i: int)
    requires
        0 <= i < without(a, b).len(),
    ensures
        !b.contains(without(a, b)[i]),
    decreases a.len(),
{
    if !b.contains(a.last()) && i == without(a, b).len() - 1 {
    } else {
        lemma_without(a.drop_last(), b, i);
    }
}

proof fn lemma_not_there(s: Seq<Seq<char>>, ns: Seq<NodeView>, x: Seq<char>)
    ensures
        not_there(s, ns).contains(x) <==> s.contains(x) && !has_named::<Node>(ns, x),
    decreases s.len(),
{
    if s.len() > 0 {
        let d = s.drop_last();
        lemma_not_there(d, ns, x);
        let nd = not_there(d, ns);
        let n = not_there(s, ns);
        if d.contains(x) {
            let i = choose|i: int| 0 <= i < d.len() && d[i] == x;
            assert(s[i] == x);
        }
        if s.contains(x) && x != s.last() {
            let i = choose|i: int| 0 <= i < s.len() && s[i] == x;
            assert(d[i] == x);
        }
        assert(s[s.len() - 1] == s.last());
        if !has_named::<Node>(ns, s.last()) {
            assert(n[nd.len() as int] == s.last());
            if nd.contains(x) {
                let i = choose|i: int| 0 <= i < nd.len() && nd[i] == x;
                assert(n[i] == x);
            }
            if n.contains(x) && x != s.last() {
                let i = choose|i: int| 0 <= i < n.len() && n[i] == x;
                assert(nd[i] == x);
            }
        }
    }
}

/// A folded deletion leaves nothing dangling: no removed node remains, no link
/// touches one, no group names one, no boundary or anchor is keyed by one.
pub proof fn law_deletion_leaves_nothing_dangling(
    m: ScryModelView,
    p: ScryModelView,
    id: Seq<char>,
)
    ensures
        ({
            let c = node_out(m, p, id).committed;
            let out = removed_ids(m, p, id);
            &&& forall|i: int|
                0 <= i < c.nodes.len() ==> !out.contains((#[trigger] c.nodes[i]).id)
            &&& forall|i: int|
                0 <= i < c.links.len() ==> !out.contains((#[trigger] c.links[i]).src)
                    && !out.contains(c.links[i].dst)
            &&& forall|i: int, j: int|
                0 <= i < c.groups.len() && 0 <= j < (#[trigger] c.groups[i]).member_ids.len()
                    ==> !out.contains(#[trigger] c.groups[i].member_ids[j])
            &&& forall|k: Seq<char>|
                out.contains(k) ==> !(#[trigger] c.boundaries.contains_key(k))
                    && !c.source_map.contains_key(k)
        }),
{
    let c = node_out(m, p, id).committed;
    let out = removed_ids(m, p, id);
    assert forall|i: int| 0 <= i < c.nodes.len() implies !out.contains(
        (#[trigger] c.nodes[i]).id,
    ) by {
        lemma_nodes_outside(m.nodes, out, i);
    }
    assert forall|i: int| 0 <= i < c.links.len() implies !out.contains((#[trigger] c.links[i]).src)
        && !out.contains(c.links[i].dst) by {
        lemma_links_outside(m.links, out, i);
    }
    assert forall|i: int, j: int|
        0 <= i < c.groups.len() && 0 <= j < (#[trigger] c.groups[i]).member_ids.len() implies !out.contains(
        #[trigger] c.groups[i].member_ids[j],
    ) by {
        lemma_without(m.groups[i].member_ids, out, j);
    }
}

/// A deletion removes the node it names and only what the plan agrees is gone: a
/// node that the plan still has survives.
pub proof fn law_deletion_spares_what_the_plan_keeps(
    m: ScryModelView,
    p: ScryModelView,
    id: Seq<char>,
    n: NodeView,
)
    requires
        !has_named::<Node>(p.nodes, id),
        m.nodes.contains(n),
    ensures
        removed_ids(m, p, id).contains(id),
        has_named::<Node>(p.nodes, n.id) || !subtree(m.nodes, id).contains(n.id)
            ==> node_out(m, p, id).committed.nodes.contains(n),
{
    law_subtree(m.nodes, id);
    let s = subtree(m.nodes, id);
    assert(s.contains(s[0]));
    lemma_not_there(s, p.nodes, id);
    lemma_not_there(s, p.nodes, n.id);
    if has_named::<Node>(p.nodes, n.id) || !s.contains(n.id) {
        lemma_outside_keeps(m.nodes, removed_ids(m, p, id), n);
    }
}

proof fn lemma_outside_keeps(ns: Seq<NodeView>, gone: Seq<Seq<char>>, n: NodeView)
    requires
        ns.contains(n),
        !gone.contains(n.id),
    ensures
        nodes_outside(ns, gone).contains(n),
    decreases ns.len(),
{
    let r = nodes_outside(ns, gone);
    if ns.last() == n {
        assert(r[r.len() - 1] == n);
    } else {
        let i = choose|i: int| 0 <= i < ns.len() && ns[i] == n;
        assert(ns.drop_last()[i] == n);
        lemma_outside_keeps(ns.drop_last(), gone, n);
        let d = nodes_outside(ns.drop_last(), gone);
        let j = choose|j: int| 0 <= j < d.len() && d[j] == n;
        assert(r[j] == n);
    }
}

// ---- residence --------------------------------------------------------------------

pub proof fn lemma_others_has<T: Named>(s: Seq<T::V>, id: Seq<char>, x: Seq<char>)
    ensures
        has_named::<T>(others::<T>(s, id), x) <==> x != id && has_named::<T>(s, x),
    decreases s.len(),
{
    if s.len() > 0 {
        let d = s.drop_last();
        lemma_others_has::<T>(d, id, x);
        let od = others::<T>(d, id);
        let o = others::<T>(s, id);
        if has_named::<T>(d, x) {
            let i = choose|i: int| 0 <= i < d.len() && T::name_of(#[trigger] d[i]) == x;
            assert(T::name_of(s[i]) == x);
        }
        if has_named::<T>(s, x) && x != T::name_of(s.last()) {
            let i = choose|i: int| 0 <= i < s.len() && T::name_of(#[trigger] s[i]) == x;
            assert(T::name_of(d[i]) == x);
        }
        assert(s[s.len() - 1] == s.last());
        if T::name_of(s.last()) != id {
            assert(o[od.len() as int] == s.last());
            if has_named::<T>(od, x) {
                let i = choose|i: int| 0 <= i < od.len() && T::name_of(#[trigger] od[i]) == x;
                assert(T::name_of(o[i]) == x);
            }
            if has_named::<T>(o, x) && x != T::name_of(s.last()) {
                let i = choose|i: int| 0 <= i < o.len() && T::name_of(#[trigger] o[i]) == x;
                assert(T::name_of(od[i]) == x);
            }
        }
    }
}

/// A node enters committed only under a parent that is there: folding it never
/// leaves it dangling.
pub proof fn law_parent_is_committed(
    m: ScryModelView,
    p: ScryModelView,
    id: Seq<char>,
    withhold: Seq<Seq<char>>,
    n: NodeView,
)
    requires
        first::<Node>(p.nodes, id) == Some(n),
        n.parent_id is Some,
        node_fold(m, p, id, withhold) is Ok,
    ensures
        has_named::<Node>(node_fold(m, p, id, withhold)->Ok_0.committed.nodes, n.parent_id->0),
{
    let c = node_fold(m, p, id, withhold)->Ok_0.committed;
    let pid = n.parent_id->0;
    lemma_others_has::<Node>(m.nodes, id, pid);
    let o = others::<Node>(m.nodes, id);
    let i = choose|i: int| 0 <= i < o.len() && Node::name_of(#[trigger] o[i]) == pid;
    assert(Node::name_of(c.nodes[i]) == pid);
}

/// A link enters committed only between nodes that are there.
pub proof fn law_link_ends_are_committed(
    m: ScryModelView,
    p: ScryModelView,
    id: Seq<char>,
    l: LinkView,
)
    requires
        first::<Link>(p.links, id) == Some(l),
        link_fold(m, p, id) is Ok,
    ensures
        has_named::<Node>(link_fold(m, p, id)->Ok_0.committed.nodes, l.src),
        has_named::<Node>(link_fold(m, p, id)->Ok_0.committed.nodes, l.dst),
{
}

// ---- scaffolding ------------------------------------------------------------------

proof fn lemma_others_origin(s: Seq<NodeView>, id: Seq<char>, i: int)
    requires
        0 <= i < others::<Node>(s, id).len(),
    ensures
        s.contains(others::<Node>(s, id)[i]),
        others::<Node>(s, id)[i].id != id,
    decreases s.len(),
{
    if s.last().id != id && i == others::<Node>(s, id).len() - 1 {
        assert(s[s.len() - 1] == s.last());
    } else {
        lemma_others_origin(s.drop_last(), id, i);
        let x = others::<Node>(s.drop_last(), id)[i];
        let j = choose|j: int| 0 <= j < s.drop_last().len() && s.drop_last()[j] == x;
        assert(s[j] == x);
    }
}

/// Scaffolding commits no claim: every committed node afterwards was committed
/// before, or carries neither claims nor properties.
pub proof fn law_scaffolding_commits_no_claim(
    m: ScryModelView,
    p: ScryModelView,
    ids: Seq<Seq<char>>,
    i: int,
)
    requires
        0 <= i < scaffolded(m, p, ids).nodes.len(),
    ensures
        ({
            let n = scaffolded(m, p, ids).nodes[i];
            m.nodes.contains(n) || (n.responsibilities.len() == 0 && n.properties.len() == 0
                && n.vagrant is None && n.stale is None)
        }),
    decreases ids.len(),
{
    if ids.len() == 0 {
        assert(m.nodes.contains(m.nodes[i]));
    } else {
        let b = scaffolded(m, p, ids.drop_last());
        let o = others::<Node>(b.nodes, ids.last());
        if i < o.len() {
            lemma_others_origin(b.nodes, ids.last(), i);
            let k = choose|k: int| 0 <= k < b.nodes.len() && b.nodes[k] == o[i];
            law_scaffolding_commits_no_claim(m, p, ids.drop_last(), k);
        }
    }
}

// ---- whole builds -----------------------------------------------------------------

/// After a build is folded in nothing is pending, and no anchor, test or boundary
/// that only committed had is lost.
pub proof fn law_a_build_leaves_nothing_pending(c: ScryModelView, built: ScryModelView)
    ensures
        ({
            let b = built_in(c, built);
            &&& diff_of(b.committed, b.planned).len() == 0
            &&& forall|k: Seq<char>|
                c.source_map.contains_key(k) ==> #[trigger] b.committed.source_map.contains_key(k)
            &&& forall|k: Seq<char>|
                c.test_map.contains_key(k) ==> #[trigger] b.committed.test_map.contains_key(k)
            &&& forall|k: Seq<char>|
                c.boundaries.contains_key(k) ==> #[trigger] b.committed.boundaries.contains_key(k)
        }),
{
    let b = built_in(c, built);
    law_no_diff_with_itself(b.committed);
    assert(diff_of(b.committed, b.planned) == diff_of(b.committed, b.committed));
}

// ---- the plan clears --------------------------------------------------------------

/// Has every thing its own name?
pub open spec fn names_differ<T: Named>(s: Seq<T::V>) -> bool {
    forall|i: int, j: int|
        0 <= i < s.len() && 0 <= j < s.len() && i != j ==> T::name_of(#[trigger] s[i])
            != T::name_of(#[trigger] s[j])
}

/// Does no entry of the plan concern the element itself?
pub open spec fn cleared(d: Seq<ElementChangeView>, kind: ElementKind, id: Seq<char>) -> bool {
    forall|i: int| 0 <= i < d.len() ==> !((#[trigger] d[i]).kind == kind && d[i].id == id)
}

proof fn lemma_collected_cleared(
    s: Seq<Option<ElementChangeView>>,
    kind: ElementKind,
    id: Seq<char>,
)
    requires
        forall|i: int|
            0 <= i < s.len() && (#[trigger] s[i]) is Some ==> !(s[i]->0.kind == kind && s[i]->0.id
                == id),
    ensures
        cleared(collected(s), kind, id),
    decreases s.len(),
{
    if s.len() > 0 {
        let d = s.drop_last();
        assert forall|i: int| 0 <= i < d.len() && (#[trigger] d[i]) is Some implies !(d[i]->0.kind
            == kind && d[i]->0.id == id) by {
            assert(s[i] is Some);
        }
        lemma_collected_cleared(d, kind, id);
        assert(s[s.len() - 1] == s.last());
    }
}

proof fn lemma_walk_cleared<T: Compared>(
    f: Map<Seq<char>, T::V>,
    t: Map<Seq<char>, T::V>,
    kind: ElementKind,
    id: Seq<char>,
)
    requires
        forall|k: Seq<char>, a: Option<T::V>, b: Option<T::V>|
            (#[trigger] T::change_of(k, a, b)) is Some ==> !(T::change_of(k, a, b)->0.kind == kind
                && T::change_of(k, a, b)->0.id == id) || k == id,
        T::change_of(id, lookup(f, id), lookup(t, id)) is None,
    ensures
        cleared(kept_or_new::<T>(f, t), kind, id),
        cleared(gone::<T>(f, t), kind, id),
{
    let tk = ascending(t.dom());
    let a = Seq::new(
        tk.len(),
        |i: int| T::change_of(tk[i], lookup(f, tk[i]), lookup(t, tk[i])),
    );
    lemma_collected_cleared(a, kind, id);
    let fk = ascending(f.dom());
    let b = Seq::new(
        fk.len(),
        |i: int|
            if t.contains_key(fk[i]) {
                None
            } else {
                T::change_of(fk[i], lookup(f, fk[i]), None)
            },
    );
    assert forall|i: int| 0 <= i < b.len() && (#[trigger] b[i]) is Some implies !(b[i]->0.kind
        == kind && b[i]->0.id == id) by {
        if fk[i] == id {
            assert(lookup(t, id) is None);
        }
    }
    lemma_collected_cleared(b, kind, id);
}

proof fn lemma_other_kind<T: Compared>(
    f: Map<Seq<char>, T::V>,
    t: Map<Seq<char>, T::V>,
    kind: ElementKind,
    id: Seq<char>,
)
    requires
        forall|k: Seq<char>, a: Option<T::V>, b: Option<T::V>|
            (#[trigger] T::change_of(k, a, b)) is Some ==> T::change_of(k, a, b)->0.kind != kind,
    ensures
        cleared(kept_or_new::<T>(f, t), kind, id),
        cleared(gone::<T>(f, t), kind, id),
{
    let tk = ascending(t.dom());
    let a = Seq::new(
        tk.len(),
        |i: int| T::change_of(tk[i], lookup(f, tk[i]), lookup(t, tk[i])),
    );
    lemma_collected_cleared(a, kind, id);
    let fk = ascending(f.dom());
    let b = Seq::new(
        fk.len(),
        |i: int|
            if t.contains_key(fk[i]) {
                None
            } else {
                T::change_of(fk[i], lookup(f, fk[i]), None)
            },
    );
    lemma_collected_cleared(b, kind, id);
}

proof fn lemma_flattened_cleared(
    s: Seq<Seq<ElementChangeView>>,
    kind: ElementKind,
    id: Seq<char>,
)
    requires
        forall|i: int| 0 <= i < s.len() ==> cleared(#[trigger] s[i], kind, id),
    ensures
        cleared(flattened(s), kind, id),
    decreases s.len(),
{
    if s.len() > 0 {
        let d = s.drop_last();
        assert forall|i: int| 0 <= i < d.len() implies cleared(#[trigger] d[i], kind, id) by {
            assert(d[i] == s[i]);
        }
        lemma_flattened_cleared(d, kind, id);
        assert(cleared(s[s.len() - 1], kind, id));
    }
}

proof fn lemma_props_other_kind(
    f: Seq<NodeView>,
    t: Seq<NodeView>,
    kind: ElementKind,
    id: Seq<char>,
)
    requires
        kind != ElementKind::Property,
    ensures
        cleared(prop_diff(prop_index(f), prop_index(t)), kind, id),
{
    let fm = prop_index(f);
    let tm = prop_index(t);
    let tk = ascending(tm.dom());
    let fk = ascending(fm.dom());
    let a = Seq::new(
        tk.len(),
        |i: int| kept_or_new::<OwnedProp>(inner(fm, tk[i]), inner(tm, tk[i])),
    );
    let b = Seq::new(fk.len(), |i: int| gone::<OwnedProp>(inner(fm, fk[i]), inner(tm, fk[i])));
    assert forall|i: int| 0 <= i < a.len() implies cleared(#[trigger] a[i], kind, id) by {
        lemma_other_kind::<OwnedProp>(inner(fm, tk[i]), inner(tm, tk[i]), kind, id);
    }
    assert forall|i: int| 0 <= i < b.len() implies cleared(#[trigger] b[i], kind, id) by {
        lemma_other_kind::<OwnedProp>(inner(fm, fk[i]), inner(tm, fk[i]), kind, id);
    }
    lemma_flattened_cleared(a, kind, id);
    lemma_flattened_cleared(b, kind, id);
}

pub proof fn lemma_node_cleared(f: ScryModelView, t: ScryModelView, id: Seq<char>)
    requires
        Node::change_of(
            id,
            lookup(node_index(f.nodes), id),
            lookup(node_index(t.nodes), id),
        ) is None,
    ensures
        cleared(diff_of(f, t), ElementKind::Node, id),
{
    let kind = ElementKind::Node;
    lemma_walk_cleared::<Node>(node_index(f.nodes), node_index(t.nodes), kind, id);
    lemma_other_kind::<Link>(link_index(f.links), link_index(t.links), kind, id);
    lemma_other_kind::<OwnedResp>(claim_index(f), claim_index(t), kind, id);
    lemma_other_kind::<Group>(group_index(f.groups), group_index(t.groups), kind, id);
    lemma_props_other_kind(f.nodes, t.nodes, kind, id);
}

pub proof fn lemma_link_cleared(f: ScryModelView, t: ScryModelView, id: Seq<char>)
    requires
        Link::change_of(
            id,
            lookup(link_index(f.links), id),
            lookup(link_index(t.links), id),
        ) is None,
    ensures
        cleared(diff_of(f, t), ElementKind::Link, id),
{
    let kind = ElementKind::Link;
    lemma_other_kind::<Node>(node_index(f.nodes), node_index(t.nodes), kind, id);
    lemma_walk_cleared::<Link>(link_index(f.links), link_index(t.links), kind, id);
    lemma_other_kind::<OwnedResp>(claim_index(f), claim_index(t), kind, id);
    lemma_other_kind::<Group>(group_index(f.groups), group_index(t.groups), kind, id);
    lemma_props_other_kind(f.nodes, t.nodes, kind, id);
}

pub proof fn lemma_node_index_names(ns: Seq<NodeView>, k: Seq<char>)
    ensures
        node_index(ns).contains_key(k) <==> has_named::<Node>(ns, k),
        node_index(ns).contains_key(k) ==> node_index(ns)[k].id == k,
    decreases ns.len(),
{
    if ns.len() > 0 {
        let d = ns.drop_last();
        lemma_node_index_names(d, k);
        if has_named::<Node>(d, k) {
            let i = choose|i: int| 0 <= i < d.len() && Node::name_of(#[trigger] d[i]) == k;
            assert(Node::name_of(ns[i]) == k);
        }
        if has_named::<Node>(ns, k) && ns.last().id != k {
            let i = choose|i: int| 0 <= i < ns.len() && Node::name_of(#[trigger] ns[i]) == k;
            assert(Node::name_of(d[i]) == k);
        }
        assert(Node::name_of(ns[ns.len() - 1]) == ns.last().id);
    }
}

pub proof fn lemma_node_index_at(ns: Seq<NodeView>, i: int)
    requires
        names_differ::<Node>(ns),
        0 <= i < ns.len(),
    ensures
        lookup(node_index(ns), ns[i].id) == Some(ns[i]),
    decreases ns.len(),
{
    let d = ns.drop_last();
    if i < ns.len() - 1 {
        assert forall|a: int, b: int|
            0 <= a < d.len() && 0 <= b < d.len() && a != b implies Node::name_of(#[trigger] d[a])
            != Node::name_of(#[trigger] d[b]) by {
            assert(Node::name_of(ns[a]) != Node::name_of(ns[b]));
        }
        lemma_node_index_at(d, i);
        assert(Node::name_of(ns[i]) != Node::name_of(ns[ns.len() - 1]));
    }
}

pub proof fn lemma_link_index_names(ls: Seq<LinkView>, k: Seq<char>)
    ensures
        link_index(ls).contains_key(k) <==> has_named::<Link>(ls, k),
    decreases ls.len(),
{
    if ls.len() > 0 {
        let d = ls.drop_last();
        lemma_link_index_names(d, k);
        if has_named::<Link>(d, k) {
            let i = choose|i: int| 0 <= i < d.len() && Link::name_of(#[trigger] d[i]) == k;
            assert(Link::name_of(ls[i]) == k);
        }
        if has_named::<Link>(ls, k) && ls.last().id != k {
            let i = choose|i: int| 0 <= i < ls.len() && Link::name_of(#[trigger] ls[i]) == k;
            assert(Link::name_of(d[i]) == k);
        }
        assert(Link::name_of(ls[ls.len() - 1]) == ls.last().id);
    }
}

pub proof fn lemma_link_index_at(ls: Seq<LinkView>, i: int)
    requires
        names_differ::<Link>(ls),
        0 <= i < ls.len(),
    ensures
        lookup(link_index(ls), ls[i].id) == Some(ls[i]),
    decreases ls.len(),
{
    let d = ls.drop_last();
    if i < ls.len() - 1 {
        assert forall|a: int, b: int|
            0 <= a < d.len() && 0 <= b < d.len() && a != b implies Link::name_of(#[trigger] d[a])
            != Link::name_of(#[trigger] d[b]) by {
            assert(Link::name_of(ls[a]) != Link::name_of(ls[b]));
        }
        lemma_link_index_at(d, i);
        assert(Link::name_of(ls[i]) != Link::name_of(ls[ls.len() - 1]));
    }
}

/// The plan clears: once a node has folded, added, changed or deleted, no entry
/// of the plan concerns the node itself any more.
pub proof fn law_a_folded_node_is_not_pending(
    m: ScryModelView,
    p: ScryModelView,
    id: Seq<char>,
    withhold: Seq<Seq<char>>,
)
    requires
        names_differ::<Node>(p.nodes),
        fold(m, p, ElementKind::Node, None, id, withhold) is Ok,
    ensures
        ({
            let f = fold(m, p, ElementKind::Node, None, id, withhold)->Ok_0;
            cleared(diff_of(f.committed, f.planned), ElementKind::Node, id)
        }),
{
    let f = fold(m, p, ElementKind::Node, None, id, withhold)->Ok_0;
    let l = node_fold(m, p, id, withhold)->Ok_0;
    assert(f.planned.nodes == l.planned.nodes);
    lemma_place_of::<Node>(p.nodes, id);
    match first::<Node>(p.nodes, id) {
        Some(n) => {
            let i = place_of::<Node>(p.nodes, id);
            let gate = node_gate(p, id, withhold);
            let copy = gate.node_copy(n, first::<Node>(m.nodes, id));
            let o = others::<Node>(m.nodes, id);
            assert(f.committed.nodes.drop_last() =~= o);
            assert(f.committed.nodes.last() == copy);
            assert(lookup(node_index(f.committed.nodes), id) == Some(copy));
            let t = f.planned.nodes;
            assert forall|a: int, b: int|
                0 <= a < t.len() && 0 <= b < t.len() && a != b implies Node::name_of(
                #[trigger] t[a],
            ) != Node::name_of(#[trigger] t[b]) by {
                assert(Node::name_of(p.nodes[a]) != Node::name_of(p.nodes[b]));
            }
            lemma_node_index_at(t, i);
            assert(node_changes(copy, t[i]).len() == 0);
        },
        None => {
            law_deletion_leaves_nothing_dangling(m, p, id);
            law_subtree(m.nodes, id);
            let s = subtree(m.nodes, id);
            assert(s.contains(s[0]));
            lemma_not_there(s, p.nodes, id);
            lemma_node_index_names(f.committed.nodes, id);
            if has_named::<Node>(f.committed.nodes, id) {
                let i = choose|i: int|
                    0 <= i < f.committed.nodes.len() && Node::name_of(
                        #[trigger] f.committed.nodes[i],
                    ) == id;
                assert(f.committed.nodes[i].id == id);
            }
            lemma_others_has::<Node>(p.nodes, id, id);
            lemma_node_index_names(f.planned.nodes, id);
        },
    }
    lemma_node_cleared(f.committed, f.planned, id);
}

/// The plan clears: once a link has folded, no entry of the plan concerns it any
/// more.
pub proof fn law_a_folded_link_is_not_pending(m: ScryModelView, p: ScryModelView, id: Seq<char>)
    requires
        names_differ::<Link>(p.links),
        fold(m, p, ElementKind::Link, None, id, Seq::empty()) is Ok,
    ensures
        ({
            let f = fold(m, p, ElementKind::Link, None, id, Seq::empty())->Ok_0;
            cleared(diff_of(f.committed, f.planned), ElementKind::Link, id)
        }),
{
    let f = fold(m, p, ElementKind::Link, None, id, Seq::empty())->Ok_0;
    lemma_place_of::<Link>(p.links, id);
    match first::<Link>(p.links, id) {
        Some(l) => {
            let i = place_of::<Link>(p.links, id);
            let o = others::<Link>(m.links, id);
            assert(f.committed.links.drop_last() =~= o);
            assert(f.committed.links.last() == l);
            assert(lookup(link_index(f.committed.links), id) == Some(l));
            lemma_link_index_at(p.links, i);
            assert(link_changes(l, l).len() == 0);
        },
        None => {
            lemma_others_has::<Link>(m.links, id, id);
            lemma_link_index_names(f.committed.links, id);
            lemma_others_has::<Link>(p.links, id, id);
            lemma_link_index_names(f.planned.links, id);
        },
    }
    lemma_link_cleared(f.committed, f.planned, id);
}

// ---- claims and groups ------------------------------------------------------------

pub proof fn lemma_claim_cleared(f: ScryModelView, t: ScryModelView, id: Seq<char>)
    requires
        OwnedResp::change_of(id, lookup(claim_index(f), id), lookup(claim_index(t), id)) is None,
    ensures
        cleared(diff_of(f, t), ElementKind::Responsibility, id),
{
    let kind = ElementKind::Responsibility;
    lemma_other_kind::<Node>(node_index(f.nodes), node_index(t.nodes), kind, id);
    lemma_other_kind::<Link>(link_index(f.links), link_index(t.links), kind, id);
    lemma_walk_cleared::<OwnedResp>(claim_index(f), claim_index(t), kind, id);
    lemma_other_kind::<Group>(group_index(f.groups), group_index(t.groups), kind, id);
    lemma_props_other_kind(f.nodes, t.nodes, kind, id);
}

pub proof fn lemma_group_cleared(f: ScryModelView, t: ScryModelView, id: Seq<char>)
    requires
        Group::change_of(
            id,
            lookup(group_index(f.groups), id),
            lookup(group_index(t.groups), id),
        ) is None,
    ensures
        cleared(diff_of(f, t), ElementKind::Group, id),
{
    let kind = ElementKind::Group;
    lemma_other_kind::<Node>(node_index(f.nodes), node_index(t.nodes), kind, id);
    lemma_other_kind::<Link>(link_index(f.links), link_index(t.links), kind, id);
    lemma_other_kind::<OwnedResp>(claim_index(f), claim_index(t), kind, id);
    lemma_walk_cleared::<Group>(group_index(f.groups), group_index(t.groups), kind, id);
    lemma_props_other_kind(f.nodes, t.nodes, kind, id);
}

/// Does any of the nodes make the claim called `id`?
pub open spec fn nodes_claim(ns: Seq<NodeView>, id: Seq<char>) -> bool {
    exists|i: int|
        0 <= i < ns.len() && has_named::<Responsibility>(
            (#[trigger] ns[i]).responsibilities,
            id,
        )
}

/// Does any of the groups make the claim called `id`?
pub open spec fn groups_claim(gs: Seq<GroupView>, id: Seq<char>) -> bool {
    exists|i: int|
        0 <= i < gs.len() && has_named::<Responsibility>(
            (#[trigger] gs[i]).responsibilities,
            id,
        )
}

/// Is the claim called `id` made at most once?
pub open spec fn claimed_once(m: ScryModelView, id: Seq<char>) -> bool {
    &&& forall|i: int|
        0 <= i < m.nodes.len() ==> once((#[trigger] m.nodes[i]).responsibilities, id)
    &&& forall|i: int|
        0 <= i < m.groups.len() ==> once((#[trigger] m.groups[i]).responsibilities, id)
    &&& forall|i: int, j: int|
        0 <= i < m.nodes.len() && 0 <= j < m.nodes.len() && has_named::<Responsibility>(
            (#[trigger] m.nodes[i]).responsibilities,
            id,
        ) && has_named::<Responsibility>((#[trigger] m.nodes[j]).responsibilities, id) ==> i == j
    &&& forall|i: int, j: int|
        0 <= i < m.groups.len() && 0 <= j < m.groups.len() && has_named::<Responsibility>(
            (#[trigger] m.groups[i]).responsibilities,
            id,
        ) && has_named::<Responsibility>((#[trigger] m.groups[j]).responsibilities, id) ==> i == j
    &&& !(nodes_claim(m.nodes, id) && groups_claim(m.groups, id))
}

/// Is at most one of the claims called `id`?
pub open spec fn once(rs: Seq<ResponsibilityView>, id: Seq<char>) -> bool {
    forall|i: int, j: int|
        0 <= i < rs.len() && 0 <= j < rs.len() && (#[trigger] rs[i]).id == id && (
        #[trigger] rs[j]).id == id ==> i == j
}

proof fn lemma_with_claims_none(
    m: Map<Seq<char>, OwnedRespView>,
    owner: Seq<char>,
    rs: Seq<ResponsibilityView>,
    id: Seq<char>,
)
    requires
        !has_named::<Responsibility>(rs, id),
    ensures
        lookup(with_claims(m, owner, rs), id) == lookup(m, id),
    decreases rs.len(),
{
    if rs.len() > 0 {
        let d = rs.drop_last();
        assert(Responsibility::name_of(rs[rs.len() - 1]) != id);
        assert forall|i: int| 0 <= i < d.len() implies Responsibility::name_of(#[trigger] d[i])
            != id by {
            assert(Responsibility::name_of(rs[i]) != id);
        }
        lemma_with_claims_none(m, owner, d, id);
    }
}

proof fn lemma_with_claims_at(
    m: Map<Seq<char>, OwnedRespView>,
    owner: Seq<char>,
    rs: Seq<ResponsibilityView>,
    id: Seq<char>,
    k: int,
)
    requires
        once(rs, id),
        0 <= k < rs.len(),
        rs[k].id == id,
    ensures
        lookup(with_claims(m, owner, rs), id) == Some(
            OwnedRespView { owner_id: owner, resp: rs[k] },
        ),
    decreases rs.len(),
{
    let d = rs.drop_last();
    if k < rs.len() - 1 {
        assert(rs[rs.len() - 1].id != id);
        assert forall|i: int, j: int|
            0 <= i < d.len() && 0 <= j < d.len() && (#[trigger] d[i]).id == id && (
            #[trigger] d[j]).id == id implies i == j by {
            assert(rs[i].id == id && rs[j].id == id);
        }
        lemma_with_claims_at(m, owner, d, id, k);
    }
}

pub proof fn lemma_node_claims_none(ns: Seq<NodeView>, id: Seq<char>)
    requires
        !nodes_claim(ns, id),
    ensures
        lookup(node_claims(ns), id) is None,
    decreases ns.len(),
{
    if ns.len() > 0 {
        let d = ns.drop_last();
        assert forall|i: int| 0 <= i < d.len() implies !has_named::<Responsibility>(
            (#[trigger] d[i]).responsibilities,
            id,
        ) by {
            assert(!has_named::<Responsibility>(ns[i].responsibilities, id));
        }
        lemma_node_claims_none(d, id);
        assert(!has_named::<Responsibility>(ns[ns.len() - 1].responsibilities, id));
        lemma_with_claims_none(node_claims(d), ns.last().id, ns.last().responsibilities, id);
    }
}

pub proof fn lemma_node_claims_at(ns: Seq<NodeView>, id: Seq<char>, i: int, k: int)
    requires
        0 <= i < ns.len(),
        once(ns[i].responsibilities, id),
        0 <= k < ns[i].responsibilities.len(),
        ns[i].responsibilities[k].id == id,
        forall|j: int|
            0 <= j < ns.len() && j != i ==> !has_named::<Responsibility>(
                (#[trigger] ns[j]).responsibilities,
                id,
            ),
    ensures
        lookup(node_claims(ns), id) == Some(
            OwnedRespView { owner_id: ns[i].id, resp: ns[i].responsibilities[k] },
        ),
    decreases ns.len(),
{
    let d = ns.drop_last();
    if i == ns.len() - 1 {
        lemma_with_claims_at(node_claims(d), ns.last().id, ns.last().responsibilities, id, k);
    } else {
        assert forall|j: int| 0 <= j < d.len() && j != i implies !has_named::<Responsibility>(
            (#[trigger] d[j]).responsibilities,
            id,
        ) by {
            assert(!has_named::<Responsibility>(ns[j].responsibilities, id));
        }
        lemma_node_claims_at(d, id, i, k);
        assert(!has_named::<Responsibility>(ns[ns.len() - 1].responsibilities, id));
        lemma_with_claims_none(node_claims(d), ns.last().id, ns.last().responsibilities, id);
    }
}

pub proof fn lemma_group_claims_none(
    m: Map<Seq<char>, OwnedRespView>,
    gs: Seq<GroupView>,
    id: Seq<char>,
)
    requires
        !groups_claim(gs, id),
    ensures
        lookup(group_claims(m, gs), id) == lookup(m, id),
    decreases gs.len(),
{
    if gs.len() > 0 {
        let d = gs.drop_last();
        assert forall|i: int| 0 <= i < d.len() implies !has_named::<Responsibility>(
            (#[trigger] d[i]).responsibilities,
            id,
        ) by {
            assert(!has_named::<Responsibility>(gs[i].responsibilities, id));
        }
        lemma_group_claims_none(m, d, id);
        assert(!has_named::<Responsibility>(gs[gs.len() - 1].responsibilities, id));
        lemma_with_claims_none(group_claims(m, d), gs.last().id, gs.last().responsibilities, id);
    }
}

pub proof fn lemma_group_claims_at(
    m: Map<Seq<char>, OwnedRespView>,
    gs: Seq<GroupView>,
    id: Seq<char>,
    i: int,
    k: int,
)
    requires
        0 <= i < gs.len(),
        once(gs[i].responsibilities, id),
        0 <= k < gs[i].responsibilities.len(),
        gs[i].responsibilities[k].id == id,
        forall|j: int|
            0 <= j < gs.len() && j != i ==> !has_named::<Responsibility>(
                (#[trigger] gs[j]).responsibilities,
                id,
            ),
    ensures
        lookup(group_claims(m, gs), id) == Some(
            OwnedRespView { owner_id: gs[i].id, resp: gs[i].responsibilities[k] },
        ),
    decreases gs.len(),
{
    let d = gs.drop_last();
    if i == gs.len() - 1 {
        lemma_with_claims_at(group_claims(m, d), gs.last().id, gs.last().responsibilities, id, k);
    } else {
        assert forall|j: int| 0 <= j < d.len() && j != i implies !has_named::<Responsibility>(
            (#[trigger] d[j]).responsibilities,
            id,
        ) by {
            assert(!has_named::<Responsibility>(gs[j].responsibilities, id));
        }
        lemma_group_claims_at(m, d, id, i, k);
        assert(!has_named::<Responsibility>(gs[gs.len() - 1].responsibilities, id));
        lemma_with_claims_none(group_claims(m, d), gs.last().id, gs.last().responsibilities, id);
    }
}

pub proof fn lemma_first_node(ns: Seq<NodeView>, id: Seq<char>)
    ensures
        0 <= node_with_claim(ns, id) <= ns.len(),
        node_with_claim(ns, id) < ns.len() <==> nodes_claim(ns, id),
        node_claim(ns, id) is Some <==> nodes_claim(ns, id),
        nodes_claim(ns, id) ==> ({
            let n = ns[node_with_claim(ns, id)];
            &&& has_named::<Responsibility>(n.responsibilities, id)
            &&& node_claim(ns, id) == Some(
                (n.id, first::<Responsibility>(n.responsibilities, id)->0),
            )
        }),
    decreases ns.len(),
{
    if ns.len() > 0 {
        lemma_place_of::<Responsibility>(ns[0].responsibilities, id);
        if !has_named::<Responsibility>(ns[0].responsibilities, id) {
            let t = ns.drop_first();
            lemma_first_node(t, id);
            if nodes_claim(ns, id) {
                let i = choose|i: int|
                    0 <= i < ns.len() && has_named::<Responsibility>(
                        (#[trigger] ns[i]).responsibilities,
                        id,
                    );
                assert(t[i - 1] == ns[i]);
            }
            if nodes_claim(t, id) {
                assert(t[node_with_claim(t, id)] == ns[node_with_claim(ns, id)]);
            }
        }
    }
}

pub proof fn lemma_first_group(gs: Seq<GroupView>, id: Seq<char>)
    ensures
        0 <= group_with_claim(gs, id) <= gs.len(),
        group_with_claim(gs, id) < gs.len() <==> groups_claim(gs, id),
        group_claim(gs, id) is Some <==> groups_claim(gs, id),
        groups_claim(gs, id) ==> ({
            let g = gs[group_with_claim(gs, id)];
            &&& has_named::<Responsibility>(g.responsibilities, id)
            &&& group_claim(gs, id) == Some(
                (g.id, first::<Responsibility>(g.responsibilities, id)->0),
            )
        }),
    decreases gs.len(),
{
    if gs.len() > 0 {
        lemma_place_of::<Responsibility>(gs[0].responsibilities, id);
        if !has_named::<Responsibility>(gs[0].responsibilities, id) {
            let t = gs.drop_first();
            lemma_first_group(t, id);
            if groups_claim(gs, id) {
                let i = choose|i: int|
                    0 <= i < gs.len() && has_named::<Responsibility>(
                        (#[trigger] gs[i]).responsibilities,
                        id,
                    );
                assert(t[i - 1] == gs[i]);
            }
            if groups_claim(t, id) {
                assert(t[group_with_claim(t, id)] == gs[group_with_claim(gs, id)]);
            }
        }
    }
}

pub proof fn lemma_stripped(m: ScryModelView, id: Seq<char>)
    ensures
        !nodes_claim(nodes_without_claim(m.nodes, id), id),
        !groups_claim(groups_without_claim(m.groups, id), id),
{
    let ns = nodes_without_claim(m.nodes, id);
    let gs = groups_without_claim(m.groups, id);
    assert forall|i: int| 0 <= i < ns.len() implies !has_named::<Responsibility>(
        (#[trigger] ns[i]).responsibilities,
        id,
    ) by {
        lemma_others_has::<Responsibility>(m.nodes[i].responsibilities, id, id);
    }
    assert forall|i: int| 0 <= i < gs.len() implies !has_named::<Responsibility>(
        (#[trigger] gs[i]).responsibilities,
        id,
    ) by {
        lemma_others_has::<Responsibility>(m.groups[i].responsibilities, id, id);
    }
}

pub proof fn lemma_pushed_once(rs: Seq<ResponsibilityView>, r: ResponsibilityView, id: Seq<char>)
    requires
        !has_named::<Responsibility>(rs, id),
        r.id == id,
    ensures
        once(rs.push(r), id),
        rs.push(r)[rs.len() as int] == r,
{
    let t = rs.push(r);
    assert forall|i: int, j: int|
        0 <= i < t.len() && 0 <= j < t.len() && (#[trigger] t[i]).id == id && (
        #[trigger] t[j]).id == id implies i == j by {
        if i < rs.len() {
            assert(Responsibility::name_of(rs[i]) == id);
        }
        if j < rs.len() {
            assert(Responsibility::name_of(rs[j]) == id);
        }
    }
}

proof fn lemma_adopted_once(rs: Seq<ResponsibilityView>, id: Seq<char>)
    requires
        has_named::<Responsibility>(rs, id),
        once(rs, id),
    ensures
        once(adopted(rs, id), id),
        ({
            let k = place_of::<Responsibility>(rs, id);
            &&& 0 <= k < rs.len()
            &&& adopted(rs, id).len() == rs.len()
            &&& adopted(rs, id)[k] == clean(first::<Responsibility>(rs, id)->0)
            &&& adopted(rs, id)[k].id == id
        }),
{
    lemma_place_of::<Responsibility>(rs, id);
    let t = adopted(rs, id);
    assert forall|i: int, j: int|
        0 <= i < t.len() && 0 <= j < t.len() && (#[trigger] t[i]).id == id && (
        #[trigger] t[j]).id == id implies i == j by {
        assert(rs[i].id == id && rs[j].id == id);
    }
}

/// The plan clears: once a claim that the plan makes at most once has folded, no
/// entry of the plan concerns the claim any more.
pub proof fn law_a_folded_claim_is_not_pending(m: ScryModelView, p: ScryModelView, id: Seq<char>)
    requires
        claimed_once(p, id),
        fold(m, p, ElementKind::Responsibility, None, id, Seq::empty()) is Ok,
    ensures
        ({
            let f = fold(m, p, ElementKind::Responsibility, None, id, Seq::empty())->Ok_0;
            cleared(diff_of(f.committed, f.planned), ElementKind::Responsibility, id)
        }),
{
    let f = fold(m, p, ElementKind::Responsibility, None, id, Seq::empty())->Ok_0;
    let l = claim_fold(m, p, id)->Ok_0;
    let ns = nodes_without_claim(m.nodes, id);
    let gs = groups_without_claim(m.groups, id);
    assert(f.planned.nodes == l.planned.nodes && f.planned.groups == l.planned.groups);
    lemma_stripped(m, id);
    lemma_first_node(p.nodes, id);
    lemma_first_group(p.groups, id);
    match claim_of(p, id) {
        Some((host, r)) => {
            let i = place_of::<Node>(ns, host);
            let j = place_of::<Group>(gs, host);
            lemma_place_of::<Node>(ns, host);
            lemma_place_of::<Group>(gs, host);
            let u = node_with_claim(p.nodes, id);
            let v = group_with_claim(p.groups, id);
            let a = claim_adopted(p, id);
            if nodes_claim(p.nodes, id) {
                let rs = p.nodes[u].responsibilities;
                let k = place_of::<Responsibility>(rs, id);
                lemma_adopted_once(rs, id);
                lemma_node_claims_at(a.nodes, id, u, k);
                lemma_group_claims_none(node_claims(a.nodes), a.groups, id);
            } else {
                let rs = p.groups[v].responsibilities;
                let k = place_of::<Responsibility>(rs, id);
                lemma_adopted_once(rs, id);
                lemma_group_claims_at(node_claims(a.nodes), a.groups, id, v, k);
            }
            let there = OwnedRespView { owner_id: host, resp: clean(r) };
            assert(lookup(claim_index(f.planned), id) == Some(there));
            let c = f.committed;
            if i < ns.len() {
                let rs = ns[i].responsibilities;
                assert(!has_named::<Responsibility>(rs, id));
                lemma_pushed_once(rs, clean(r), id);
                lemma_node_claims_at(c.nodes, id, i, rs.len() as int);
                lemma_group_claims_none(node_claims(c.nodes), c.groups, id);
            } else {
                let rs = gs[j].responsibilities;
                assert(!has_named::<Responsibility>(rs, id));
                lemma_pushed_once(rs, clean(r), id);
                lemma_group_claims_at(node_claims(c.nodes), c.groups, id, j, rs.len() as int);
            }
            assert(lookup(claim_index(c), id) == Some(there));
            assert(resp_changes(there, there).len() == 0);
        },
        None => {
            lemma_stripped(p, id);
            lemma_node_claims_none(f.committed.nodes, id);
            lemma_group_claims_none(node_claims(f.committed.nodes), f.committed.groups, id);
            lemma_node_claims_none(f.planned.nodes, id);
            lemma_group_claims_none(node_claims(f.planned.nodes), f.planned.groups, id);
        },
    }
    lemma_claim_cleared(f.committed, f.planned, id);
}

pub proof fn lemma_group_index_names(gs: Seq<GroupView>, k: Seq<char>)
    ensures
        group_index(gs).contains_key(k) <==> has_named::<Group>(gs, k),
    decreases gs.len(),
{
    if gs.len() > 0 {
        let d = gs.drop_last();
        lemma_group_index_names(d, k);
        if has_named::<Group>(d, k) {
            let i = choose|i: int| 0 <= i < d.len() && Group::name_of(#[trigger] d[i]) == k;
            assert(Group::name_of(gs[i]) == k);
        }
        if has_named::<Group>(gs, k) && gs.last().id != k {
            let i = choose|i: int| 0 <= i < gs.len() && Group::name_of(#[trigger] gs[i]) == k;
            assert(Group::name_of(d[i]) == k);
        }
        assert(Group::name_of(gs[gs.len() - 1]) == gs.last().id);
    }
}

pub proof fn lemma_group_index_at(gs: Seq<GroupView>, i: int)
    requires
        names_differ::<Group>(gs),
        0 <= i < gs.len(),
    ensures
        lookup(group_index(gs), gs[i].id) == Some(gs[i]),
    decreases gs.len(),
{
    let d = gs.drop_last();
    if i < gs.len() - 1 {
        assert forall|a: int, b: int|
            0 <= a < d.len() && 0 <= b < d.len() && a != b implies Group::name_of(#[trigger] d[a])
            != Group::name_of(#[trigger] d[b]) by {
            assert(Group::name_of(gs[a]) != Group::name_of(gs[b]));
        }
        lemma_group_index_at(d, i);
        assert(Group::name_of(gs[i]) != Group::name_of(gs[gs.len() - 1]));
    }
}

/// The plan clears: once a group has folded, added, changed or deleted, no entry
/// of the plan concerns the group itself any more.
pub proof fn law_a_folded_group_is_not_pending(
    m: ScryModelView,
    p: ScryModelView,
    id: Seq<char>,
    withhold: Seq<Seq<char>>,
)
    requires
        names_differ::<Group>(p.groups),
        fold(m, p, ElementKind::Group, None, id, withhold) is Ok,
    ensures
        ({
            let f = fold(m, p, ElementKind::Group, None, id, withhold)->Ok_0;
            cleared(diff_of(f.committed, f.planned), ElementKind::Group, id)
        }),
{
    let f = fold(m, p, ElementKind::Group, None, id, withhold)->Ok_0;
    let l = group_fold(m, p, id, withhold)->Ok_0;
    assert(f.planned.groups == l.planned.groups);
    lemma_place_of::<Group>(p.groups, id);
    match first::<Group>(p.groups, id) {
        Some(g) => {
            let i = place_of::<Group>(p.groups, id);
            let gate = group_gate(p, id, withhold);
            let copy = gate.group_copy(g, first::<Group>(m.groups, id));
            let o = others::<Group>(m.groups, id);
            assert(f.committed.groups.drop_last() =~= o);
            assert(f.committed.groups.last() == copy);
            assert(lookup(group_index(f.committed.groups), id) == Some(copy));
            let t = f.planned.groups;
            assert forall|a: int, b: int|
                0 <= a < t.len() && 0 <= b < t.len() && a != b implies Group::name_of(
                #[trigger] t[a],
            ) != Group::name_of(#[trigger] t[b]) by {
                assert(Group::name_of(p.groups[a]) != Group::name_of(p.groups[b]));
            }
            lemma_group_index_at(t, i);
            lemma_without_self(g.member_ids, g.member_ids);
            assert(group_changes(copy, t[i]).len() == 0);
        },
        None => {
            lemma_others_has::<Group>(m.groups, id, id);
            lemma_group_index_names(f.committed.groups, id);
            lemma_others_has::<Group>(p.groups, id, id);
            lemma_group_index_names(f.planned.groups, id);
        },
    }
    lemma_group_cleared(f.committed, f.planned, id);
}

// ---- properties -------------------------------------------------------------------

/// Does no entry of the plan concern the property `id` of the node `owner`?
pub open spec fn property_cleared(
    d: Seq<ElementChangeView>,
    owner: Seq<char>,
    id: Seq<char>,
) -> bool {
    forall|i: int|
        0 <= i < d.len() ==> !((#[trigger] d[i]).kind == ElementKind::Property && d[i].id == id
            && d[i].owner_id == Some(owner))
}

/// Does every property of the map stand under its label, with its host?
pub open spec fn owned_by(m: Map<Seq<char>, OwnedPropView>, owner: Seq<char>) -> bool {
    forall|k: Seq<char>| #[trigger] m.contains_key(k) ==> m[k].owner_id == owner
}

proof fn lemma_with_props_owned(
    m: Map<Seq<char>, OwnedPropView>,
    owner: Seq<char>,
    ps: Seq<SchemaPropertyView>,
)
    requires
        owned_by(m, owner),
    ensures
        owned_by(with_props(m, owner, ps), owner),
    decreases ps.len(),
{
    if ps.len() > 0 {
        lemma_with_props_owned(m, owner, ps.drop_last());
    }
}

pub proof fn lemma_with_props(owner: Seq<char>, ps: Seq<SchemaPropertyView>, id: Seq<char>)
    ensures
        ({
            let m = with_props(Map::empty(), owner, ps);
            &&& !has_named::<SchemaProperty>(ps, id) ==> lookup(m, id) is None
            &&& forall|i: int|
                0 <= i < ps.len() && names_differ::<SchemaProperty>(ps) && (
                #[trigger] ps[i]).label == id ==> lookup(m, id) == Some(
                    OwnedPropView { owner_id: owner, prop: ps[i] },
                )
        }),
    decreases ps.len(),
{
    if ps.len() > 0 {
        let d = ps.drop_last();
        lemma_with_props(owner, d, id);
        assert(SchemaProperty::name_of(ps[ps.len() - 1]) == ps.last().label);
        if has_named::<SchemaProperty>(d, id) {
            let i = choose|i: int|
                0 <= i < d.len() && SchemaProperty::name_of(#[trigger] d[i]) == id;
            assert(SchemaProperty::name_of(ps[i]) == id);
        }
        if names_differ::<SchemaProperty>(ps) {
            assert forall|a: int, b: int|
                0 <= a < d.len() && 0 <= b < d.len() && a != b implies SchemaProperty::name_of(
                #[trigger] d[a],
            ) != SchemaProperty::name_of(#[trigger] d[b]) by {
                assert(SchemaProperty::name_of(ps[a]) != SchemaProperty::name_of(ps[b]));
            }
            let m = with_props(Map::empty(), owner, ps);
            assert forall|i: int|
                0 <= i < ps.len() && (#[trigger] ps[i]).label == id implies lookup(m, id) == Some(
                OwnedPropView { owner_id: owner, prop: ps[i] },
            ) by {
                if i < d.len() {
                    assert(d[i].label == id);
                    assert(SchemaProperty::name_of(ps[i]) != SchemaProperty::name_of(
                        ps[ps.len() - 1],
                    ));
                }
            }
        }
    }
}

pub proof fn lemma_prop_index_owned(ns: Seq<NodeView>, k: Seq<char>)
    ensures
        owned_by(inner(prop_index(ns), k), k),
        !has_named::<Node>(ns, k) ==> inner(prop_index(ns), k) == Map::<
            Seq<char>,
            OwnedPropView,
        >::empty(),
    decreases ns.len(),
{
    if ns.len() > 0 {
        let d = ns.drop_last();
        lemma_prop_index_owned(d, k);
        assert(Node::name_of(ns[ns.len() - 1]) == ns.last().id);
        if has_named::<Node>(d, k) {
            let i = choose|i: int| 0 <= i < d.len() && Node::name_of(#[trigger] d[i]) == k;
            assert(Node::name_of(ns[i]) == k);
        }
        if ns.last().id == k {
            lemma_with_props_owned(inner(prop_index(d), k), k, ns.last().properties);
        }
    }
}

pub proof fn lemma_prop_index_at(ns: Seq<NodeView>, i: int)
    requires
        names_differ::<Node>(ns),
        0 <= i < ns.len(),
    ensures
        inner(prop_index(ns), ns[i].id) == with_props(Map::empty(), ns[i].id, ns[i].properties),
    decreases ns.len(),
{
    let d = ns.drop_last();
    if i < ns.len() - 1 {
        assert forall|a: int, b: int|
            0 <= a < d.len() && 0 <= b < d.len() && a != b implies Node::name_of(#[trigger] d[a])
            != Node::name_of(#[trigger] d[b]) by {
            assert(Node::name_of(ns[a]) != Node::name_of(ns[b]));
        }
        lemma_prop_index_at(d, i);
        assert(Node::name_of(ns[i]) != Node::name_of(ns[ns.len() - 1]));
    } else {
        if has_named::<Node>(d, ns[i].id) {
            let j = choose|j: int| 0 <= j < d.len() && Node::name_of(#[trigger] d[j]) == ns[i].id;
            assert(Node::name_of(ns[j]) != Node::name_of(ns[i]));
        }
        lemma_prop_index_owned(d, ns[i].id);
    }
}

proof fn lemma_collected_property(
    s: Seq<Option<ElementChangeView>>,
    owner: Seq<char>,
    id: Seq<char>,
)
    requires
        forall|i: int|
            0 <= i < s.len() && (#[trigger] s[i]) is Some ==> s[i]->0.id != id || s[i]->0.owner_id
                != Some(owner),
    ensures
        property_cleared(collected(s), owner, id),
    decreases s.len(),
{
    if s.len() > 0 {
        let d = s.drop_last();
        assert forall|i: int| 0 <= i < d.len() && (#[trigger] d[i]) is Some implies d[i]->0.id != id
            || d[i]->0.owner_id != Some(owner) by {
            assert(s[i] is Some);
        }
        lemma_collected_property(d, owner, id);
        assert(s[s.len() - 1] == s.last());
    }
}

proof fn lemma_flattened_property(
    s: Seq<Seq<ElementChangeView>>,
    owner: Seq<char>,
    id: Seq<char>,
)
    requires
        forall|i: int| 0 <= i < s.len() ==> property_cleared(#[trigger] s[i], owner, id),
    ensures
        property_cleared(flattened(s), owner, id),
    decreases s.len(),
{
    if s.len() > 0 {
        let d = s.drop_last();
        assert forall|i: int| 0 <= i < d.len() implies property_cleared(
            #[trigger] d[i],
            owner,
            id,
        ) by {
            assert(d[i] == s[i]);
        }
        lemma_flattened_property(d, owner, id);
        assert(property_cleared(s[s.len() - 1], owner, id));
    }
}

proof fn lemma_host_cleared(
    f: Map<Seq<char>, OwnedPropView>,
    t: Map<Seq<char>, OwnedPropView>,
    host: Seq<char>,
    owner: Seq<char>,
    id: Seq<char>,
)
    requires
        owned_by(f, host),
        owned_by(t, host),
        host == owner ==> OwnedProp::change_of(id, lookup(f, id), lookup(t, id)) is None,
    ensures
        property_cleared(kept_or_new::<OwnedProp>(f, t), owner, id),
        property_cleared(gone::<OwnedProp>(f, t), owner, id),
{
    let tk = ascending(t.dom());
    let a = Seq::new(
        tk.len(),
        |i: int| OwnedProp::change_of(tk[i], lookup(f, tk[i]), lookup(t, tk[i])),
    );
    lemma_collected_property(a, owner, id);
    let fk = ascending(f.dom());
    let b = Seq::new(
        fk.len(),
        |i: int|
            if t.contains_key(fk[i]) {
                None
            } else {
                OwnedProp::change_of(fk[i], lookup(f, fk[i]), None)
            },
    );
    assert forall|i: int| 0 <= i < b.len() && (#[trigger] b[i]) is Some implies b[i]->0.id != id
        || b[i]->0.owner_id != Some(owner) by {
        if fk[i] == id {
            assert(lookup(t, id) is None);
        }
    }
    lemma_collected_property(b, owner, id);
}

pub proof fn lemma_property_cleared(
    f: ScryModelView,
    t: ScryModelView,
    owner: Seq<char>,
    id: Seq<char>,
)
    requires
        OwnedProp::change_of(
            id,
            lookup(inner(prop_index(f.nodes), owner), id),
            lookup(inner(prop_index(t.nodes), owner), id),
        ) is None,
    ensures
        property_cleared(diff_of(f, t), owner, id),
{
    let kind = ElementKind::Property;
    lemma_other_kind::<Node>(node_index(f.nodes), node_index(t.nodes), kind, id);
    lemma_other_kind::<Link>(link_index(f.links), link_index(t.links), kind, id);
    lemma_other_kind::<OwnedResp>(claim_index(f), claim_index(t), kind, id);
    lemma_other_kind::<Group>(group_index(f.groups), group_index(t.groups), kind, id);
    let fm = prop_index(f.nodes);
    let tm = prop_index(t.nodes);
    let tk = ascending(tm.dom());
    let fk = ascending(fm.dom());
    let a = Seq::new(
        tk.len(),
        |i: int| kept_or_new::<OwnedProp>(inner(fm, tk[i]), inner(tm, tk[i])),
    );
    let b = Seq::new(fk.len(), |i: int| gone::<OwnedProp>(inner(fm, fk[i]), inner(tm, fk[i])));
    assert forall|i: int| 0 <= i < a.len() implies property_cleared(
        #[trigger] a[i],
        owner,
        id,
    ) by {
        lemma_prop_index_owned(f.nodes, tk[i]);
        lemma_prop_index_owned(t.nodes, tk[i]);
        lemma_host_cleared(inner(fm, tk[i]), inner(tm, tk[i]), tk[i], owner, id);
    }
    assert forall|i: int| 0 <= i < b.len() implies property_cleared(
        #[trigger] b[i],
        owner,
        id,
    ) by {
        lemma_prop_index_owned(f.nodes, fk[i]);
        lemma_prop_index_owned(t.nodes, fk[i]);
        lemma_host_cleared(inner(fm, fk[i]), inner(tm, fk[i]), fk[i], owner, id);
    }
    lemma_flattened_property(a, owner, id);
    lemma_flattened_property(b, owner, id);
}

/// The plan clears: once a property of a node has folded, no entry of the plan
/// concerns that property any more.
pub proof fn law_a_folded_property_is_not_pending(
    m: ScryModelView,
    p: ScryModelView,
    owner: Seq<char>,
    id: Seq<char>,
)
    requires
        names_differ::<Node>(m.nodes),
        names_differ::<Node>(p.nodes),
        forall|i: int|
            0 <= i < p.nodes.len() ==> names_differ::<SchemaProperty>(
                (#[trigger] p.nodes[i]).properties,
            ),
        fold(m, p, ElementKind::Property, Some(owner), id, Seq::empty()) is Ok,
    ensures
        ({
            let f = fold(m, p, ElementKind::Property, Some(owner), id, Seq::empty())->Ok_0;
            property_cleared(diff_of(f.committed, f.planned), owner, id)
        }),
{
    let f = fold(m, p, ElementKind::Property, Some(owner), id, Seq::empty())->Ok_0;
    let l = prop_fold(m, p, Some(owner), id)->Ok_0;
    assert(f.planned.nodes == l.planned.nodes);
    let i = place_of::<Node>(m.nodes, owner);
    let k = place_of::<Node>(p.nodes, owner);
    lemma_place_of::<Node>(m.nodes, owner);
    lemma_place_of::<Node>(p.nodes, owner);
    let c = f.committed.nodes;
    let t = f.planned.nodes;
    assert forall|a: int, b: int|
        0 <= a < c.len() && 0 <= b < c.len() && a != b implies Node::name_of(#[trigger] c[a])
        != Node::name_of(#[trigger] c[b]) by {
        assert(Node::name_of(m.nodes[a]) != Node::name_of(m.nodes[b]));
    }
    lemma_prop_index_at(c, i);
    let bare = others::<SchemaProperty>(m.nodes[i].properties, id);
    lemma_others_has::<SchemaProperty>(m.nodes[i].properties, id, id);
    lemma_with_props(owner, c[i].properties, id);
    if k < p.nodes.len() {
        assert forall|a: int, b: int|
            0 <= a < t.len() && 0 <= b < t.len() && a != b implies Node::name_of(#[trigger] t[a])
            != Node::name_of(#[trigger] t[b]) by {
            assert(Node::name_of(p.nodes[a]) != Node::name_of(p.nodes[b]));
        }
        lemma_prop_index_at(t, k);
        let ps = p.nodes[k].properties;
        let q = place_of::<SchemaProperty>(ps, id);
        lemma_place_of::<SchemaProperty>(ps, id);
        let u = t[k].properties;
        lemma_with_props(owner, u, id);
        if q < ps.len() {
            assert forall|a: int, b: int|
                0 <= a < u.len() && 0 <= b < u.len() && a != b implies SchemaProperty::name_of(
                #[trigger] u[a],
            ) != SchemaProperty::name_of(#[trigger] u[b]) by {
                assert(SchemaProperty::name_of(ps[a]) != SchemaProperty::name_of(ps[b]));
            }
            assert(u[q].label == id);
            assert(c[i].properties.drop_last() =~= bare);
            assert(c[i].properties.last() == u[q]);
        }
    } else {
        lemma_prop_index_owned(t, owner);
    }
    lemma_property_cleared(f.committed, f.planned, owner, id);
}

} // verus!
