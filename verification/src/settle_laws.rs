//! What a fold leaves in the plan, when it rewrites it, and what is said of a fold that is
//! refused.

use crate::commit::{
    dependents_among, dependents_in, element_fold, first_absent, fold, group_with_claim,
    node_with_claim, plan_after_scaffold, ready_groups, ready_links, removed_ids, scaffold,
    scaffolded, swept, Sweep,
};
use crate::commit_laws::{
    adopted_claim, goes_with, group_among, is_first_claim, is_first_group, is_first_group_claim,
    is_first_node, lemma_first_group, lemma_first_node, lemma_group_among, lemma_group_claim_found,
    lemma_no_node_claim, lemma_node_among, lemma_node_claim_found, lemma_not_there,
    lemma_same_filter, node_among, only_gone,
};
use crate::changes::ChangeMetaView;
use crate::diff::{diff_of, ElementChangeView, ElementKind};
use crate::ledger_laws::{is_done, is_pending, law_what_a_clean_up_keeps};
use crate::drift::subtree;
use crate::model::{
    claim_of, Group, GroupView, Link, Node, NodeView, Responsibility, ResponsibilityView,
    SchemaProperty, SchemaPropertyView, ScryModelView,
};
use crate::named::{first, has_named, lemma_place_is, lemma_place_of, others, place_of, Named};
use crate::scaffold_laws::lemma_none_gone;
use vstd::prelude::*;

verus! {

// ---- the plan's side of a fold ----------------------------------------------------------

proof fn lemma_has_claim(rs: Seq<ResponsibilityView>, id: Seq<char>)
    ensures
        has_named::<Responsibility>(rs, id) <==> exists|j: int|
            0 <= j < rs.len() && (#[trigger] rs[j]).id == id,
{
    if has_named::<Responsibility>(rs, id) {
        let j = choose|j: int| 0 <= j < rs.len() && Responsibility::name_of(#[trigger] rs[j]) == id;
        assert(rs[j].id == id);
    }
    if exists|j: int| 0 <= j < rs.len() && (#[trigger] rs[j]).id == id {
        let j = choose|j: int| 0 <= j < rs.len() && (#[trigger] rs[j]).id == id;
        assert(Responsibility::name_of(rs[j]) == id);
    }
}

proof fn lemma_with_claim(ns: Seq<NodeView>, i: int, id: Seq<char>)
    requires
        0 <= i <= ns.len(),
        forall|h: int, j: int|
            #![trigger ns[h].responsibilities[j]]
            0 <= h < i && 0 <= j < ns[h].responsibilities.len() ==> ns[h].responsibilities[j].id
                != id,
        i < ns.len() ==> has_named::<Responsibility>(ns[i].responsibilities, id),
    ensures
        node_with_claim(ns, id) == i,
    decreases ns.len(),
{
    if i > 0 {
        lemma_has_claim(ns[0].responsibilities, id);
        let t = ns.drop_first();
        assert forall|h: int, j: int|
            #![trigger t[h].responsibilities[j]]
            0 <= h < i - 1 && 0 <= j < t[h].responsibilities.len() implies t[h].responsibilities[j].id
            != id by {
            assert(t[h] == ns[h + 1]);
            assert(ns[h + 1].responsibilities[j].id != id);
        }
        if i < ns.len() {
            assert(t[i - 1] == ns[i]);
        }
        assert(!has_named::<Responsibility>(ns[0].responsibilities, id));
        lemma_with_claim(t, i - 1, id);
    }
}

proof fn lemma_group_with_claim(gs: Seq<GroupView>, i: int, id: Seq<char>)
    requires
        0 <= i <= gs.len(),
        forall|h: int, j: int|
            #![trigger gs[h].responsibilities[j]]
            0 <= h < i && 0 <= j < gs[h].responsibilities.len() ==> gs[h].responsibilities[j].id
                != id,
        i < gs.len() ==> has_named::<Responsibility>(gs[i].responsibilities, id),
    ensures
        group_with_claim(gs, id) == i,
    decreases gs.len(),
{
    if i > 0 {
        lemma_has_claim(gs[0].responsibilities, id);
        let t = gs.drop_first();
        assert forall|h: int, j: int|
            #![trigger t[h].responsibilities[j]]
            0 <= h < i - 1 && 0 <= j < t[h].responsibilities.len() implies t[h].responsibilities[j].id
            != id by {
            assert(t[h] == gs[h + 1]);
            assert(gs[h + 1].responsibilities[j].id != id);
        }
        if i < gs.len() {
            assert(t[i - 1] == gs[i]);
        }
        assert(!has_named::<Responsibility>(gs[0].responsibilities, id));
        lemma_group_with_claim(t, i - 1, id);
    }
}

proof fn lemma_claim_place(rs: Seq<ResponsibilityView>, k: int)
    requires
        0 <= k < rs.len(),
        forall|j: int| 0 <= j < k ==> (#[trigger] rs[j]).id != rs[k].id,
    ensures
        place_of::<Responsibility>(rs, rs[k].id) == k,
        has_named::<Responsibility>(rs, rs[k].id),
{
    assert forall|j: int| 0 <= j < k implies Responsibility::name_of(#[trigger] rs[j]) != rs[k].id by {
        assert(rs[j].id != rs[k].id);
    }
    assert(Responsibility::name_of(rs[k]) == rs[k].id);
    lemma_place_is::<Responsibility>(rs, rs[k].id, k);
}

/// A folded claim of a planned node stays where the plan has it, settled; nothing else of what
/// the plan says changes.
pub proof fn law_a_folded_claim_settles_in_the_plan(
    m: ScryModelView,
    p: ScryModelView,
    i: int,
    k: int,
)
    requires
        is_first_claim(p.nodes, i, k),
        fold(
            m,
            p,
            ElementKind::Responsibility,
            None,
            p.nodes[i].responsibilities[k].id,
            Seq::empty(),
        ) is Ok,
    ensures
        ({
            let r = p.nodes[i].responsibilities[k];
            let q = fold(m, p, ElementKind::Responsibility, None, r.id, Seq::empty())->Ok_0.planned;
            &&& q.nodes == p.nodes.update(
                i,
                NodeView {
                    responsibilities: p.nodes[i].responsibilities.update(k, adopted_claim(r)),
                    ..p.nodes[i]
                },
            )
            &&& q.groups == p.groups && q.links == p.links && q.boundaries == p.boundaries
        }),
{
    let r = p.nodes[i].responsibilities[k];
    lemma_claim_place(p.nodes[i].responsibilities, k);
    lemma_with_claim(p.nodes, i, r.id);
    lemma_claim_is(p, i, k);
}

proof fn lemma_claim_is(p: ScryModelView, i: int, k: int)
    requires
        is_first_claim(p.nodes, i, k),
    ensures
        claim_of(p, p.nodes[i].responsibilities[k].id) is Some,
{
    lemma_node_claim_found(p.nodes, i, k);
}

/// The same holds of a folded claim of a planned group.
pub proof fn law_a_folded_group_claim_settles_in_the_plan(
    m: ScryModelView,
    p: ScryModelView,
    i: int,
    k: int,
)
    requires
        is_first_group_claim(p.groups, i, k),
        forall|h: int, j: int|
            #![trigger p.nodes[h].responsibilities[j]]
            0 <= h < p.nodes.len() && 0 <= j < p.nodes[h].responsibilities.len()
                ==> p.nodes[h].responsibilities[j].id != p.groups[i].responsibilities[k].id,
        fold(
            m,
            p,
            ElementKind::Responsibility,
            None,
            p.groups[i].responsibilities[k].id,
            Seq::empty(),
        ) is Ok,
    ensures
        ({
            let r = p.groups[i].responsibilities[k];
            let q = fold(m, p, ElementKind::Responsibility, None, r.id, Seq::empty())->Ok_0.planned;
            &&& q.groups == p.groups.update(
                i,
                GroupView {
                    responsibilities: p.groups[i].responsibilities.update(k, adopted_claim(r)),
                    ..p.groups[i]
                },
            )
            &&& q.nodes == p.nodes && q.links == p.links && q.boundaries == p.boundaries
        }),
{
    let r = p.groups[i].responsibilities[k];
    lemma_claim_place(p.groups[i].responsibilities, k);
    lemma_with_claim(p.nodes, p.nodes.len() as int, r.id);
    lemma_group_with_claim(p.groups, i, r.id);
    lemma_no_node_claim(p.nodes, r.id);
    lemma_group_claim_found(p.groups, i, k);
}

/// A folded property stays where the plan has it, without its marks; nothing else of what the
/// plan says changes.
pub proof fn law_a_folded_property_settles_in_the_plan(
    m: ScryModelView,
    p: ScryModelView,
    i: int,
    k: int,
)
    requires
        is_first_node(p.nodes, i),
        0 <= k < p.nodes[i].properties.len(),
        forall|j: int|
            0 <= j < k ==> (#[trigger] p.nodes[i].properties[j]).label
                != p.nodes[i].properties[k].label,
        node_among(m.nodes, p.nodes[i].id),
    ensures
        ({
            let x = p.nodes[i].properties[k];
            let f = fold(m, p, ElementKind::Property, Some(p.nodes[i].id), x.label, Seq::empty());
            &&& f is Ok
            &&& f->Ok_0.planned.nodes == p.nodes.update(
                i,
                NodeView {
                    properties: p.nodes[i].properties.update(
                        k,
                        SchemaPropertyView { vagrant: None, stale: None, ..x },
                    ),
                    ..p.nodes[i]
                },
            )
            &&& f->Ok_0.planned.groups == p.groups && f->Ok_0.planned.links == p.links
            &&& f->Ok_0.planned.source_map == p.source_map && f->Ok_0.planned.test_map
                == p.test_map && f->Ok_0.planned.boundaries == p.boundaries
        }),
{
    let ps = p.nodes[i].properties;
    let x = ps[k];
    lemma_first_node(p.nodes, i);
    assert forall|j: int| 0 <= j < k implies SchemaProperty::name_of(#[trigger] ps[j]) != x.label by {
        assert(ps[j].label != x.label);
    }
    assert(SchemaProperty::name_of(ps[k]) == x.label);
    lemma_place_is::<SchemaProperty>(ps, x.label, k);
    lemma_place_of::<Node>(m.nodes, p.nodes[i].id);
    let j = choose|j: int| 0 <= j < m.nodes.len() && (#[trigger] m.nodes[j]).id == p.nodes[i].id;
    assert(Node::name_of(m.nodes[j]) == p.nodes[i].id);
}

// ---- when the plan is rewritten ---------------------------------------------------------

/// A fold says that it rewrites the plan where it changes it; and of an element that the plan
/// drops, always, but for a property.
pub proof fn law_when_a_fold_rewrites_the_plan(
    m: ScryModelView,
    p: ScryModelView,
    kind: ElementKind,
    owner: Option<Seq<char>>,
    id: Seq<char>,
    withhold: Seq<Seq<char>>,
)
    requires
        fold(m, p, kind, owner, id, withhold) is Ok,
    ensures
        ({
            let f = fold(m, p, kind, owner, id, withhold)->Ok_0;
            let drops = match kind {
                ElementKind::Node => first::<Node>(p.nodes, id) is None,
                ElementKind::Link => first::<Link>(p.links, id) is None,
                ElementKind::Group => first::<Group>(p.groups, id) is None,
                ElementKind::Responsibility => claim_of(p, id) is None,
                ElementKind::Property => false,
            };
            f.rewrites <==> drops || f.planned != p
        }),
{
}

/// A dropped node leaves the nodes, links and groups of the plan as they are; of the plan's
/// boundaries those of the nodes that go with it are gone.
pub proof fn law_what_a_dropped_node_leaves_in_the_plan(
    m: ScryModelView,
    p: ScryModelView,
    id: Seq<char>,
)
    requires
        !node_among(p.nodes, id),
    ensures
        ({
            let q = fold(m, p, ElementKind::Node, None, id, Seq::empty())->Ok_0.planned;
            &&& q.nodes == p.nodes && q.links == p.links && q.groups == p.groups
            &&& q.source_map == p.source_map && q.test_map == p.test_map
            &&& only_gone(p.boundaries, q.boundaries, |k: Seq<char>| goes_with(m, p, id, k))
        }),
{
    lemma_place_of::<Node>(p.nodes, id);
    if has_named::<Node>(p.nodes, id) {
        let j = choose|j: int| 0 <= j < p.nodes.len() && Node::name_of(#[trigger] p.nodes[j]) == id;
        assert(p.nodes[j].id == id);
    }
    lemma_none_gone(p.nodes, id);
    let q = fold(m, p, ElementKind::Node, None, id, Seq::empty())->Ok_0.planned;
    let gone = removed_ids(m, p, id);
    assert(q.boundaries == p.boundaries.remove_keys(gone.to_set()));
    let goes = |k: Seq<char>| goes_with(m, p, id, k);
    assert forall|k: Seq<char>| #[trigger] q.boundaries.contains_key(k) <==> p.boundaries.contains_key(
        k,
    ) && !goes(k) && q.boundaries[k] == p.boundaries[k] by {
        lemma_not_there(subtree(m.nodes, id), p.nodes, k);
        assert(gone.to_set().contains(k) == gone.contains(k));
    }
}

// ---- what is said of a refusal ----------------------------------------------------------

/// A node whose parent is not committed is refused, and told with its parent.
pub proof fn law_what_a_refused_node_is_told(
    m: ScryModelView,
    p: ScryModelView,
    i: int,
    withhold: Seq<Seq<char>>,
)
    requires
        is_first_node(p.nodes, i),
        fold(m, p, ElementKind::Node, None, p.nodes[i].id, withhold) is Err,
    ensures
        ({
            let n = p.nodes[i];
            &&& n.parent_id is Some
            &&& fold(m, p, ElementKind::Node, None, n.id, withhold)->Err_0 == "cannot commit node '"@
                + n.id + "': its parent '"@ + n.parent_id->0
                + "' is not in the committed model yet (commit the parent first)"@
        }),
{
    lemma_first_node(p.nodes, i);
}

/// A link is refused for the first of its ends that is not committed: its source before its
/// target.
pub proof fn law_what_a_refused_link_is_told(m: ScryModelView, p: ScryModelView, id: Seq<char>)
    requires
        fold(m, p, ElementKind::Link, None, id, Seq::empty()) is Err,
    ensures
        first::<Link>(p.links, id) is Some,
        ({
            let l = first::<Link>(p.links, id)->0;
            let missing = if !node_among(m.nodes, l.src) {
                l.src
            } else {
                l.dst
            };
            &&& !node_among(m.nodes, missing)
            &&& fold(m, p, ElementKind::Link, None, id, Seq::empty())->Err_0
                == "cannot commit link '"@ + id + "': its endpoint '"@ + missing
                + "' is not in the committed model yet (commit the node first)"@
        }),
{
    let l = first::<Link>(p.links, id)->0;
    lemma_node_among(m.nodes, l.src);
    lemma_node_among(m.nodes, l.dst);
}

/// A claim whose host is not committed is refused, and told with its host; a property without
/// an owner, or with one that is not committed, too.
pub proof fn law_what_a_refused_claim_or_property_is_told(
    m: ScryModelView,
    p: ScryModelView,
    owner: Option<Seq<char>>,
    id: Seq<char>,
)
    ensures
        ({
            let f = fold(m, p, ElementKind::Responsibility, None, id, Seq::empty());
            f is Err ==> claim_of(p, id) is Some && f->Err_0 == "cannot commit responsibility '"@
                + id + "': its host '"@ + (claim_of(p, id)->0).0
                + "' is not in the committed model yet (commit the host node/group first)"@
        }),
        ({
            let f = fold(m, p, ElementKind::Property, owner, id, Seq::empty());
            f is Err ==> f->Err_0 == match owner {
                None => "committing a property requires its owner node id"@,
                Some(o) => "cannot commit property '"@ + id + "': owner node '"@ + o
                    + "' not in the model"@,
            }
        }),
{
}

proof fn lemma_first_absent(ms: Seq<Seq<char>>, ns: Seq<NodeView>) -> (k: int)
    ensures
        first_absent(ms, ns) is Some ==> 0 <= k < ms.len() && first_absent(ms, ns) == Some(ms[k])
            && !node_among(ns, ms[k]) && forall|j: int|
            0 <= j < k ==> node_among(ns, #[trigger] ms[j]),
    decreases ms.len(),
{
    if ms.len() == 0 {
        0
    } else {
        lemma_node_among(ns, ms[0]);
        if !has_named::<Node>(ns, ms[0]) {
            0
        } else {
            let t = ms.drop_first();
            let k = lemma_first_absent(t, ns);
            if first_absent(ms, ns) is Some {
                assert(t[k] == ms[k + 1]);
                assert forall|j: int| 0 <= j < k + 1 implies node_among(ns, #[trigger] ms[j]) by {
                    if j > 0 {
                        assert(t[j - 1] == ms[j]);
                    }
                }
            }
            k + 1
        }
    }
}

proof fn lemma_other_group(gs: Seq<GroupView>, id: Seq<char>, y: Seq<char>)
    ensures
        has_named::<Group>(others::<Group>(gs, id), y) <==> y != id && group_among(gs, y),
    decreases gs.len(),
{
    if gs.len() > 0 {
        let d = gs.drop_last();
        let n = gs.len() - 1;
        let before = others::<Group>(d, id);
        let all = others::<Group>(gs, id);
        lemma_other_group(d, id, y);
        lemma_group_among(d, y);
        lemma_group_among(gs, y);
        assert(gs[n] == gs.last());
        if has_named::<Group>(d, y) {
            let j = choose|j: int| 0 <= j < d.len() && Group::name_of(#[trigger] d[j]) == y;
            assert(Group::name_of(gs[j]) == y);
        }
        if has_named::<Group>(gs, y) {
            let j = choose|j: int| 0 <= j < gs.len() && Group::name_of(#[trigger] gs[j]) == y;
            if j < n {
                assert(Group::name_of(d[j]) == y);
            }
        }
        assert(Group::name_of(gs[n]) == gs.last().id);
        if gs.last().id != id {
            assert(all == before.push(gs.last()));
            assert(all[before.len() as int] == gs.last());
            if has_named::<Group>(before, y) {
                let j = choose|j: int|
                    0 <= j < before.len() && Group::name_of(#[trigger] before[j]) == y;
                assert(Group::name_of(all[j]) == y);
            }
            if gs.last().id == y {
                assert(Group::name_of(all[before.len() as int]) == y);
            }
            if has_named::<Group>(all, y) && gs.last().id != y {
                let j = choose|j: int| 0 <= j < all.len() && Group::name_of(#[trigger] all[j]) == y;
                assert(Group::name_of(before[j]) == y);
            }
        }
    }
}

/// A group is refused for its anchor, then for its parent group, then for the first of its
/// members that is not committed.
pub proof fn law_what_a_refused_group_is_told(
    m: ScryModelView,
    p: ScryModelView,
    i: int,
    withhold: Seq<Seq<char>>,
) -> (k: int)
    requires
        is_first_group(p.groups, i),
        fold(m, p, ElementKind::Group, None, p.groups[i].id, withhold) is Err,
    ensures
        ({
            let g = p.groups[i];
            let e = fold(m, p, ElementKind::Group, None, g.id, withhold)->Err_0;
            let on_anchor = g.parent_node_id is Some && !node_among(m.nodes, g.parent_node_id->0);
            let on_parent = g.parent_group_id is Some && (g.parent_group_id->0 == g.id
                || !group_among(m.groups, g.parent_group_id->0));
            &&& on_anchor ==> e == "cannot commit group '"@ + g.id + "': its anchor node '"@
                + g.parent_node_id->0
                + "' is not in the committed model yet (commit the node first)"@
            &&& !on_anchor && on_parent ==> e == "cannot commit group '"@ + g.id
                + "': its parent group '"@ + g.parent_group_id->0
                + "' is not in the committed model yet (commit that group first)"@
            &&& !on_anchor && !on_parent ==> {
                &&& 0 <= k < g.member_ids.len()
                &&& !node_among(m.nodes, g.member_ids[k])
                &&& forall|j: int| 0 <= j < k ==> node_among(m.nodes, #[trigger] g.member_ids[j])
                &&& e == "cannot commit group '"@ + g.id + "': member '"@ + g.member_ids[k]
                    + "' is not in the committed model yet (commit the member first)"@
            }
        }),
{
    let g = p.groups[i];
    lemma_first_group(p.groups, i);
    if g.parent_node_id is Some {
        lemma_node_among(m.nodes, g.parent_node_id->0);
    }
    if g.parent_group_id is Some {
        let y = g.parent_group_id->0;
        lemma_other_group(m.groups, g.id, y);
    }
    lemma_first_absent(g.member_ids, m.nodes)
}

// ---- what a fold does to the ledger -----------------------------------------------------

/// The plan that a step left, with the ledger that it found.
pub open spec fn before_clean_up(p: ScryModelView, q: ScryModelView) -> ScryModelView {
    ScryModelView { changes: p.changes, change_map: p.change_map, ..q }
}

/// Has the ledger been cleaned up: are the tags of what is pending left as they were filed, and
/// no others; are the changes closed under which something was filed and nothing is pending, and
/// the others left, in order?
pub open spec fn ledger_cleaned(
    p: ScryModelView,
    c: ScryModelView,
    q: ScryModelView,
    closed: Seq<ChangeMetaView>,
) -> bool {
    let r = before_clean_up(p, q);
    &&& forall|k: Seq<char>| #[trigger]
        q.change_map.contains_key(k) <==> p.change_map.contains_key(k) && is_pending(c, r, k)
    &&& forall|k: Seq<char>| #[trigger]
        q.change_map.contains_key(k) ==> q.change_map[k] == p.change_map[k]
    &&& q.changes == p.changes.filter(|m: ChangeMetaView| !is_done(c, r, m.id))
    &&& closed == p.changes.filter(|m: ChangeMetaView| is_done(c, r, m.id))
}

/// A fold cleans up the ledger of the plan behind it, and reports the changes that it closed.
pub proof fn law_a_fold_cleans_up_behind_it(
    m: ScryModelView,
    p: ScryModelView,
    kind: ElementKind,
    owner: Option<Seq<char>>,
    id: Seq<char>,
    withhold: Seq<Seq<char>>,
)
    requires
        fold(m, p, kind, owner, id, withhold) is Ok,
    ensures
        ({
            let f = fold(m, p, kind, owner, id, withhold)->Ok_0;
            ledger_cleaned(p, f.committed, f.planned, f.closed)
        }),
{
    let l = element_fold(m, p, kind, owner, id, withhold)->Ok_0;
    let f = fold(m, p, kind, owner, id, withhold)->Ok_0;
    assert(l.planned.changes == p.changes && l.planned.change_map == p.change_map);
    assert(before_clean_up(p, f.planned) == l.planned);
    law_what_a_clean_up_keeps(l.committed, l.planned);
}

/// Scaffolding cleans up the ledger in the same way, where it commits anything.
pub proof fn law_scaffolding_cleans_up_behind_it(
    m: ScryModelView,
    p: ScryModelView,
    id: Seq<char>,
    include_self: bool,
)
    requires
        scaffold(m, p, id, include_self) is Ok,
    ensures
        ({
            let ids = (scaffold(m, p, id, include_self)->Ok_0).0;
            let f = (scaffold(m, p, id, include_self)->Ok_0).1;
            &&& ids.len() > 0 ==> ledger_cleaned(p, f.committed, f.planned, f.closed)
            &&& ids.len() == 0 ==> f.committed == m && f.planned == p && f.closed.len() == 0
        }),
{
    let ids = (scaffold(m, p, id, include_self)->Ok_0).0;
    let f = (scaffold(m, p, id, include_self)->Ok_0).1;
    if ids.len() > 0 {
        let c = scaffolded(m, p, ids);
        let q = plan_after_scaffold(p, ids);
        assert(before_clean_up(p, f.planned) == q);
        law_what_a_clean_up_keeps(c, q);
    }
}

/// Is no change lost: is each of the changes open still, or among the closed?
pub open spec fn none_lost(
    was: Seq<ChangeMetaView>,
    open: Seq<ChangeMetaView>,
    closed: Seq<ChangeMetaView>,
) -> bool {
    forall|m: ChangeMetaView| #[trigger]
        was.contains(m) <==> open.contains(m) || closed.contains(m)
}

proof fn lemma_parted(s: Seq<ChangeMetaView>, f: spec_fn(ChangeMetaView) -> bool, m: ChangeMetaView)
    ensures
        s.contains(m) <==> s.filter(f).contains(m) || s.filter(
            |x: ChangeMetaView| !f(x),
        ).contains(m),
    decreases s.len(),
{
    reveal(Seq::filter);
    let g = |x: ChangeMetaView| !f(x);
    if s.len() > 0 {
        let d = s.drop_last();
        lemma_parted(d, f, m);
        lemma_meta_joins(d, s.last(), m);
        assert(s =~= d.push(s.last()));
        lemma_meta_joins(d.filter(f), s.last(), m);
        lemma_meta_joins(d.filter(g), s.last(), m);
    }
}

proof fn lemma_meta_joins(s: Seq<ChangeMetaView>, x: ChangeMetaView, m: ChangeMetaView)
    ensures
        s.push(x).contains(m) <==> s.contains(m) || x == m,
{
    let t = s.push(x);
    assert(t[s.len() as int] == x);
    if s.contains(m) {
        let k = choose|k: int| 0 <= k < s.len() && s[k] == m;
        assert(t[k] == m);
    }
    if t.contains(m) && x != m {
        let k = choose|k: int| 0 <= k < t.len() && t[k] == m;
        assert(s[k] == m);
    }
}

proof fn lemma_fold_loses_none(
    m: ScryModelView,
    p: ScryModelView,
    kind: ElementKind,
    id: Seq<char>,
)
    requires
        fold(m, p, kind, None, id, Seq::empty()) is Ok,
    ensures
        ({
            let f = fold(m, p, kind, None, id, Seq::empty())->Ok_0;
            none_lost(p.changes, f.planned.changes, f.closed)
        }),
{
    let f = fold(m, p, kind, None, id, Seq::empty())->Ok_0;
    law_a_fold_cleans_up_behind_it(m, p, kind, None, id, Seq::empty());
    let r = before_clean_up(p, f.planned);
    let done = |x: ChangeMetaView| is_done(f.committed, r, x.id);
    assert forall|x: ChangeMetaView| #[trigger]
        p.changes.contains(x) <==> f.planned.changes.contains(x) || f.closed.contains(x) by {
        lemma_parted(p.changes, done, x);
        lemma_same_filter(
            p.changes,
            |y: ChangeMetaView| !done(y),
            |y: ChangeMetaView| !is_done(f.committed, r, y.id),
        );
    }
}

proof fn lemma_sweep_loses_none(s: Sweep, was: Seq<ChangeMetaView>, kind: ElementKind, ids: Seq<Seq<char>>)
    requires
        none_lost(was, s.planned.changes, s.closed),
    ensures
        ({
            let t = swept(s, kind, ids);
            none_lost(was, t.planned.changes, t.closed)
        }),
    decreases ids.len(),
{
    if ids.len() > 0 {
        lemma_sweep_loses_none(s, was, kind, ids.drop_last());
        let b = swept(s, kind, ids.drop_last());
        let t = swept(s, kind, ids);
        let x = ids.last();
        if b.failed is None && fold(b.committed, b.planned, kind, None, x, Seq::empty()) is Ok {
            let f = fold(b.committed, b.planned, kind, None, x, Seq::empty())->Ok_0;
            lemma_fold_loses_none(b.committed, b.planned, kind, x);
            assert forall|m: ChangeMetaView| #[trigger]
                was.contains(m) <==> t.planned.changes.contains(m) || t.closed.contains(m) by {
                assert(b.planned.changes.contains(m) <==> f.planned.changes.contains(m)
                    || f.closed.contains(m));
                let all = b.closed + f.closed;
                if b.closed.contains(m) {
                    let k = choose|k: int| 0 <= k < b.closed.len() && b.closed[k] == m;
                    assert(all[k] == m);
                }
                if f.closed.contains(m) {
                    let k = choose|k: int| 0 <= k < f.closed.len() && f.closed[k] == m;
                    assert(all[b.closed.len() + k] == m);
                }
                if all.contains(m) {
                    let k = choose|k: int| 0 <= k < all.len() && all[k] == m;
                    if k < b.closed.len() {
                        assert(b.closed[k] == m);
                    } else {
                        assert(f.closed[k - b.closed.len()] == m);
                    }
                }
            }
        }
    }
}

proof fn lemma_sweep_tells(s: Sweep, p: ScryModelView, kind: ElementKind, ids: Seq<Seq<char>>)
    requires
        s.planned == p || s.rewrites,
    ensures
        ({
            let t = swept(s, kind, ids);
            t.planned == p || t.rewrites
        }),
    decreases ids.len(),
{
    if ids.len() > 0 {
        lemma_sweep_tells(s, p, kind, ids.drop_last());
        let b = swept(s, kind, ids.drop_last());
        if b.failed is None && fold(b.committed, b.planned, kind, None, ids.last(), Seq::empty())
            is Ok {
            law_when_a_fold_rewrites_the_plan(
                b.committed,
                b.planned,
                kind,
                None,
                ids.last(),
                Seq::empty(),
            );
        }
    }
}

/// What follows a node loses no change of the plan: each is open still, or reported as closed.
/// And where it does not say that it rewrote the plan, the plan is as it was.
pub proof fn law_what_follows_a_node_is_reported(
    m: ScryModelView,
    p: ScryModelView,
    id: Seq<char>,
    d: Seq<ElementChangeView>,
)
    ensures
        ({
            let s = dependents_among(m, p, id, d);
            &&& none_lost(p.changes, s.planned.changes, s.closed)
            &&& !s.rewrites ==> s.planned == p
        }),
{
    let start = Sweep {
        committed: m,
        planned: p,
        closed: Seq::empty(),
        rewrites: false,
        failed: None,
    };
    assert(none_lost(p.changes, start.planned.changes, start.closed));
    let links = ready_links(m, p, id, d);
    let groups = ready_groups(m, p, id, d);
    lemma_sweep_loses_none(start, p.changes, ElementKind::Link, links);
    lemma_sweep_tells(start, p, ElementKind::Link, links);
    let mid = swept(start, ElementKind::Link, links);
    lemma_sweep_loses_none(mid, p.changes, ElementKind::Group, groups);
    lemma_sweep_tells(mid, p, ElementKind::Group, groups);
}

/// What follows the whole plan is what follows all of its entries.
pub proof fn law_the_whole_plan_may_follow(m: ScryModelView, p: ScryModelView, id: Seq<char>)
    ensures
        dependents_in(m, p, id) == dependents_among(m, p, id, diff_of(m, p)),
{
}

} // verus!
