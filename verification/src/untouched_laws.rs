//! What taking one entry of a plan back leaves alone.

use crate::diff::{
    claim_index, group_claims, group_index, inner, link_index, lookup, node_claims, node_index,
    prop_index, with_claims, with_props, without, ElementChangeView, ElementKind, OwnedPropView,
    OwnedRespView,
};
use crate::ledger::{
    adds, all_reverted, claims_back_on_groups, claims_back_on_nodes, links_away_from, reverted,
};
use crate::model::{
    groups_without_claim, nodes_without_claim, Group, GroupView, Link, LinkView, Node, NodeView,
    Responsibility, ResponsibilityView, SchemaProperty, SchemaPropertyView, ScryModelView,
};
use crate::named::{first, has_named, lemma_place_of, others, place_of};
use crate::plan_laws::said_of;
use vstd::prelude::*;

verus! {

// ---- claims -----------------------------------------------------------------------

/// The claims called `x`, in order.
pub open spec fn called(rs: Seq<ResponsibilityView>, x: Seq<char>) -> Seq<ResponsibilityView>
    decreases rs.len(),
{
    if rs.len() == 0 {
        Seq::empty()
    } else if rs.last().id == x {
        called(rs.drop_last(), x).push(rs.last())
    } else {
        called(rs.drop_last(), x)
    }
}

proof fn lemma_with_claims_called(
    m: Map<Seq<char>, OwnedRespView>,
    owner: Seq<char>,
    rs: Seq<ResponsibilityView>,
    x: Seq<char>,
)
    ensures
        lookup(with_claims(m, owner, rs), x) == if called(rs, x).len() == 0 {
            lookup(m, x)
        } else {
            Some(OwnedRespView { owner_id: owner, resp: called(rs, x).last() })
        },
    decreases rs.len(),
{
    if rs.len() > 0 {
        lemma_with_claims_called(m, owner, rs.drop_last(), x);
    }
}

proof fn lemma_called_others(rs: Seq<ResponsibilityView>, id: Seq<char>, x: Seq<char>)
    requires
        x != id,
    ensures
        called(others::<Responsibility>(rs, id), x) == called(rs, x),
    decreases rs.len(),
{
    if rs.len() > 0 {
        lemma_called_others(rs.drop_last(), id, x);
        let o = others::<Responsibility>(rs, id);
        if rs.last().id != id {
            assert(o.drop_last() =~= others::<Responsibility>(rs.drop_last(), id));
            assert(o.last() == rs.last());
        }
    }
}

proof fn lemma_called_pushed(rs: Seq<ResponsibilityView>, r: ResponsibilityView, x: Seq<char>)
    requires
        r.id != x,
    ensures
        called(rs.push(r), x) == called(rs, x),
{
    assert(rs.push(r).drop_last() =~= rs);
}

/// Do two lists of nodes have the same hosts with the same claims called `x`?
spec fn same_node_hosts(a: Seq<NodeView>, b: Seq<NodeView>, x: Seq<char>) -> bool {
    a.len() == b.len() && forall|i: int|
        0 <= i < a.len() ==> (#[trigger] a[i]).id == b[i].id && called(a[i].responsibilities, x)
            == called(b[i].responsibilities, x)
}

proof fn lemma_same_node_claims(a: Seq<NodeView>, b: Seq<NodeView>, x: Seq<char>)
    requires
        same_node_hosts(a, b, x),
    ensures
        lookup(node_claims(a), x) == lookup(node_claims(b), x),
    decreases a.len(),
{
    if a.len() > 0 {
        let n = a.len() - 1;
        assert forall|i: int| 0 <= i < n implies (#[trigger] a.drop_last()[i]).id
            == b.drop_last()[i].id && called(a.drop_last()[i].responsibilities, x) == called(
            b.drop_last()[i].responsibilities,
            x,
        ) by {
            assert(a[i].id == b[i].id);
        }
        lemma_same_node_claims(a.drop_last(), b.drop_last(), x);
        assert(a[n].id == b[n].id);
        lemma_with_claims_called(
            node_claims(a.drop_last()),
            a.last().id,
            a.last().responsibilities,
            x,
        );
        lemma_with_claims_called(
            node_claims(b.drop_last()),
            b.last().id,
            b.last().responsibilities,
            x,
        );
    }
}

/// Do two lists of groups have the same hosts with the same claims called `x`?
spec fn same_group_hosts(a: Seq<GroupView>, b: Seq<GroupView>, x: Seq<char>) -> bool {
    a.len() == b.len() && forall|i: int|
        0 <= i < a.len() ==> (#[trigger] a[i]).id == b[i].id && called(a[i].responsibilities, x)
            == called(b[i].responsibilities, x)
}

proof fn lemma_same_group_claims(
    m: Map<Seq<char>, OwnedRespView>,
    k: Map<Seq<char>, OwnedRespView>,
    a: Seq<GroupView>,
    b: Seq<GroupView>,
    x: Seq<char>,
)
    requires
        lookup(m, x) == lookup(k, x),
        same_group_hosts(a, b, x),
    ensures
        lookup(group_claims(m, a), x) == lookup(group_claims(k, b), x),
    decreases a.len(),
{
    if a.len() > 0 {
        let n = a.len() - 1;
        assert forall|i: int| 0 <= i < n implies (#[trigger] a.drop_last()[i]).id
            == b.drop_last()[i].id && called(a.drop_last()[i].responsibilities, x) == called(
            b.drop_last()[i].responsibilities,
            x,
        ) by {
            assert(a[i].id == b[i].id);
        }
        lemma_same_group_claims(m, k, a.drop_last(), b.drop_last(), x);
        assert(a[n].id == b[n].id);
        lemma_with_claims_called(
            group_claims(m, a.drop_last()),
            a.last().id,
            a.last().responsibilities,
            x,
        );
        lemma_with_claims_called(
            group_claims(k, b.drop_last()),
            b.last().id,
            b.last().responsibilities,
            x,
        );
    }
}

/// Has no node called `k` a claim called `x`?
pub open spec fn no_claim_on_node(ns: Seq<NodeView>, k: Seq<char>, x: Seq<char>) -> bool {
    forall|i: int|
        0 <= i < ns.len() && (#[trigger] ns[i]).id == k ==> called(
            ns[i].responsibilities,
            x,
        ).len() == 0
}

/// Has no group called `k` a claim called `x`?
pub open spec fn no_claim_on_group(gs: Seq<GroupView>, k: Seq<char>, x: Seq<char>) -> bool {
    forall|i: int|
        0 <= i < gs.len() && (#[trigger] gs[i]).id == k ==> called(
            gs[i].responsibilities,
            x,
        ).len() == 0
}

proof fn lemma_claims_of_other_nodes(ns: Seq<NodeView>, k: Seq<char>, x: Seq<char>)
    requires
        no_claim_on_node(ns, k, x),
    ensures
        lookup(node_claims(others::<Node>(ns, k)), x) == lookup(node_claims(ns), x),
    decreases ns.len(),
{
    if ns.len() > 0 {
        let d = ns.drop_last();
        assert forall|i: int| 0 <= i < d.len() && (#[trigger] d[i]).id == k implies called(
            d[i].responsibilities,
            x,
        ).len() == 0 by {
            assert(ns[i].id == k);
        }
        lemma_claims_of_other_nodes(d, k, x);
        let l = ns.last();
        assert(ns[ns.len() - 1] == l);
        lemma_with_claims_called(node_claims(d), l.id, l.responsibilities, x);
        if l.id != k {
            let o = others::<Node>(ns, k);
            assert(o.drop_last() =~= others::<Node>(d, k));
            assert(o.last() == l);
            lemma_with_claims_called(
                node_claims(others::<Node>(d, k)),
                l.id,
                l.responsibilities,
                x,
            );
        }
    }
}

proof fn lemma_claims_of_other_groups(
    m: Map<Seq<char>, OwnedRespView>,
    gs: Seq<GroupView>,
    k: Seq<char>,
    x: Seq<char>,
)
    requires
        no_claim_on_group(gs, k, x),
    ensures
        lookup(group_claims(m, others::<Group>(gs, k)), x) == lookup(group_claims(m, gs), x),
    decreases gs.len(),
{
    if gs.len() > 0 {
        let d = gs.drop_last();
        assert forall|i: int| 0 <= i < d.len() && (#[trigger] d[i]).id == k implies called(
            d[i].responsibilities,
            x,
        ).len() == 0 by {
            assert(gs[i].id == k);
        }
        lemma_claims_of_other_groups(m, d, k, x);
        let l = gs.last();
        assert(gs[gs.len() - 1] == l);
        lemma_with_claims_called(group_claims(m, d), l.id, l.responsibilities, x);
        if l.id != k {
            let o = others::<Group>(gs, k);
            assert(o.drop_last() =~= others::<Group>(d, k));
            assert(o.last() == l);
            lemma_with_claims_called(
                group_claims(m, others::<Group>(d, k)),
                l.id,
                l.responsibilities,
                x,
            );
        }
    }
}

proof fn lemma_hosts_back_on_nodes(
    ns: Seq<NodeView>,
    from: Seq<NodeView>,
    id: Seq<char>,
    x: Seq<char>,
)
    requires
        x != id,
    ensures
        same_node_hosts(claims_back_on_nodes(ns, from, id), ns, x),
    decreases from.len(),
{
    if from.len() > 0 {
        lemma_hosts_back_on_nodes(ns, from.drop_last(), id, x);
        let done = claims_back_on_nodes(ns, from.drop_last(), id);
        lemma_place_of::<Responsibility>(from.last().responsibilities, id);
        match first::<Responsibility>(from.last().responsibilities, id) {
            Some(r) => {
                lemma_place_of::<Node>(done, from.last().id);
                let i = place_of::<Node>(done, from.last().id);
                if i < done.len() {
                    lemma_called_pushed(done[i].responsibilities, r, x);
                    let all = claims_back_on_nodes(ns, from, id);
                    assert forall|j: int| 0 <= j < all.len() implies (#[trigger] all[j]).id
                        == ns[j].id && called(all[j].responsibilities, x) == called(
                        ns[j].responsibilities,
                        x,
                    ) by {
                        assert(done[j].id == ns[j].id);
                    }
                }
            },
            None => {},
        }
    }
}

proof fn lemma_hosts_back_on_groups(
    gs: Seq<GroupView>,
    from: Seq<GroupView>,
    id: Seq<char>,
    x: Seq<char>,
)
    requires
        x != id,
    ensures
        same_group_hosts(claims_back_on_groups(gs, from, id), gs, x),
    decreases from.len(),
{
    if from.len() > 0 {
        lemma_hosts_back_on_groups(gs, from.drop_last(), id, x);
        let done = claims_back_on_groups(gs, from.drop_last(), id);
        lemma_place_of::<Responsibility>(from.last().responsibilities, id);
        match first::<Responsibility>(from.last().responsibilities, id) {
            Some(r) => {
                lemma_place_of::<Group>(done, from.last().id);
                let i = place_of::<Group>(done, from.last().id);
                if i < done.len() {
                    lemma_called_pushed(done[i].responsibilities, r, x);
                    let all = claims_back_on_groups(gs, from, id);
                    assert forall|j: int| 0 <= j < all.len() implies (#[trigger] all[j]).id
                        == gs[j].id && called(all[j].responsibilities, x) == called(
                        gs[j].responsibilities,
                        x,
                    ) by {
                        assert(done[j].id == gs[j].id);
                    }
                }
            },
            None => {},
        }
    }
}

// ---- nodes, links and groups ------------------------------------------------------

/// A node without what hangs on it.
pub open spec fn node_core(n: NodeView) -> NodeView {
    NodeView { responsibilities: Seq::empty(), properties: Seq::empty(), ..n }
}

/// A group without its claims.
pub open spec fn group_core(g: GroupView) -> GroupView {
    GroupView { responsibilities: Seq::empty(), ..g }
}

spec fn core_at(m: Map<Seq<char>, NodeView>, id: Seq<char>) -> Option<NodeView> {
    match lookup(m, id) {
        Some(n) => Some(node_core(n)),
        None => None,
    }
}

spec fn group_core_at(m: Map<Seq<char>, GroupView>, id: Seq<char>) -> Option<GroupView> {
    match lookup(m, id) {
        Some(g) => Some(group_core(g)),
        None => None,
    }
}

/// Do two lists of nodes agree, in their order, on the nodes called `id` but for what
/// hangs on them?
spec fn same_cores(a: Seq<NodeView>, b: Seq<NodeView>, id: Seq<char>) -> bool {
    a.len() == b.len() && forall|i: int|
        0 <= i < a.len() ==> (#[trigger] a[i]).id == b[i].id && (a[i].id == id ==> node_core(a[i])
            == node_core(b[i]))
}

proof fn lemma_same_cores(a: Seq<NodeView>, b: Seq<NodeView>, id: Seq<char>)
    requires
        same_cores(a, b, id),
    ensures
        core_at(node_index(a), id) == core_at(node_index(b), id),
    decreases a.len(),
{
    if a.len() > 0 {
        assert forall|i: int| 0 <= i < a.len() - 1 implies (#[trigger] a.drop_last()[i]).id
            == b.drop_last()[i].id && (a.drop_last()[i].id == id ==> node_core(a.drop_last()[i])
            == node_core(b.drop_last()[i])) by {
            assert(a[i].id == b[i].id);
        }
        lemma_same_cores(a.drop_last(), b.drop_last(), id);
        assert(a[a.len() - 1].id == b[b.len() - 1].id);
    }
}

spec fn same_group_cores(a: Seq<GroupView>, b: Seq<GroupView>, id: Seq<char>) -> bool {
    a.len() == b.len() && forall|i: int|
        0 <= i < a.len() ==> (#[trigger] a[i]).id == b[i].id && (a[i].id == id ==> group_core(a[i])
            == group_core(b[i]))
}

proof fn lemma_same_group_cores(a: Seq<GroupView>, b: Seq<GroupView>, id: Seq<char>)
    requires
        same_group_cores(a, b, id),
    ensures
        group_core_at(group_index(a), id) == group_core_at(group_index(b), id),
    decreases a.len(),
{
    if a.len() > 0 {
        assert forall|i: int| 0 <= i < a.len() - 1 implies (#[trigger] a.drop_last()[i]).id
            == b.drop_last()[i].id && (a.drop_last()[i].id == id ==> group_core(a.drop_last()[i])
            == group_core(b.drop_last()[i])) by {
            assert(a[i].id == b[i].id);
        }
        lemma_same_group_cores(a.drop_last(), b.drop_last(), id);
        assert(a[a.len() - 1].id == b[b.len() - 1].id);
    }
}

proof fn lemma_node_among_others(ns: Seq<NodeView>, k: Seq<char>, id: Seq<char>)
    requires
        id != k,
    ensures
        lookup(node_index(others::<Node>(ns, k)), id) == lookup(node_index(ns), id),
    decreases ns.len(),
{
    if ns.len() > 0 {
        lemma_node_among_others(ns.drop_last(), k, id);
        if ns.last().id != k {
            let o = others::<Node>(ns, k);
            assert(o.drop_last() =~= others::<Node>(ns.drop_last(), k));
            assert(o.last() == ns.last());
        }
    }
}

proof fn lemma_group_among_others(gs: Seq<GroupView>, k: Seq<char>, id: Seq<char>)
    requires
        id != k,
    ensures
        lookup(group_index(others::<Group>(gs, k)), id) == lookup(group_index(gs), id),
    decreases gs.len(),
{
    if gs.len() > 0 {
        lemma_group_among_others(gs.drop_last(), k, id);
        if gs.last().id != k {
            let o = others::<Group>(gs, k);
            assert(o.drop_last() =~= others::<Group>(gs.drop_last(), k));
            assert(o.last() == gs.last());
        }
    }
}

proof fn lemma_link_among_others(ls: Seq<LinkView>, k: Seq<char>, id: Seq<char>)
    requires
        id != k,
    ensures
        lookup(link_index(others::<Link>(ls, k)), id) == lookup(link_index(ls), id),
    decreases ls.len(),
{
    if ls.len() > 0 {
        lemma_link_among_others(ls.drop_last(), k, id);
        if ls.last().id != k {
            let o = others::<Link>(ls, k);
            assert(o.drop_last() =~= others::<Link>(ls.drop_last(), k));
            assert(o.last() == ls.last());
        }
    }
}

/// Does no link called `id` touch the node `k`?
pub open spec fn link_away(ls: Seq<LinkView>, id: Seq<char>, k: Seq<char>) -> bool {
    forall|i: int|
        0 <= i < ls.len() && (#[trigger] ls[i]).id == id ==> ls[i].src != k && ls[i].dst != k
}

proof fn lemma_link_away(ls: Seq<LinkView>, id: Seq<char>, k: Seq<char>)
    requires
        link_away(ls, id, k),
    ensures
        lookup(link_index(links_away_from(ls, k)), id) == lookup(link_index(ls), id),
    decreases ls.len(),
{
    if ls.len() > 0 {
        let d = ls.drop_last();
        assert forall|i: int| 0 <= i < d.len() && (#[trigger] d[i]).id == id implies d[i].src != k
            && d[i].dst != k by {
            assert(ls[i].id == id);
        }
        lemma_link_away(d, id, k);
        let l = ls.last();
        assert(ls[ls.len() - 1] == l);
        if l.src != k && l.dst != k {
            let o = links_away_from(ls, k);
            assert(o.drop_last() =~= links_away_from(d, k));
            assert(o.last() == l);
        }
    }
}

/// Has no group called `id` the node `k` for a member?
pub open spec fn not_a_member(gs: Seq<GroupView>, id: Seq<char>, k: Seq<char>) -> bool {
    forall|i: int|
        0 <= i < gs.len() && (#[trigger] gs[i]).id == id ==> !gs[i].member_ids.contains(k)
}

proof fn lemma_without_absent(s: Seq<Seq<char>>, k: Seq<char>)
    requires
        !s.contains(k),
    ensures
        without(s, seq![k]) == s,
    decreases s.len(),
{
    if s.len() > 0 {
        let d = s.drop_last();
        if d.contains(k) {
            let i = choose|i: int| 0 <= i < d.len() && d[i] == k;
            assert(s[i] == k);
        }
        lemma_without_absent(d, k);
        assert(s[s.len() - 1] == s.last());
        if seq![k].contains(s.last()) {
            let i = choose|i: int| 0 <= i < seq![k].len() && seq![k][i] == s.last();
            assert(s.contains(s[s.len() - 1]));
        }
        assert(d.push(s.last()) =~= s);
    } else {
        assert(without(s, seq![k]) =~= s);
    }
}

// ---- properties -------------------------------------------------------------------

/// The properties labelled `l`, in order.
pub open spec fn labelled(ps: Seq<SchemaPropertyView>, l: Seq<char>) -> Seq<SchemaPropertyView>
    decreases ps.len(),
{
    if ps.len() == 0 {
        Seq::empty()
    } else if ps.last().label == l {
        labelled(ps.drop_last(), l).push(ps.last())
    } else {
        labelled(ps.drop_last(), l)
    }
}

proof fn lemma_with_props_labelled(
    m: Map<Seq<char>, OwnedPropView>,
    owner: Seq<char>,
    ps: Seq<SchemaPropertyView>,
    l: Seq<char>,
)
    ensures
        lookup(with_props(m, owner, ps), l) == if labelled(ps, l).len() == 0 {
            lookup(m, l)
        } else {
            Some(OwnedPropView { owner_id: owner, prop: labelled(ps, l).last() })
        },
    decreases ps.len(),
{
    if ps.len() > 0 {
        lemma_with_props_labelled(m, owner, ps.drop_last(), l);
    }
}

proof fn lemma_labelled_others(ps: Seq<SchemaPropertyView>, id: Seq<char>, l: Seq<char>)
    requires
        l != id,
    ensures
        labelled(others::<SchemaProperty>(ps, id), l) == labelled(ps, l),
    decreases ps.len(),
{
    if ps.len() > 0 {
        lemma_labelled_others(ps.drop_last(), id, l);
        let o = others::<SchemaProperty>(ps, id);
        if ps.last().label != id {
            assert(o.drop_last() =~= others::<SchemaProperty>(ps.drop_last(), id));
            assert(o.last() == ps.last());
        }
    }
}

/// Do two lists of nodes agree, in their order, on the properties `l` of the nodes called
/// `o`?
spec fn same_labels(a: Seq<NodeView>, b: Seq<NodeView>, o: Seq<char>, l: Seq<char>) -> bool {
    a.len() == b.len() && forall|i: int|
        0 <= i < a.len() ==> (#[trigger] a[i]).id == b[i].id && (a[i].id == o ==> labelled(
            a[i].properties,
            l,
        ) == labelled(b[i].properties, l))
}

proof fn lemma_same_props(a: Seq<NodeView>, b: Seq<NodeView>, o: Seq<char>, l: Seq<char>)
    requires
        same_labels(a, b, o, l),
    ensures
        lookup(inner(prop_index(a), o), l) == lookup(inner(prop_index(b), o), l),
    decreases a.len(),
{
    if a.len() > 0 {
        assert forall|i: int| 0 <= i < a.len() - 1 implies (#[trigger] a.drop_last()[i]).id
            == b.drop_last()[i].id && (a.drop_last()[i].id == o ==> labelled(
            a.drop_last()[i].properties,
            l,
        ) == labelled(b.drop_last()[i].properties, l)) by {
            assert(a[i].id == b[i].id);
        }
        lemma_same_props(a.drop_last(), b.drop_last(), o, l);
        assert(a[a.len() - 1].id == b[b.len() - 1].id);
        if a.last().id == o {
            lemma_with_props_labelled(
                inner(prop_index(a.drop_last()), o),
                o,
                a.last().properties,
                l,
            );
            lemma_with_props_labelled(
                inner(prop_index(b.drop_last()), o),
                o,
                b.last().properties,
                l,
            );
        }
    }
}

proof fn lemma_props_among_others(ns: Seq<NodeView>, k: Seq<char>, o: Seq<char>)
    requires
        o != k,
    ensures
        inner(prop_index(others::<Node>(ns, k)), o) == inner(prop_index(ns), o),
    decreases ns.len(),
{
    if ns.len() > 0 {
        lemma_props_among_others(ns.drop_last(), k, o);
        if ns.last().id != k {
            let x = others::<Node>(ns, k);
            assert(x.drop_last() =~= others::<Node>(ns.drop_last(), k));
            assert(x.last() == ns.last());
        }
    }
}

// ---- taking one entry back ----------------------------------------------------------

/// Does an element stand clear of an entry that is taken back? It is another element, and
/// it does not hang on what goes with the entry's: no link of a node that goes, no member
/// of one, no claim or property on a node or group that goes or comes back whole.
pub open spec fn stands_clear(
    c: ScryModelView,
    p: ScryModelView,
    ch: ElementChangeView,
    kind: ElementKind,
    owner: Option<Seq<char>>,
    id: Seq<char>,
) -> bool {
    match ch.kind {
        ElementKind::Node => match kind {
            ElementKind::Node => id != ch.id,
            ElementKind::Link => adds(ch) ==> link_away(p.links, id, ch.id),
            ElementKind::Group => adds(ch) ==> not_a_member(p.groups, id, ch.id),
            ElementKind::Responsibility => if adds(ch) {
                no_claim_on_node(p.nodes, ch.id, id)
            } else {
                has_named::<Node>(p.nodes, ch.id) || no_claim_on_node(c.nodes, ch.id, id)
            },
            ElementKind::Property => owner != Some(ch.id) || (!adds(ch) && has_named::<Node>(
                p.nodes,
                ch.id,
            )),
        },
        ElementKind::Group => match kind {
            ElementKind::Group => id != ch.id,
            ElementKind::Responsibility => if adds(ch) {
                no_claim_on_group(p.groups, ch.id, id)
            } else {
                has_named::<Group>(p.groups, ch.id) || no_claim_on_group(c.groups, ch.id, id)
            },
            _ => true,
        },
        ElementKind::Link => kind == ElementKind::Link ==> id != ch.id,
        ElementKind::Responsibility => kind == ElementKind::Responsibility ==> id != ch.id,
        ElementKind::Property => kind == ElementKind::Property ==> id != ch.id || owner
            != ch.owner_id,
    }
}

/// What of the plan the entry on an element is made of.
spec fn same_version(
    p: ScryModelView,
    q: ScryModelView,
    kind: ElementKind,
    owner: Option<Seq<char>>,
    id: Seq<char>,
) -> bool {
    match kind {
        ElementKind::Node => core_at(node_index(p.nodes), id) == core_at(node_index(q.nodes), id),
        ElementKind::Link => lookup(link_index(p.links), id) == lookup(link_index(q.links), id),
        ElementKind::Group => group_core_at(group_index(p.groups), id) == group_core_at(
            group_index(q.groups),
            id,
        ),
        ElementKind::Responsibility => lookup(claim_index(p), id) == lookup(claim_index(q), id),
        ElementKind::Property => owner is Some ==> lookup(inner(prop_index(p.nodes), owner->0), id)
            == lookup(inner(prop_index(q.nodes), owner->0), id),
    }
}

proof fn lemma_same_version(
    c: ScryModelView,
    p: ScryModelView,
    q: ScryModelView,
    kind: ElementKind,
    owner: Option<Seq<char>>,
    id: Seq<char>,
)
    requires
        same_version(p, q, kind, owner, id),
    ensures
        said_of(c, p, kind, owner, id) == said_of(c, q, kind, owner, id),
{
    match kind {
        ElementKind::Node => {
            let x = lookup(node_index(p.nodes), id);
            let y = lookup(node_index(q.nodes), id);
            if x is Some {
                let a = x->0;
                let b = y->0;
                assert(node_core(a) == node_core(b));
                assert(node_core(a).parent_id == a.parent_id && node_core(b).parent_id
                    == b.parent_id);
                assert(node_core(a).name == a.name && node_core(b).name == b.name);
                assert(node_core(a).technology == a.technology && node_core(b).technology
                    == b.technology);
                assert(node_core(a).description == a.description && node_core(b).description
                    == b.description);
                assert(node_core(a).directives == a.directives && node_core(b).directives
                    == b.directives);
                assert(node_core(a).kind == a.kind && node_core(b).kind == b.kind);
                assert(node_core(a).external == a.external && node_core(b).external == b.external);
            }
        },
        ElementKind::Group => {
            let x = lookup(group_index(p.groups), id);
            let y = lookup(group_index(q.groups), id);
            if x is Some {
                let a = x->0;
                let b = y->0;
                assert(group_core(a) == group_core(b));
                assert(group_core(a).name == a.name && group_core(b).name == b.name);
                assert(group_core(a).description == a.description && group_core(b).description
                    == b.description);
                assert(group_core(a).member_ids == a.member_ids && group_core(b).member_ids
                    == b.member_ids);
                assert(group_core(a).parent_group_id == a.parent_group_id && group_core(
                    b,
                ).parent_group_id == b.parent_group_id);
                assert(group_core(a).parent_node_id == a.parent_node_id && group_core(
                    b,
                ).parent_node_id == b.parent_node_id);
            }
        },
        _ => {},
    }
}

proof fn lemma_claim_back(
    c: ScryModelView,
    p: ScryModelView,
    ch: ElementChangeView,
    kind: ElementKind,
    owner: Option<Seq<char>>,
    id: Seq<char>,
)
    requires
        ch.kind == ElementKind::Responsibility,
        stands_clear(c, p, ch, kind, owner, id),
    ensures
        same_version(p, reverted(p, c, ch), kind, owner, id),
{
    let q = reverted(p, c, ch);
    let ns = nodes_without_claim(p.nodes, ch.id);
    let gs = groups_without_claim(p.groups, ch.id);
    lemma_cores_back_on_nodes(ns, c.nodes, ch.id);
    lemma_cores_back_on_groups(gs, c.groups, ch.id);
    assert forall|i: int| 0 <= i < p.nodes.len() implies (#[trigger] p.nodes[i]).id == q.nodes[i].id
        && node_core(p.nodes[i]) == node_core(q.nodes[i]) && p.nodes[i].properties
        == q.nodes[i].properties by {
        assert(ns[i].id == p.nodes[i].id);
        assert(node_core(ns[i]) == node_core(p.nodes[i]));
    }
    assert forall|i: int| 0 <= i < p.groups.len() implies (#[trigger] p.groups[i]).id
        == q.groups[i].id && group_core(p.groups[i]) == group_core(q.groups[i]) by {
        assert(gs[i].id == p.groups[i].id);
        assert(group_core(gs[i]) == group_core(p.groups[i]));
    }
    match kind {
        ElementKind::Node => lemma_same_cores(p.nodes, q.nodes, id),
        ElementKind::Group => lemma_same_group_cores(p.groups, q.groups, id),
        ElementKind::Link => {},
        ElementKind::Property => {
            if owner is Some {
                lemma_same_props(p.nodes, q.nodes, owner->0, id);
            }
        },
        ElementKind::Responsibility => {
            lemma_hosts_back_on_nodes(ns, c.nodes, ch.id, id);
            lemma_hosts_back_on_groups(gs, c.groups, ch.id, id);
            assert forall|i: int| 0 <= i < p.nodes.len() implies (#[trigger] p.nodes[i]).id
                == q.nodes[i].id && called(p.nodes[i].responsibilities, id) == called(
                q.nodes[i].responsibilities,
                id,
            ) by {
                lemma_called_others(p.nodes[i].responsibilities, ch.id, id);
                assert(ns[i].id == p.nodes[i].id);
                assert(q.nodes[i].id == ns[i].id);
            }
            assert forall|i: int| 0 <= i < p.groups.len() implies (#[trigger] p.groups[i]).id
                == q.groups[i].id && called(p.groups[i].responsibilities, id) == called(
                q.groups[i].responsibilities,
                id,
            ) by {
                lemma_called_others(p.groups[i].responsibilities, ch.id, id);
                assert(gs[i].id == p.groups[i].id);
                assert(q.groups[i].id == gs[i].id);
            }
            lemma_same_node_claims(p.nodes, q.nodes, id);
            lemma_same_group_claims(
                node_claims(p.nodes),
                node_claims(q.nodes),
                p.groups,
                q.groups,
                id,
            );
        },
    }
}

proof fn lemma_cores_back_on_nodes(ns: Seq<NodeView>, from: Seq<NodeView>, id: Seq<char>)
    ensures
        claims_back_on_nodes(ns, from, id).len() == ns.len(),
        forall|i: int|
            0 <= i < ns.len() ==> (#[trigger] claims_back_on_nodes(ns, from, id)[i]).id == ns[i].id
                && node_core(claims_back_on_nodes(ns, from, id)[i]) == node_core(ns[i])
                && claims_back_on_nodes(ns, from, id)[i].properties == ns[i].properties,
    decreases from.len(),
{
    if from.len() > 0 {
        lemma_cores_back_on_nodes(ns, from.drop_last(), id);
        let done = claims_back_on_nodes(ns, from.drop_last(), id);
        let all = claims_back_on_nodes(ns, from, id);
        lemma_place_of::<Node>(done, from.last().id);
        assert forall|i: int| 0 <= i < ns.len() implies (#[trigger] all[i]).id == ns[i].id
            && node_core(all[i]) == node_core(ns[i]) && all[i].properties == ns[i].properties by {
            assert(done[i].id == ns[i].id);
            assert(node_core(all[i]) == node_core(done[i]));
        }
    }
}

proof fn lemma_cores_back_on_groups(gs: Seq<GroupView>, from: Seq<GroupView>, id: Seq<char>)
    ensures
        claims_back_on_groups(gs, from, id).len() == gs.len(),
        forall|i: int|
            0 <= i < gs.len() ==> (#[trigger] claims_back_on_groups(gs, from, id)[i]).id == gs[i].id
                && group_core(claims_back_on_groups(gs, from, id)[i]) == group_core(gs[i]),
    decreases from.len(),
{
    if from.len() > 0 {
        lemma_cores_back_on_groups(gs, from.drop_last(), id);
        let done = claims_back_on_groups(gs, from.drop_last(), id);
        let all = claims_back_on_groups(gs, from, id);
        lemma_place_of::<Group>(done, from.last().id);
        assert forall|i: int| 0 <= i < gs.len() implies (#[trigger] all[i]).id == gs[i].id
            && group_core(all[i]) == group_core(gs[i]) by {
            assert(done[i].id == gs[i].id);
            assert(group_core(all[i]) == group_core(done[i]));
        }
    }
}

proof fn lemma_property_back(
    c: ScryModelView,
    p: ScryModelView,
    ch: ElementChangeView,
    kind: ElementKind,
    owner: Option<Seq<char>>,
    id: Seq<char>,
)
    requires
        ch.kind == ElementKind::Property,
        stands_clear(c, p, ch, kind, owner, id),
    ensures
        same_version(p, reverted(p, c, ch), kind, owner, id),
{
    let q = reverted(p, c, ch);
    if ch.owner_id is Some {
        let o = ch.owner_id->0;
        lemma_place_of::<Node>(p.nodes, o);
        let k = place_of::<Node>(p.nodes, o);
        if k < p.nodes.len() {
            let n = p.nodes[k];
            assert(q.groups == p.groups && q.links == p.links);
            assert forall|i: int| 0 <= i < p.nodes.len() implies (#[trigger] p.nodes[i]).id
                == q.nodes[i].id && node_core(p.nodes[i]) == node_core(q.nodes[i])
                && p.nodes[i].responsibilities == q.nodes[i].responsibilities by {}
            match kind {
                ElementKind::Node => lemma_same_cores(p.nodes, q.nodes, id),
                ElementKind::Responsibility => {
                    lemma_same_node_claims(p.nodes, q.nodes, id);
                    lemma_same_group_claims(
                        node_claims(p.nodes),
                        node_claims(q.nodes),
                        p.groups,
                        q.groups,
                        id,
                    );
                },
                ElementKind::Property => {
                    if owner is Some {
                        if id != ch.id {
                            lemma_labelled_others(n.properties, ch.id, id);
                            match first::<Node>(c.nodes, o) {
                                Some(cn) => {
                                    lemma_place_of::<SchemaProperty>(cn.properties, ch.id);
                                    let bare = others::<SchemaProperty>(n.properties, ch.id);
                                    match first::<SchemaProperty>(cn.properties, ch.id) {
                                        Some(was) => {
                                            assert(bare.push(was).drop_last() =~= bare);
                                        },
                                        None => {},
                                    }
                                },
                                None => {},
                            }
                        }
                        assert forall|i: int| 0 <= i < p.nodes.len() implies (
                        #[trigger] p.nodes[i]).id == q.nodes[i].id && (p.nodes[i].id == owner->0
                            ==> labelled(p.nodes[i].properties, id) == labelled(
                            q.nodes[i].properties,
                            id,
                        )) by {}
                        lemma_same_props(p.nodes, q.nodes, owner->0, id);
                    }
                },
                _ => {},
            }
        }
    }
}

proof fn lemma_link_back(
    c: ScryModelView,
    p: ScryModelView,
    ch: ElementChangeView,
    kind: ElementKind,
    owner: Option<Seq<char>>,
    id: Seq<char>,
)
    requires
        ch.kind == ElementKind::Link,
        stands_clear(c, p, ch, kind, owner, id),
    ensures
        same_version(p, reverted(p, c, ch), kind, owner, id),
{
    let q = reverted(p, c, ch);
    assert(q.nodes == p.nodes && q.groups == p.groups);
    if kind == ElementKind::Link {
        lemma_link_among_others(p.links, ch.id, id);
        lemma_place_of::<Link>(c.links, ch.id);
        let bare = others::<Link>(p.links, ch.id);
        if !adds(ch) && first::<Link>(c.links, ch.id) is Some {
            assert(q.links.drop_last() =~= bare);
        }
    }
}

proof fn lemma_group_back(
    c: ScryModelView,
    p: ScryModelView,
    ch: ElementChangeView,
    kind: ElementKind,
    owner: Option<Seq<char>>,
    id: Seq<char>,
)
    requires
        ch.kind == ElementKind::Group,
        stands_clear(c, p, ch, kind, owner, id),
    ensures
        same_version(p, reverted(p, c, ch), kind, owner, id),
{
    let q = reverted(p, c, ch);
    assert(q.nodes == p.nodes && q.links == p.links);
    lemma_place_of::<Group>(p.groups, ch.id);
    lemma_place_of::<Group>(c.groups, ch.id);
    let i = place_of::<Group>(p.groups, ch.id);
    if adds(ch) {
        if kind == ElementKind::Group {
            lemma_group_among_others(p.groups, ch.id, id);
        } else if kind == ElementKind::Responsibility {
            lemma_claims_of_other_groups(node_claims(p.nodes), p.groups, ch.id, id);
        }
    } else if first::<Group>(c.groups, ch.id) is Some {
        let cg = first::<Group>(c.groups, ch.id)->0;
        let j = place_of::<Group>(c.groups, ch.id);
        assert(c.groups[j] == cg);
        if i < p.groups.len() {
            assert forall|k: int| 0 <= k < p.groups.len() implies (#[trigger] p.groups[k]).id
                == q.groups[k].id && p.groups[k].responsibilities == q.groups[k].responsibilities
                && (p.groups[k].id != ch.id ==> p.groups[k] == q.groups[k]) by {}
            if kind == ElementKind::Group {
                lemma_same_group_cores(p.groups, q.groups, id);
            } else if kind == ElementKind::Responsibility {
                lemma_same_group_claims(
                    node_claims(p.nodes),
                    node_claims(q.nodes),
                    p.groups,
                    q.groups,
                    id,
                );
            }
        } else {
            assert(q.groups.drop_last() =~= p.groups);
            assert(q.groups.last() == cg);
            if kind == ElementKind::Responsibility {
                assert(c.groups[j].id == ch.id);
                lemma_with_claims_called(
                    group_claims(node_claims(p.nodes), p.groups),
                    cg.id,
                    cg.responsibilities,
                    id,
                );
            }
        }
    }
}

proof fn lemma_node_back(
    c: ScryModelView,
    p: ScryModelView,
    ch: ElementChangeView,
    kind: ElementKind,
    owner: Option<Seq<char>>,
    id: Seq<char>,
)
    requires
        ch.kind == ElementKind::Node,
        stands_clear(c, p, ch, kind, owner, id),
    ensures
        same_version(p, reverted(p, c, ch), kind, owner, id),
{
    let q = reverted(p, c, ch);
    lemma_place_of::<Node>(p.nodes, ch.id);
    lemma_place_of::<Node>(c.nodes, ch.id);
    let i = place_of::<Node>(p.nodes, ch.id);
    if adds(ch) {
        match kind {
            ElementKind::Node => lemma_node_among_others(p.nodes, ch.id, id),
            ElementKind::Link => lemma_link_away(p.links, id, ch.id),
            ElementKind::Group => {
                assert forall|k: int| 0 <= k < p.groups.len() implies (#[trigger] p.groups[k]).id
                    == q.groups[k].id && (p.groups[k].id == id ==> group_core(p.groups[k])
                    == group_core(q.groups[k])) by {
                    if p.groups[k].id == id {
                        lemma_without_absent(p.groups[k].member_ids, ch.id);
                    }
                }
                lemma_same_group_cores(p.groups, q.groups, id);
            },
            ElementKind::Responsibility => {
                lemma_claims_of_other_nodes(p.nodes, ch.id, id);
                assert forall|k: int| 0 <= k < p.groups.len() implies (#[trigger] p.groups[k]).id
                    == q.groups[k].id && called(p.groups[k].responsibilities, id) == called(
                    q.groups[k].responsibilities,
                    id,
                ) by {}
                lemma_same_group_claims(
                    node_claims(p.nodes),
                    node_claims(q.nodes),
                    p.groups,
                    q.groups,
                    id,
                );
            },
            ElementKind::Property => {
                if owner is Some {
                    lemma_props_among_others(p.nodes, ch.id, owner->0);
                }
            },
        }
    } else if first::<Node>(c.nodes, ch.id) is Some {
        assert(q.links == p.links && q.groups == p.groups);
        let cn = first::<Node>(c.nodes, ch.id)->0;
        let j = place_of::<Node>(c.nodes, ch.id);
        assert(c.nodes[j] == cn);
        if i < p.nodes.len() {
            assert forall|k: int| 0 <= k < p.nodes.len() implies (#[trigger] p.nodes[k]).id
                == q.nodes[k].id && p.nodes[k].responsibilities == q.nodes[k].responsibilities
                && p.nodes[k].properties == q.nodes[k].properties && (p.nodes[k].id != ch.id
                ==> p.nodes[k] == q.nodes[k]) by {}
            match kind {
                ElementKind::Node => lemma_same_cores(p.nodes, q.nodes, id),
                ElementKind::Responsibility => {
                    lemma_same_node_claims(p.nodes, q.nodes, id);
                    lemma_same_group_claims(
                        node_claims(p.nodes),
                        node_claims(q.nodes),
                        p.groups,
                        q.groups,
                        id,
                    );
                },
                ElementKind::Property => {
                    if owner is Some {
                        lemma_same_props(p.nodes, q.nodes, owner->0, id);
                    }
                },
                _ => {},
            }
        } else {
            assert(q.nodes.drop_last() =~= p.nodes);
            assert(q.nodes.last() == cn);
            if kind == ElementKind::Responsibility {
                assert(c.nodes[j].id == ch.id);
                lemma_with_claims_called(node_claims(p.nodes), cn.id, cn.responsibilities, id);
                lemma_same_group_claims(
                    node_claims(p.nodes),
                    node_claims(q.nodes),
                    p.groups,
                    q.groups,
                    id,
                );
            }
        }
    }
}

/// Taking one entry back leaves every other element pending as it was, as long as the
/// element does not hang on what goes with the entry's.
pub proof fn law_taking_one_back_leaves_the_others(
    c: ScryModelView,
    p: ScryModelView,
    ch: ElementChangeView,
    kind: ElementKind,
    owner: Option<Seq<char>>,
    id: Seq<char>,
)
    requires
        stands_clear(c, p, ch, kind, owner, id),
    ensures
        said_of(c, reverted(p, c, ch), kind, owner, id) == said_of(c, p, kind, owner, id),
{
    match ch.kind {
        ElementKind::Node => lemma_node_back(c, p, ch, kind, owner, id),
        ElementKind::Link => lemma_link_back(c, p, ch, kind, owner, id),
        ElementKind::Group => lemma_group_back(c, p, ch, kind, owner, id),
        ElementKind::Responsibility => lemma_claim_back(c, p, ch, kind, owner, id),
        ElementKind::Property => lemma_property_back(c, p, ch, kind, owner, id),
    }
    lemma_same_version(c, p, reverted(p, c, ch), kind, owner, id);
}

/// Abandoning a change leaves every entry of another one pending as it was, as long as its
/// element stands clear of each entry that is dropped when its turn comes.
pub proof fn law_abandoning_leaves_the_others(
    c: ScryModelView,
    p: ScryModelView,
    mine: Seq<ElementChangeView>,
    kind: ElementKind,
    owner: Option<Seq<char>>,
    id: Seq<char>,
)
    requires
        forall|k: int|
            0 <= k < mine.len() ==> stands_clear(
                c,
                all_reverted(p, c, mine.take(k)),
                #[trigger] mine[k],
                kind,
                owner,
                id,
            ),
    ensures
        said_of(c, all_reverted(p, c, mine), kind, owner, id) == said_of(c, p, kind, owner, id),
    decreases mine.len(),
{
    if mine.len() > 0 {
        let d = mine.drop_last();
        assert forall|k: int| 0 <= k < d.len() implies stands_clear(
            c,
            all_reverted(p, c, d.take(k)),
            #[trigger] d[k],
            kind,
            owner,
            id,
        ) by {
            assert(d.take(k) =~= mine.take(k));
            assert(d[k] == mine[k]);
        }
        law_abandoning_leaves_the_others(c, p, d, kind, owner, id);
        let n = mine.len() - 1;
        assert(mine.take(n) =~= d);
        assert(stands_clear(c, all_reverted(p, c, mine.take(n)), mine[n], kind, owner, id));
        law_taking_one_back_leaves_the_others(
            c,
            all_reverted(p, c, d),
            mine.last(),
            kind,
            owner,
            id,
        );
    }
}

} // verus!
