//! What holds of every entry of a plan that is taken back.

use crate::commit::{group_with_claim, node_with_claim};
use crate::diff::{
    claim_index, collected, diff_of, flattened, gone, group_changes, group_claims, group_index,
    inner, kept_or_new, lemma_collected_from, lemma_without_self, link_changes, link_index, lookup,
    node_changes, node_claims, node_index, prop_diff, prop_index, resp_changes, with_claims,
    ChangeView, Compared, ElementChangeView, ElementKind, OwnedProp, OwnedResp, OwnedRespView,
};
use crate::fold_laws::{
    claimed_once, cleared, groups_claim, lemma_claim_cleared, lemma_first_group, lemma_first_node,
    lemma_group_claims_at, lemma_group_claims_none, lemma_group_cleared, lemma_group_index_at,
    lemma_group_index_names, lemma_link_cleared, lemma_link_index_at, lemma_link_index_names,
    lemma_node_claims_at, lemma_node_claims_none, lemma_node_cleared, lemma_node_index_at,
    lemma_node_index_names, lemma_others_has, lemma_prop_index_at, lemma_prop_index_owned,
    lemma_property_cleared, lemma_pushed_once, lemma_stripped, lemma_with_props, names_differ,
    nodes_claim, property_cleared,
};
use crate::ledger::{adds, claims_back_on_groups, claims_back_on_nodes, reverted};
use crate::model::{
    group_claim, groups_without_claim, node_claim, nodes_without_claim, Group, GroupView, Link,
    Node, NodeView, Responsibility, ResponsibilityView, SchemaProperty, ScryModelView,
};
use crate::named::{first, has_named, lemma_place_of, others, place_of, Named};
use crate::text::ascending;
use vstd::prelude::*;

verus! {

// ---- entries ----------------------------------------------------------------------

/// Does an entry say of its element what the two versions make of it? It adds the
/// element exactly where there was none before.
pub open spec fn tells<V>(
    ch: ElementChangeView,
    kind: ElementKind,
    id: Seq<char>,
    before: Option<V>,
) -> bool {
    ch.kind == kind && ch.id == id && (adds(ch) <==> before is None)
}

/// Does the comparison of one kind of element tell what it compared?
pub open spec fn telling<T: Compared>(kind: ElementKind) -> bool {
    forall|k: Seq<char>, a: Option<T::V>, b: Option<T::V>|
        (#[trigger] T::change_of(k, a, b)) is Some ==> tells(T::change_of(k, a, b)->0, kind, k, a)
}

proof fn lemma_added(ch: ElementChangeView)
    requires
        ch.changes == seq![ChangeView::Added],
    ensures
        adds(ch),
{
    assert(ch.changes[0] == ChangeView::Added);
}

pub proof fn lemma_nodes_tell()
    ensures
        telling::<Node>(ElementKind::Node),
{
    assert forall|k: Seq<char>, a: Option<NodeView>, b: Option<NodeView>|
        (#[trigger] Node::change_of(k, a, b)) is Some implies tells(
        Node::change_of(k, a, b)->0,
        ElementKind::Node,
        k,
        a,
    ) by {
        let ch = Node::change_of(k, a, b)->0;
        if a is None {
            lemma_added(ch);
        }
    }
}

pub proof fn lemma_links_tell()
    ensures
        telling::<Link>(ElementKind::Link),
{
    assert forall|k: Seq<char>, a: Option<<Link as DeepView>::V>, b: Option<<Link as DeepView>::V>|
        (#[trigger] Link::change_of(k, a, b)) is Some implies tells(
        Link::change_of(k, a, b)->0,
        ElementKind::Link,
        k,
        a,
    ) by {
        let ch = Link::change_of(k, a, b)->0;
        if a is None {
            lemma_added(ch);
        }
    }
}

pub proof fn lemma_claims_tell()
    ensures
        telling::<OwnedResp>(ElementKind::Responsibility),
{
    assert forall|k: Seq<char>, a: Option<OwnedRespView>, b: Option<OwnedRespView>|
        (#[trigger] OwnedResp::change_of(k, a, b)) is Some implies tells(
        OwnedResp::change_of(k, a, b)->0,
        ElementKind::Responsibility,
        k,
        a,
    ) by {
        let ch = OwnedResp::change_of(k, a, b)->0;
        if a is None {
            lemma_added(ch);
        }
    }
}

pub proof fn lemma_groups_tell()
    ensures
        telling::<Group>(ElementKind::Group),
{
    assert forall|k: Seq<char>, a: Option<GroupView>, b: Option<GroupView>|
        (#[trigger] Group::change_of(k, a, b)) is Some implies tells(
        Group::change_of(k, a, b)->0,
        ElementKind::Group,
        k,
        a,
    ) by {
        let ch = Group::change_of(k, a, b)->0;
        if a is None {
            lemma_added(ch);
        }
    }
}

pub proof fn lemma_props_tell()
    ensures
        telling::<OwnedProp>(ElementKind::Property),
{
    assert forall|
        k: Seq<char>,
        a: Option<<OwnedProp as DeepView>::V>,
        b: Option<<OwnedProp as DeepView>::V>,
    |
        (#[trigger] OwnedProp::change_of(k, a, b)) is Some implies tells(
        OwnedProp::change_of(k, a, b)->0,
        ElementKind::Property,
        k,
        a,
    ) by {
        let ch = OwnedProp::change_of(k, a, b)->0;
        if a is None {
            lemma_added(ch);
        }
    }
}

proof fn lemma_walk_tells<T: Compared>(
    f: Map<Seq<char>, T::V>,
    t: Map<Seq<char>, T::V>,
    kind: ElementKind,
    ch: ElementChangeView,
)
    requires
        telling::<T>(kind),
    ensures
        kept_or_new::<T>(f, t).contains(ch) ==> tells(ch, kind, ch.id, lookup(f, ch.id)),
        gone::<T>(f, t).contains(ch) ==> tells(ch, kind, ch.id, lookup(f, ch.id)),
{
    let tk = ascending(t.dom());
    let a = Seq::new(
        tk.len(),
        |i: int| T::change_of(tk[i], lookup(f, tk[i]), lookup(t, tk[i])),
    );
    if kept_or_new::<T>(f, t).contains(ch) {
        let i = choose|i: int| 0 <= i < collected(a).len() && collected(a)[i] == ch;
        let j = lemma_collected_from(a, i);
        assert(T::change_of(tk[j], lookup(f, tk[j]), lookup(t, tk[j])) == Some(ch));
    }
    let fk = ascending(f.dom());
    let b = Seq::new(
        fk.len(),
        |i: int|
            if t.contains_key(fk[i]) {
                None
            } else {
                T::change_of(fk[i], lookup(f, fk[i]), None)
            },
    );
    if gone::<T>(f, t).contains(ch) {
        let i = choose|i: int| 0 <= i < collected(b).len() && collected(b)[i] == ch;
        let j = lemma_collected_from(b, i);
        assert(T::change_of(fk[j], lookup(f, fk[j]), None) == Some(ch));
    }
}

pub proof fn lemma_flattened_has(s: Seq<Seq<ElementChangeView>>, ch: ElementChangeView) -> (k: int)
    requires
        flattened(s).contains(ch),
    ensures
        0 <= k < s.len(),
        s[k].contains(ch),
    decreases s.len(),
{
    let i = choose|i: int| 0 <= i < flattened(s).len() && flattened(s)[i] == ch;
    let d = flattened(s.drop_last());
    if i < d.len() {
        assert(d[i] == ch);
        lemma_flattened_has(s.drop_last(), ch)
    } else {
        assert(s.last()[i - d.len()] == ch);
        s.len() - 1
    }
}

/// Does an entry on a property say what the two models make of it?
pub open spec fn tells_property(c: ScryModelView, ch: ElementChangeView) -> bool {
    ch.owner_id is Some && tells(
        ch,
        ElementKind::Property,
        ch.id,
        lookup(inner(prop_index(c.nodes), ch.owner_id->0), ch.id),
    )
}

proof fn lemma_host_tells(f: Seq<NodeView>, t: Seq<NodeView>, k: Seq<char>, ch: ElementChangeView)
    ensures
        ({
            let fm = inner(prop_index(f), k);
            let tm = inner(prop_index(t), k);
            (kept_or_new::<OwnedProp>(fm, tm).contains(ch) || gone::<OwnedProp>(fm, tm).contains(
                ch,
            )) ==> ch.owner_id == Some(k) && tells(
                ch,
                ElementKind::Property,
                ch.id,
                lookup(fm, ch.id),
            )
        }),
{
    let fm = inner(prop_index(f), k);
    let tm = inner(prop_index(t), k);
    lemma_props_tell();
    lemma_walk_tells::<OwnedProp>(fm, tm, ElementKind::Property, ch);
    lemma_prop_index_owned(f, k);
    lemma_prop_index_owned(t, k);
    let tk = ascending(tm.dom());
    let a = Seq::new(
        tk.len(),
        |i: int| OwnedProp::change_of(tk[i], lookup(fm, tk[i]), lookup(tm, tk[i])),
    );
    if kept_or_new::<OwnedProp>(fm, tm).contains(ch) {
        let i = choose|i: int| 0 <= i < collected(a).len() && collected(a)[i] == ch;
        let j = lemma_collected_from(a, i);
        assert(OwnedProp::change_of(tk[j], lookup(fm, tk[j]), lookup(tm, tk[j])) == Some(ch));
    }
    let fk = ascending(fm.dom());
    let b = Seq::new(
        fk.len(),
        |i: int|
            if tm.contains_key(fk[i]) {
                None
            } else {
                OwnedProp::change_of(fk[i], lookup(fm, fk[i]), None)
            },
    );
    if gone::<OwnedProp>(fm, tm).contains(ch) {
        let i = choose|i: int| 0 <= i < collected(b).len() && collected(b)[i] == ch;
        let j = lemma_collected_from(b, i);
        assert(OwnedProp::change_of(fk[j], lookup(fm, fk[j]), None) == Some(ch));
    }
}

proof fn lemma_props_told(f: Seq<NodeView>, t: Seq<NodeView>, ch: ElementChangeView)
    ensures
        prop_diff(prop_index(f), prop_index(t)).contains(ch) ==> ch.owner_id is Some && tells(
            ch,
            ElementKind::Property,
            ch.id,
            lookup(inner(prop_index(f), ch.owner_id->0), ch.id),
        ),
{
    let fm = prop_index(f);
    let tm = prop_index(t);
    let tk = ascending(tm.dom());
    let fk = ascending(fm.dom());
    let a = Seq::new(
        tk.len(),
        |i: int| kept_or_new::<OwnedProp>(inner(fm, tk[i]), inner(tm, tk[i])),
    );
    let b = Seq::new(fk.len(), |i: int| gone::<OwnedProp>(inner(fm, fk[i]), inner(tm, fk[i])));
    let d = prop_diff(fm, tm);
    assert(d == flattened(a) + flattened(b));
    if d.contains(ch) {
        let i = choose|i: int| 0 <= i < d.len() && d[i] == ch;
        if i < flattened(a).len() {
            assert(flattened(a)[i] == ch);
            let k = lemma_flattened_has(a, ch);
            lemma_host_tells(f, t, tk[k], ch);
        } else {
            assert(flattened(b)[i - flattened(a).len()] == ch);
            let k = lemma_flattened_has(b, ch);
            lemma_host_tells(f, t, fk[k], ch);
        }
    }
}

/// Every entry of a plan tells what it is about: one that adds its element is about one
/// that committed lacks, and any other about one that committed has.
pub proof fn law_entries_tell(c: ScryModelView, p: ScryModelView, ch: ElementChangeView)
    requires
        diff_of(c, p).contains(ch),
    ensures
        match ch.kind {
            ElementKind::Node => adds(ch) <==> !has_named::<Node>(c.nodes, ch.id),
            ElementKind::Link => adds(ch) <==> !has_named::<Link>(c.links, ch.id),
            ElementKind::Group => adds(ch) <==> !has_named::<Group>(c.groups, ch.id),
            ElementKind::Responsibility => adds(ch) <==> !nodes_claim(c.nodes, ch.id)
                && !groups_claim(c.groups, ch.id),
            ElementKind::Property => tells_property(c, ch),
        },
{
    lemma_nodes_tell();
    lemma_links_tell();
    lemma_claims_tell();
    lemma_groups_tell();
    lemma_walk_tells::<Node>(node_index(c.nodes), node_index(p.nodes), ElementKind::Node, ch);
    lemma_walk_tells::<Link>(link_index(c.links), link_index(p.links), ElementKind::Link, ch);
    lemma_walk_tells::<OwnedResp>(
        claim_index(c),
        claim_index(p),
        ElementKind::Responsibility,
        ch,
    );
    lemma_walk_tells::<Group>(group_index(c.groups), group_index(p.groups), ElementKind::Group, ch);
    lemma_props_told(c.nodes, p.nodes, ch);
    lemma_one_of(c, p, ch);
    lemma_node_index_names(c.nodes, ch.id);
    lemma_link_index_names(c.links, ch.id);
    lemma_group_index_names(c.groups, ch.id);
    lemma_claim_index_names(c, ch.id);
}

pub proof fn lemma_one_of(c: ScryModelView, p: ScryModelView, ch: ElementChangeView)
    requires
        diff_of(c, p).contains(ch),
    ensures
        kept_or_new::<Node>(node_index(c.nodes), node_index(p.nodes)).contains(ch) || gone::<Node>(
            node_index(c.nodes),
            node_index(p.nodes),
        ).contains(ch) || kept_or_new::<Link>(link_index(c.links), link_index(p.links)).contains(ch)
            || gone::<Link>(link_index(c.links), link_index(p.links)).contains(ch)
            || kept_or_new::<OwnedResp>(claim_index(c), claim_index(p)).contains(ch) || gone::<
            OwnedResp,
        >(claim_index(c), claim_index(p)).contains(ch) || prop_diff(
            prop_index(c.nodes),
            prop_index(p.nodes),
        ).contains(ch) || kept_or_new::<Group>(
            group_index(c.groups),
            group_index(p.groups),
        ).contains(ch) || gone::<Group>(group_index(c.groups), group_index(p.groups)).contains(ch),
{
    let s1 = kept_or_new::<Node>(node_index(c.nodes), node_index(p.nodes));
    let s2 = gone::<Node>(node_index(c.nodes), node_index(p.nodes));
    let s3 = kept_or_new::<Link>(link_index(c.links), link_index(p.links));
    let s4 = gone::<Link>(link_index(c.links), link_index(p.links));
    let s5 = kept_or_new::<OwnedResp>(claim_index(c), claim_index(p));
    let s6 = gone::<OwnedResp>(claim_index(c), claim_index(p));
    let s7 = prop_diff(prop_index(c.nodes), prop_index(p.nodes));
    let s8 = kept_or_new::<Group>(group_index(c.groups), group_index(p.groups));
    let s9 = gone::<Group>(group_index(c.groups), group_index(p.groups));
    let t2 = s1 + s2;
    let t3 = t2 + s3;
    let t4 = t3 + s4;
    let t5 = t4 + s5;
    let t6 = t5 + s6;
    let t7 = t6 + s7;
    let t8 = t7 + s8;
    assert(diff_of(c, p) == t8 + s9);
    lemma_sum_has(t8, s9, ch);
    lemma_sum_has(t7, s8, ch);
    lemma_sum_has(t6, s7, ch);
    lemma_sum_has(t5, s6, ch);
    lemma_sum_has(t4, s5, ch);
    lemma_sum_has(t3, s4, ch);
    lemma_sum_has(t2, s3, ch);
    lemma_sum_has(s1, s2, ch);
}

pub proof fn lemma_sum_has(
    a: Seq<ElementChangeView>,
    b: Seq<ElementChangeView>,
    ch: ElementChangeView,
)
    ensures
        (a + b).contains(ch) ==> a.contains(ch) || b.contains(ch),
{
    let s = a + b;
    if s.contains(ch) {
        let i = choose|i: int| 0 <= i < s.len() && s[i] == ch;
        if i < a.len() {
            assert(a[i] == ch);
        } else {
            assert(b[i - a.len()] == ch);
        }
    }
}

proof fn lemma_with_claims_names(
    m: Map<Seq<char>, OwnedRespView>,
    owner: Seq<char>,
    rs: Seq<ResponsibilityView>,
    id: Seq<char>,
)
    ensures
        with_claims(m, owner, rs).contains_key(id) <==> m.contains_key(id) || has_named::<
            Responsibility,
        >(rs, id),
    decreases rs.len(),
{
    if rs.len() > 0 {
        let d = rs.drop_last();
        lemma_with_claims_names(m, owner, d, id);
        assert(Responsibility::name_of(rs[rs.len() - 1]) == rs.last().id);
        if has_named::<Responsibility>(d, id) {
            let i = choose|i: int|
                0 <= i < d.len() && Responsibility::name_of(#[trigger] d[i]) == id;
            assert(Responsibility::name_of(rs[i]) == id);
        }
        if has_named::<Responsibility>(rs, id) && rs.last().id != id {
            let i = choose|i: int|
                0 <= i < rs.len() && Responsibility::name_of(#[trigger] rs[i]) == id;
            assert(Responsibility::name_of(d[i]) == id);
        }
    }
}

proof fn lemma_node_claims_names(ns: Seq<NodeView>, id: Seq<char>)
    ensures
        node_claims(ns).contains_key(id) <==> nodes_claim(ns, id),
    decreases ns.len(),
{
    if ns.len() > 0 {
        let d = ns.drop_last();
        lemma_node_claims_names(d, id);
        lemma_with_claims_names(node_claims(d), ns.last().id, ns.last().responsibilities, id);
        if nodes_claim(d, id) {
            let i = choose|i: int|
                0 <= i < d.len() && has_named::<Responsibility>(
                    (#[trigger] d[i]).responsibilities,
                    id,
                );
            assert(ns[i] == d[i]);
        }
        assert(ns[ns.len() - 1] == ns.last());
        if nodes_claim(ns, id) {
            let i = choose|i: int|
                0 <= i < ns.len() && has_named::<Responsibility>(
                    (#[trigger] ns[i]).responsibilities,
                    id,
                );
            if i < d.len() {
                assert(ns[i] == d[i]);
            }
        }
    }
}

proof fn lemma_group_claims_names(
    m: Map<Seq<char>, OwnedRespView>,
    gs: Seq<GroupView>,
    id: Seq<char>,
)
    ensures
        group_claims(m, gs).contains_key(id) <==> m.contains_key(id) || groups_claim(gs, id),
    decreases gs.len(),
{
    if gs.len() > 0 {
        let d = gs.drop_last();
        lemma_group_claims_names(m, d, id);
        lemma_with_claims_names(group_claims(m, d), gs.last().id, gs.last().responsibilities, id);
        if groups_claim(d, id) {
            let i = choose|i: int|
                0 <= i < d.len() && has_named::<Responsibility>(
                    (#[trigger] d[i]).responsibilities,
                    id,
                );
            assert(gs[i] == d[i]);
        }
        assert(gs[gs.len() - 1] == gs.last());
        if groups_claim(gs, id) {
            let i = choose|i: int|
                0 <= i < gs.len() && has_named::<Responsibility>(
                    (#[trigger] gs[i]).responsibilities,
                    id,
                );
            if i < d.len() {
                assert(gs[i] == d[i]);
            }
        }
    }
}

/// A claim is looked up exactly where a node or a group makes it.
pub proof fn lemma_claim_index_names(m: ScryModelView, id: Seq<char>)
    ensures
        claim_index(m).contains_key(id) <==> nodes_claim(m.nodes, id) || groups_claim(
            m.groups,
            id,
        ),
{
    lemma_node_claims_names(m.nodes, id);
    lemma_group_claims_names(node_claims(m.nodes), m.groups, id);
}

// ---- taken back -------------------------------------------------------------------

/// A link's entry that is taken back is not pending any more.
pub proof fn law_a_reverted_link_is_not_pending(
    c: ScryModelView,
    p: ScryModelView,
    ch: ElementChangeView,
)
    requires
        diff_of(c, p).contains(ch),
        ch.kind == ElementKind::Link,
        names_differ::<Link>(c.links),
    ensures
        cleared(diff_of(c, reverted(p, c, ch)), ElementKind::Link, ch.id),
{
    law_entries_tell(c, p, ch);
    let r = reverted(p, c, ch);
    lemma_place_of::<Link>(c.links, ch.id);
    lemma_others_has::<Link>(p.links, ch.id, ch.id);
    if adds(ch) {
        lemma_link_index_names(c.links, ch.id);
        lemma_link_index_names(r.links, ch.id);
    } else {
        let i = place_of::<Link>(c.links, ch.id);
        lemma_link_index_at(c.links, i);
        assert(r.links.last() == c.links[i]);
        assert(lookup(link_index(r.links), ch.id) == Some(c.links[i]));
        assert(link_changes(c.links[i], c.links[i]).len() == 0);
    }
    lemma_link_cleared(c, r, ch.id);
}

/// A group's entry that is taken back is not pending any more.
pub proof fn law_a_reverted_group_is_not_pending(
    c: ScryModelView,
    p: ScryModelView,
    ch: ElementChangeView,
)
    requires
        diff_of(c, p).contains(ch),
        ch.kind == ElementKind::Group,
        names_differ::<Group>(c.groups),
        names_differ::<Group>(p.groups),
    ensures
        cleared(diff_of(c, reverted(p, c, ch)), ElementKind::Group, ch.id),
{
    law_entries_tell(c, p, ch);
    let r = reverted(p, c, ch);
    lemma_place_of::<Group>(c.groups, ch.id);
    lemma_place_of::<Group>(p.groups, ch.id);
    lemma_others_has::<Group>(p.groups, ch.id, ch.id);
    if adds(ch) {
        lemma_group_index_names(c.groups, ch.id);
        lemma_group_index_names(r.groups, ch.id);
    } else {
        let i = place_of::<Group>(c.groups, ch.id);
        let k = place_of::<Group>(p.groups, ch.id);
        let t = r.groups;
        lemma_group_index_at(c.groups, i);
        lemma_without_self(c.groups[i].member_ids, c.groups[i].member_ids);
        if k < p.groups.len() {
            assert forall|a: int, b: int|
                0 <= a < t.len() && 0 <= b < t.len() && a != b implies Group::name_of(
                #[trigger] t[a],
            ) != Group::name_of(#[trigger] t[b]) by {
                assert(Group::name_of(p.groups[a]) != Group::name_of(p.groups[b]));
            }
            lemma_group_index_at(t, k);
            assert(group_changes(c.groups[i], t[k]).len() == 0);
        } else {
            assert(t.last() == c.groups[i]);
            assert(lookup(group_index(t), ch.id) == Some(c.groups[i]));
            assert(group_changes(c.groups[i], c.groups[i]).len() == 0);
        }
    }
    lemma_group_cleared(c, r, ch.id);
}

/// A node's entry that is taken back is not pending any more.
pub proof fn law_a_reverted_node_is_not_pending(
    c: ScryModelView,
    p: ScryModelView,
    ch: ElementChangeView,
)
    requires
        diff_of(c, p).contains(ch),
        ch.kind == ElementKind::Node,
        names_differ::<Node>(c.nodes),
        names_differ::<Node>(p.nodes),
    ensures
        cleared(diff_of(c, reverted(p, c, ch)), ElementKind::Node, ch.id),
{
    law_entries_tell(c, p, ch);
    let r = reverted(p, c, ch);
    lemma_place_of::<Node>(c.nodes, ch.id);
    lemma_place_of::<Node>(p.nodes, ch.id);
    lemma_others_has::<Node>(p.nodes, ch.id, ch.id);
    if adds(ch) {
        lemma_node_index_names(c.nodes, ch.id);
        lemma_node_index_names(r.nodes, ch.id);
    } else {
        let i = place_of::<Node>(c.nodes, ch.id);
        let k = place_of::<Node>(p.nodes, ch.id);
        let t = r.nodes;
        lemma_node_index_at(c.nodes, i);
        if k < p.nodes.len() {
            assert forall|a: int, b: int|
                0 <= a < t.len() && 0 <= b < t.len() && a != b implies Node::name_of(
                #[trigger] t[a],
            ) != Node::name_of(#[trigger] t[b]) by {
                assert(Node::name_of(p.nodes[a]) != Node::name_of(p.nodes[b]));
            }
            lemma_node_index_at(t, k);
            assert(node_changes(c.nodes[i], t[k]).len() == 0);
        } else {
            assert(t.last() == c.nodes[i]);
            assert(lookup(node_index(t), ch.id) == Some(c.nodes[i]));
            assert(node_changes(c.nodes[i], c.nodes[i]).len() == 0);
        }
    }
    lemma_node_cleared(c, r, ch.id);
}

/// A property's entry that is taken back is not pending any more, as long as the plan
/// still has its host.
pub proof fn law_a_reverted_property_is_not_pending(
    c: ScryModelView,
    p: ScryModelView,
    ch: ElementChangeView,
)
    requires
        diff_of(c, p).contains(ch),
        ch.kind == ElementKind::Property,
        names_differ::<Node>(c.nodes),
        names_differ::<Node>(p.nodes),
        forall|i: int|
            0 <= i < c.nodes.len() ==> names_differ::<SchemaProperty>(
                (#[trigger] c.nodes[i]).properties,
            ),
        ch.owner_id is Some ==> has_named::<Node>(p.nodes, ch.owner_id->0),
    ensures
        ch.owner_id is Some,
        property_cleared(diff_of(c, reverted(p, c, ch)), ch.owner_id->0, ch.id),
{
    law_entries_tell(c, p, ch);
    let r = reverted(p, c, ch);
    let owner = ch.owner_id->0;
    let id = ch.id;
    let i = place_of::<Node>(p.nodes, owner);
    let k = place_of::<Node>(c.nodes, owner);
    lemma_place_of::<Node>(p.nodes, owner);
    lemma_place_of::<Node>(c.nodes, owner);
    let t = r.nodes;
    assert forall|a: int, b: int|
        0 <= a < t.len() && 0 <= b < t.len() && a != b implies Node::name_of(#[trigger] t[a])
        != Node::name_of(#[trigger] t[b]) by {
        assert(Node::name_of(p.nodes[a]) != Node::name_of(p.nodes[b]));
    }
    lemma_prop_index_at(t, i);
    let bare = others::<SchemaProperty>(p.nodes[i].properties, id);
    lemma_others_has::<SchemaProperty>(p.nodes[i].properties, id, id);
    lemma_with_props(owner, t[i].properties, id);
    if k < c.nodes.len() {
        let ps = c.nodes[k].properties;
        lemma_prop_index_at(c.nodes, k);
        lemma_place_of::<SchemaProperty>(ps, id);
        lemma_with_props(owner, ps, id);
        let q = place_of::<SchemaProperty>(ps, id);
        if !adds(ch) {
            assert(q < ps.len());
            assert(ps[q].label == id);
            assert(t[i].properties.drop_last() =~= bare);
            assert(t[i].properties.last() == ps[q]);
        }
    } else {
        lemma_prop_index_owned(c.nodes, owner);
    }
    lemma_property_cleared(c, r, owner, id);
}

proof fn lemma_nothing_back_on_nodes(ns: Seq<NodeView>, from: Seq<NodeView>, id: Seq<char>)
    requires
        !nodes_claim(from, id),
    ensures
        claims_back_on_nodes(ns, from, id) == ns,
    decreases from.len(),
{
    if from.len() > 0 {
        let d = from.drop_last();
        assert forall|i: int| 0 <= i < d.len() implies !has_named::<Responsibility>(
            (#[trigger] d[i]).responsibilities,
            id,
        ) by {
            assert(!has_named::<Responsibility>(from[i].responsibilities, id));
        }
        lemma_nothing_back_on_nodes(ns, d, id);
        assert(!has_named::<Responsibility>(from[from.len() - 1].responsibilities, id));
        lemma_place_of::<Responsibility>(from.last().responsibilities, id);
    }
}

proof fn lemma_nothing_back_on_groups(gs: Seq<GroupView>, from: Seq<GroupView>, id: Seq<char>)
    requires
        !groups_claim(from, id),
    ensures
        claims_back_on_groups(gs, from, id) == gs,
    decreases from.len(),
{
    if from.len() > 0 {
        let d = from.drop_last();
        assert forall|i: int| 0 <= i < d.len() implies !has_named::<Responsibility>(
            (#[trigger] d[i]).responsibilities,
            id,
        ) by {
            assert(!has_named::<Responsibility>(from[i].responsibilities, id));
        }
        lemma_nothing_back_on_groups(gs, d, id);
        assert(!has_named::<Responsibility>(from[from.len() - 1].responsibilities, id));
        lemma_place_of::<Responsibility>(from.last().responsibilities, id);
    }
}

proof fn lemma_one_back_on_nodes(
    ns: Seq<NodeView>,
    from: Seq<NodeView>,
    id: Seq<char>,
    k: int,
)
    requires
        0 <= k < from.len(),
        has_named::<Responsibility>(from[k].responsibilities, id),
        forall|j: int|
            0 <= j < from.len() && j != k ==> !has_named::<Responsibility>(
                (#[trigger] from[j]).responsibilities,
                id,
            ),
        has_named::<Node>(ns, from[k].id),
    ensures
        ({
            let i = place_of::<Node>(ns, from[k].id);
            claims_back_on_nodes(ns, from, id) == ns.update(
                i,
                NodeView {
                    responsibilities: ns[i].responsibilities.push(
                        first::<Responsibility>(from[k].responsibilities, id)->0,
                    ),
                    ..ns[i]
                },
            )
        }),
    decreases from.len(),
{
    let d = from.drop_last();
    lemma_place_of::<Node>(ns, from[k].id);
    if k == from.len() - 1 {
        assert forall|i: int| 0 <= i < d.len() implies !has_named::<Responsibility>(
            (#[trigger] d[i]).responsibilities,
            id,
        ) by {
            assert(!has_named::<Responsibility>(from[i].responsibilities, id));
        }
        lemma_nothing_back_on_nodes(ns, d, id);
        lemma_place_of::<Responsibility>(from[k].responsibilities, id);
    } else {
        assert(d[k] == from[k]);
        assert forall|j: int| 0 <= j < d.len() && j != k implies !has_named::<Responsibility>(
            (#[trigger] d[j]).responsibilities,
            id,
        ) by {
            assert(!has_named::<Responsibility>(from[j].responsibilities, id));
        }
        lemma_one_back_on_nodes(ns, d, id, k);
        assert(!has_named::<Responsibility>(from[from.len() - 1].responsibilities, id));
        lemma_place_of::<Responsibility>(from.last().responsibilities, id);
    }
}

proof fn lemma_one_back_on_groups(
    gs: Seq<GroupView>,
    from: Seq<GroupView>,
    id: Seq<char>,
    k: int,
)
    requires
        0 <= k < from.len(),
        has_named::<Responsibility>(from[k].responsibilities, id),
        forall|j: int|
            0 <= j < from.len() && j != k ==> !has_named::<Responsibility>(
                (#[trigger] from[j]).responsibilities,
                id,
            ),
        has_named::<Group>(gs, from[k].id),
    ensures
        ({
            let i = place_of::<Group>(gs, from[k].id);
            claims_back_on_groups(gs, from, id) == gs.update(
                i,
                GroupView {
                    responsibilities: gs[i].responsibilities.push(
                        first::<Responsibility>(from[k].responsibilities, id)->0,
                    ),
                    ..gs[i]
                },
            )
        }),
    decreases from.len(),
{
    let d = from.drop_last();
    lemma_place_of::<Group>(gs, from[k].id);
    if k == from.len() - 1 {
        assert forall|i: int| 0 <= i < d.len() implies !has_named::<Responsibility>(
            (#[trigger] d[i]).responsibilities,
            id,
        ) by {
            assert(!has_named::<Responsibility>(from[i].responsibilities, id));
        }
        lemma_nothing_back_on_groups(gs, d, id);
        lemma_place_of::<Responsibility>(from[k].responsibilities, id);
    } else {
        assert(d[k] == from[k]);
        assert forall|j: int| 0 <= j < d.len() && j != k implies !has_named::<Responsibility>(
            (#[trigger] d[j]).responsibilities,
            id,
        ) by {
            assert(!has_named::<Responsibility>(from[j].responsibilities, id));
        }
        lemma_one_back_on_groups(gs, d, id, k);
        assert(!has_named::<Responsibility>(from[from.len() - 1].responsibilities, id));
        lemma_place_of::<Responsibility>(from.last().responsibilities, id);
    }
}

/// Has the plan the host that a committed claim stands on?
pub open spec fn host_is_planned(c: ScryModelView, p: ScryModelView, id: Seq<char>) -> bool {
    match node_claim(c.nodes, id) {
        Some((host, _)) => has_named::<Node>(p.nodes, host),
        None => match group_claim(c.groups, id) {
            Some((host, _)) => has_named::<Group>(p.groups, host),
            None => true,
        },
    }
}

proof fn lemma_same_hosts(p: ScryModelView, id: Seq<char>, host: Seq<char>)
    ensures
        has_named::<Node>(p.nodes, host) ==> has_named::<Node>(
            nodes_without_claim(p.nodes, id),
            host,
        ),
        has_named::<Group>(p.groups, host) ==> has_named::<Group>(
            groups_without_claim(p.groups, id),
            host,
        ),
{
    let ns = nodes_without_claim(p.nodes, id);
    let gs = groups_without_claim(p.groups, id);
    if has_named::<Node>(p.nodes, host) {
        let i = choose|i: int|
            0 <= i < p.nodes.len() && Node::name_of(#[trigger] p.nodes[i]) == host;
        assert(Node::name_of(ns[i]) == host);
    }
    if has_named::<Group>(p.groups, host) {
        let i = choose|i: int|
            0 <= i < p.groups.len() && Group::name_of(#[trigger] p.groups[i]) == host;
        assert(Group::name_of(gs[i]) == host);
    }
}

/// A claim's entry that is taken back is not pending any more, as long as committed makes
/// the claim at most once and the plan still has its host.
pub proof fn law_a_reverted_claim_is_not_pending(
    c: ScryModelView,
    p: ScryModelView,
    ch: ElementChangeView,
)
    requires
        diff_of(c, p).contains(ch),
        ch.kind == ElementKind::Responsibility,
        claimed_once(c, ch.id),
        host_is_planned(c, p, ch.id),
    ensures
        cleared(diff_of(c, reverted(p, c, ch)), ElementKind::Responsibility, ch.id),
{
    law_entries_tell(c, p, ch);
    let r = reverted(p, c, ch);
    let id = ch.id;
    let ns = nodes_without_claim(p.nodes, id);
    let gs = groups_without_claim(p.groups, id);
    lemma_stripped(p, id);
    lemma_first_node(c.nodes, id);
    lemma_first_group(c.groups, id);
    if adds(ch) {
        lemma_node_claims_none(r.nodes, id);
        lemma_group_claims_none(node_claims(r.nodes), r.groups, id);
        lemma_node_claims_none(c.nodes, id);
        lemma_group_claims_none(node_claims(c.nodes), c.groups, id);
    } else if nodes_claim(c.nodes, id) {
        let u = node_with_claim(c.nodes, id);
        let host = c.nodes[u].id;
        let rs = c.nodes[u].responsibilities;
        lemma_same_hosts(p, id, host);
        lemma_place_of::<Node>(ns, host);
        lemma_place_of::<Responsibility>(rs, id);
        let q = place_of::<Responsibility>(rs, id);
        lemma_one_back_on_nodes(ns, c.nodes, id, u);
        lemma_nothing_back_on_groups(gs, c.groups, id);
        let i = place_of::<Node>(ns, host);
        let was = ns[i].responsibilities;
        assert(!has_named::<Responsibility>(was, id));
        lemma_pushed_once(was, rs[q], id);
        lemma_node_claims_at(r.nodes, id, i, was.len() as int);
        lemma_group_claims_none(node_claims(r.nodes), r.groups, id);
        lemma_node_claims_at(c.nodes, id, u, q);
        lemma_group_claims_none(node_claims(c.nodes), c.groups, id);
        let there = OwnedRespView { owner_id: host, resp: rs[q] };
        assert(lookup(claim_index(r), id) == Some(there));
        assert(lookup(claim_index(c), id) == Some(there));
        assert(resp_changes(there, there).len() == 0);
    } else {
        let u = group_with_claim(c.groups, id);
        let host = c.groups[u].id;
        let rs = c.groups[u].responsibilities;
        lemma_same_hosts(p, id, host);
        lemma_place_of::<Group>(gs, host);
        lemma_place_of::<Responsibility>(rs, id);
        let q = place_of::<Responsibility>(rs, id);
        lemma_nothing_back_on_nodes(ns, c.nodes, id);
        lemma_one_back_on_groups(gs, c.groups, id, u);
        let i = place_of::<Group>(gs, host);
        let was = gs[i].responsibilities;
        assert(!has_named::<Responsibility>(was, id));
        lemma_pushed_once(was, rs[q], id);
        lemma_group_claims_at(node_claims(r.nodes), r.groups, id, i, was.len() as int);
        lemma_group_claims_at(node_claims(c.nodes), c.groups, id, u, q);
        let there = OwnedRespView { owner_id: host, resp: rs[q] };
        assert(lookup(claim_index(r), id) == Some(there));
        assert(lookup(claim_index(c), id) == Some(there));
        assert(resp_changes(there, there).len() == 0);
    }
    lemma_claim_cleared(c, r, id);
}

} // verus!
