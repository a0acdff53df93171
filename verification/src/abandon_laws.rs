//! What abandoning a change does to its own entries.

use crate::diff::{
    diff_of, inner, lookup, node_claims, prop_index, with_props, ElementChangeView, ElementKind,
    OwnedPropView,
};
use crate::fold_laws::{
    claimed_once, cleared, groups_claim, lemma_group_claims_none, lemma_group_index_names,
    lemma_link_index_names, lemma_node_claims_none, lemma_node_index_names, lemma_others_has,
    lemma_prop_index_owned, lemma_stripped, names_differ, nodes_claim, property_cleared,
};
use crate::ledger::{
    adds, all_reverted, claims_back_on_groups, claims_back_on_nodes, links_away_from, reverted,
};
use crate::model::{
    groups_without_claim, nodes_without_claim, Group, GroupView, Link, LinkView, Node, NodeView,
    Responsibility, SchemaProperty, SchemaPropertyView, ScryModelView,
};
use crate::named::{first, has_named, lemma_place_of, others, place_of, Named};
use crate::plan_laws::{law_a_plan_is_made_element_by_element, said_of};
use crate::revert_laws::{
    host_is_planned, law_a_reverted_claim_is_not_pending, law_a_reverted_group_is_not_pending,
    law_a_reverted_link_is_not_pending, law_a_reverted_node_is_not_pending,
    law_a_reverted_property_is_not_pending, law_entries_tell, lemma_claims_tell, lemma_groups_tell,
    lemma_links_tell, lemma_nodes_tell, lemma_props_tell,
};
use crate::untouched_laws::{
    law_abandoning_leaves_the_others, law_taking_one_back_leaves_the_others, stands_clear,
};
use vstd::prelude::*;

verus! {

// ---- what a model has ---------------------------------------------------------------

/// Has a node called `owner` a property called `id`?
pub open spec fn has_property(ns: Seq<NodeView>, owner: Seq<char>, id: Seq<char>) -> bool {
    exists|i: int|
        0 <= i < ns.len() && (#[trigger] ns[i]).id == owner && has_named::<SchemaProperty>(
            ns[i].properties,
            id,
        )
}

/// Has the model the element?
pub open spec fn has_element(
    m: ScryModelView,
    kind: ElementKind,
    owner: Option<Seq<char>>,
    id: Seq<char>,
) -> bool {
    match kind {
        ElementKind::Node => has_named::<Node>(m.nodes, id),
        ElementKind::Link => has_named::<Link>(m.links, id),
        ElementKind::Group => has_named::<Group>(m.groups, id),
        ElementKind::Responsibility => nodes_claim(m.nodes, id) || groups_claim(m.groups, id),
        ElementKind::Property => owner is Some && has_property(m.nodes, owner->0, id),
    }
}

proof fn lemma_with_props_has(
    m: Map<Seq<char>, OwnedPropView>,
    owner: Seq<char>,
    ps: Seq<SchemaPropertyView>,
    id: Seq<char>,
)
    ensures
        with_props(m, owner, ps).contains_key(id) <==> m.contains_key(id) || has_named::<
            SchemaProperty,
        >(ps, id),
    decreases ps.len(),
{
    if ps.len() > 0 {
        let d = ps.drop_last();
        lemma_with_props_has(m, owner, d, id);
        assert(SchemaProperty::name_of(ps[ps.len() - 1]) == ps.last().label);
        if has_named::<SchemaProperty>(d, id) {
            let i = choose|i: int|
                0 <= i < d.len() && SchemaProperty::name_of(#[trigger] d[i]) == id;
            assert(SchemaProperty::name_of(ps[i]) == id);
        }
        if has_named::<SchemaProperty>(ps, id) && ps.last().label != id {
            let i = choose|i: int|
                0 <= i < ps.len() && SchemaProperty::name_of(#[trigger] ps[i]) == id;
            assert(SchemaProperty::name_of(d[i]) == id);
        }
    }
}

/// A property is looked up exactly where a node has it.
pub proof fn lemma_property_looked_up(ns: Seq<NodeView>, owner: Seq<char>, id: Seq<char>)
    ensures
        lookup(inner(prop_index(ns), owner), id) is Some <==> has_property(ns, owner, id),
    decreases ns.len(),
{
    if ns.len() > 0 {
        let d = ns.drop_last();
        let n = ns.last();
        lemma_property_looked_up(d, owner, id);
        lemma_with_props_has(inner(prop_index(d), n.id), n.id, n.properties, id);
        if has_property(d, owner, id) {
            let i = choose|i: int|
                0 <= i < d.len() && (#[trigger] d[i]).id == owner && has_named::<SchemaProperty>(
                    d[i].properties,
                    id,
                );
            assert(ns[i].id == owner && has_named::<SchemaProperty>(ns[i].properties, id));
        }
        if has_property(ns, owner, id) {
            let i = choose|i: int|
                0 <= i < ns.len() && (#[trigger] ns[i]).id == owner && has_named::<SchemaProperty>(
                    ns[i].properties,
                    id,
                );
            if i < d.len() {
                assert(d[i].id == owner && has_named::<SchemaProperty>(d[i].properties, id));
            }
        }
        if n.id == owner && has_named::<SchemaProperty>(n.properties, id) {
            assert(ns[ns.len() - 1].id == owner);
        }
    }
}

/// Of an element that neither model has a plan says nothing.
proof fn lemma_nothing_said(
    c: ScryModelView,
    p: ScryModelView,
    kind: ElementKind,
    owner: Option<Seq<char>>,
    id: Seq<char>,
)
    requires
        !has_element(c, kind, owner, id),
        !has_element(p, kind, owner, id),
    ensures
        said_of(c, p, kind, owner, id) is None,
{
    match kind {
        ElementKind::Node => {
            lemma_node_index_names(c.nodes, id);
            lemma_node_index_names(p.nodes, id);
        },
        ElementKind::Link => {
            lemma_link_index_names(c.links, id);
            lemma_link_index_names(p.links, id);
        },
        ElementKind::Group => {
            lemma_group_index_names(c.groups, id);
            lemma_group_index_names(p.groups, id);
        },
        ElementKind::Responsibility => {
            lemma_node_claims_none(c.nodes, id);
            lemma_node_claims_none(p.nodes, id);
            lemma_group_claims_none(node_claims(c.nodes), c.groups, id);
            lemma_group_claims_none(node_claims(p.nodes), p.groups, id);
        },
        ElementKind::Property => {
            if owner is Some {
                lemma_property_looked_up(c.nodes, owner->0, id);
                lemma_property_looked_up(p.nodes, owner->0, id);
            }
        },
    }
}

/// What a plan adds committed does not have.
proof fn lemma_addition_is_new(c: ScryModelView, p: ScryModelView, ch: ElementChangeView)
    requires
        diff_of(c, p).contains(ch),
        adds(ch),
    ensures
        !has_element(c, ch.kind, ch.owner_id, ch.id),
{
    law_entries_tell(c, p, ch);
    if ch.kind == ElementKind::Property {
        lemma_property_looked_up(c.nodes, ch.owner_id->0, ch.id);
    }
}

// ---- where the parts of a plan come from ----------------------------------------------

/// Does a node have nothing called `x` that neither the node of the plan with its id nor
/// committed has?
spec fn drawn(n: NodeView, ps: Seq<NodeView>, cs: Seq<NodeView>, x: Seq<char>) -> bool {
    (exists|j: int| 0 <= j < ps.len() && kept(n, #[trigger] ps[j], cs, x)) || (exists|j: int|
        0 <= j < cs.len() && #[trigger] cs[j] == n)
}

spec fn kept(n: NodeView, m: NodeView, cs: Seq<NodeView>, x: Seq<char>) -> bool {
    &&& m.id == n.id
    &&& has_named::<Responsibility>(n.responsibilities, x) ==> has_named::<Responsibility>(
        m.responsibilities,
        x,
    ) || nodes_claim(cs, x)
    &&& has_named::<SchemaProperty>(n.properties, x) ==> has_named::<SchemaProperty>(
        m.properties,
        x,
    ) || has_property(cs, n.id, x)
}

spec fn group_drawn(g: GroupView, ps: Seq<GroupView>, cs: Seq<GroupView>, x: Seq<char>) -> bool {
    (exists|j: int| 0 <= j < ps.len() && group_kept(g, #[trigger] ps[j], cs, x)) || (exists|
        j: int,
    |
        0 <= j < cs.len() && #[trigger] cs[j] == g)
}

spec fn group_kept(g: GroupView, m: GroupView, cs: Seq<GroupView>, x: Seq<char>) -> bool {
    &&& m.id == g.id
    &&& has_named::<Responsibility>(g.responsibilities, x) ==> has_named::<Responsibility>(
        m.responsibilities,
        x,
    ) || groups_claim(cs, x)
}

proof fn lemma_pushed_has<T: Named>(s: Seq<T::V>, v: T::V, x: Seq<char>)
    ensures
        has_named::<T>(s.push(v), x) <==> has_named::<T>(s, x) || T::name_of(v) == x,
{
    let t = s.push(v);
    assert(t[s.len() as int] == v);
    if has_named::<T>(s, x) {
        let i = choose|i: int| 0 <= i < s.len() && T::name_of(#[trigger] s[i]) == x;
        assert(T::name_of(t[i]) == x);
    }
    if has_named::<T>(t, x) {
        let i = choose|i: int| 0 <= i < t.len() && T::name_of(#[trigger] t[i]) == x;
        if i < s.len() {
            assert(T::name_of(s[i]) == x);
        }
    }
}

proof fn lemma_others_from<T: Named>(s: Seq<T::V>, id: Seq<char>, i: int)
    requires
        0 <= i < others::<T>(s, id).len(),
    ensures
        s.contains(others::<T>(s, id)[i]),
    decreases s.len(),
{
    let d = s.drop_last();
    let o = others::<T>(d, id);
    if i < o.len() {
        lemma_others_from::<T>(d, id, i);
        let j = choose|j: int| 0 <= j < d.len() && d[j] == o[i];
        assert(s[j] == o[i]);
    } else {
        assert(s[s.len() - 1] == s.last());
    }
}

proof fn lemma_back_on_nodes(ns: Seq<NodeView>, from: Seq<NodeView>, id: Seq<char>, x: Seq<char>)
    ensures
        claims_back_on_nodes(ns, from, id).len() == ns.len(),
        forall|i: int|
            0 <= i < ns.len() ==> kept(#[trigger] claims_back_on_nodes(ns, from, id)[i], ns[i], from, x),
    decreases from.len(),
{
    if from.len() > 0 {
        let d = from.drop_last();
        lemma_back_on_nodes(ns, d, id, x);
        let done = claims_back_on_nodes(ns, d, id);
        let all = claims_back_on_nodes(ns, from, id);
        let rs = from.last().responsibilities;
        lemma_place_of::<Responsibility>(rs, id);
        lemma_place_of::<Node>(done, from.last().id);
        if nodes_claim(d, x) {
            let j = choose|j: int|
                0 <= j < d.len() && has_named::<Responsibility>(
                    (#[trigger] d[j]).responsibilities,
                    x,
                );
            assert(has_named::<Responsibility>(from[j].responsibilities, x));
        }
        if has_named::<Responsibility>(rs, x) {
            assert(has_named::<Responsibility>(from[from.len() - 1].responsibilities, x));
        }
        assert forall|i: int| 0 <= i < ns.len() implies kept(#[trigger] all[i], ns[i], from, x) by {
            assert(kept(done[i], ns[i], d, x));
            if has_property(d, ns[i].id, x) {
                let j = choose|j: int|
                    0 <= j < d.len() && (#[trigger] d[j]).id == ns[i].id && has_named::<
                        SchemaProperty,
                    >(d[j].properties, x);
                assert(from[j].id == ns[i].id && has_named::<SchemaProperty>(from[j].properties, x));
            }
            if first::<Responsibility>(rs, id) is Some {
                lemma_pushed_has::<Responsibility>(
                    done[i].responsibilities,
                    first::<Responsibility>(rs, id)->0,
                    x,
                );
            }
        }
    }
}

proof fn lemma_back_on_groups(
    gs: Seq<GroupView>,
    from: Seq<GroupView>,
    id: Seq<char>,
    x: Seq<char>,
)
    ensures
        claims_back_on_groups(gs, from, id).len() == gs.len(),
        forall|i: int|
            0 <= i < gs.len() ==> group_kept(
                #[trigger] claims_back_on_groups(gs, from, id)[i],
                gs[i],
                from,
                x,
            ),
    decreases from.len(),
{
    if from.len() > 0 {
        let d = from.drop_last();
        lemma_back_on_groups(gs, d, id, x);
        let done = claims_back_on_groups(gs, d, id);
        let all = claims_back_on_groups(gs, from, id);
        let rs = from.last().responsibilities;
        lemma_place_of::<Responsibility>(rs, id);
        lemma_place_of::<Group>(done, from.last().id);
        if groups_claim(d, x) {
            let j = choose|j: int|
                0 <= j < d.len() && has_named::<Responsibility>(
                    (#[trigger] d[j]).responsibilities,
                    x,
                );
            assert(has_named::<Responsibility>(from[j].responsibilities, x));
        }
        if has_named::<Responsibility>(rs, x) {
            assert(has_named::<Responsibility>(from[from.len() - 1].responsibilities, x));
        }
        assert forall|i: int| 0 <= i < gs.len() implies group_kept(
            #[trigger] all[i],
            gs[i],
            from,
            x,
        ) by {
            assert(group_kept(done[i], gs[i], d, x));
            if first::<Responsibility>(rs, id) is Some {
                lemma_pushed_has::<Responsibility>(
                    done[i].responsibilities,
                    first::<Responsibility>(rs, id)->0,
                    x,
                );
            }
        }
    }
}

proof fn lemma_nodes_drawn(
    p: ScryModelView,
    c: ScryModelView,
    ch: ElementChangeView,
    x: Seq<char>,
    i: int,
)
    requires
        0 <= i < reverted(p, c, ch).nodes.len(),
    ensures
        drawn(reverted(p, c, ch).nodes[i], p.nodes, c.nodes, x),
{
    let q = reverted(p, c, ch).nodes;
    match ch.kind {
        ElementKind::Responsibility => {
            let ns = nodes_without_claim(p.nodes, ch.id);
            lemma_back_on_nodes(ns, c.nodes, ch.id, x);
            lemma_others_has::<Responsibility>(p.nodes[i].responsibilities, ch.id, x);
            if !adds(ch) {
                assert(kept(claims_back_on_nodes(ns, c.nodes, ch.id)[i], ns[i], c.nodes, x));
            }
            assert(kept(q[i], p.nodes[i], c.nodes, x));
        },
        ElementKind::Property => {
            if ch.owner_id is Some {
                let o = ch.owner_id->0;
                lemma_place_of::<Node>(p.nodes, o);
                lemma_place_of::<Node>(c.nodes, o);
                let u = place_of::<Node>(p.nodes, o);
                let k = place_of::<Node>(c.nodes, o);
                lemma_others_has::<SchemaProperty>(p.nodes[i].properties, ch.id, x);
                if k < c.nodes.len() {
                    let was = first::<SchemaProperty>(c.nodes[k].properties, ch.id);
                    lemma_place_of::<SchemaProperty>(c.nodes[k].properties, ch.id);
                    if was is Some {
                        lemma_pushed_has::<SchemaProperty>(
                            others::<SchemaProperty>(p.nodes[i].properties, ch.id),
                            was->0,
                            x,
                        );
                        assert(has_named::<SchemaProperty>(c.nodes[k].properties, ch.id));
                    }
                }
            }
            assert(kept(q[i], p.nodes[i], c.nodes, x));
        },
        ElementKind::Node => {
            if adds(ch) {
                lemma_others_from::<Node>(p.nodes, ch.id, i);
                let j = choose|j: int| 0 <= j < p.nodes.len() && p.nodes[j] == q[i];
                assert(kept(q[i], p.nodes[j], c.nodes, x));
            } else {
                lemma_place_of::<Node>(c.nodes, ch.id);
                lemma_place_of::<Node>(p.nodes, ch.id);
                if i < p.nodes.len() {
                    assert(kept(q[i], p.nodes[i], c.nodes, x));
                } else {
                    assert(c.nodes[place_of::<Node>(c.nodes, ch.id)] == q[i]);
                }
            }
        },
        _ => {
            assert(kept(q[i], p.nodes[i], c.nodes, x));
        },
    }
}

proof fn lemma_groups_drawn(
    p: ScryModelView,
    c: ScryModelView,
    ch: ElementChangeView,
    x: Seq<char>,
    i: int,
)
    requires
        0 <= i < reverted(p, c, ch).groups.len(),
    ensures
        group_drawn(reverted(p, c, ch).groups[i], p.groups, c.groups, x),
{
    let q = reverted(p, c, ch).groups;
    match ch.kind {
        ElementKind::Responsibility => {
            let gs = groups_without_claim(p.groups, ch.id);
            lemma_back_on_groups(gs, c.groups, ch.id, x);
            lemma_others_has::<Responsibility>(p.groups[i].responsibilities, ch.id, x);
            if !adds(ch) {
                assert(group_kept(
                    claims_back_on_groups(gs, c.groups, ch.id)[i],
                    gs[i],
                    c.groups,
                    x,
                ));
            }
            assert(group_kept(q[i], p.groups[i], c.groups, x));
        },
        ElementKind::Group => {
            if adds(ch) {
                lemma_others_from::<Group>(p.groups, ch.id, i);
                let j = choose|j: int| 0 <= j < p.groups.len() && p.groups[j] == q[i];
                assert(group_kept(q[i], p.groups[j], c.groups, x));
            } else {
                lemma_place_of::<Group>(c.groups, ch.id);
                lemma_place_of::<Group>(p.groups, ch.id);
                if i < p.groups.len() {
                    assert(group_kept(q[i], p.groups[i], c.groups, x));
                } else {
                    assert(c.groups[place_of::<Group>(c.groups, ch.id)] == q[i]);
                }
            }
        },
        _ => {
            assert(group_kept(q[i], p.groups[i], c.groups, x));
        },
    }
}

proof fn lemma_away_has(ls: Seq<LinkView>, id: Seq<char>, x: Seq<char>)
    ensures
        has_named::<Link>(links_away_from(ls, id), x) ==> has_named::<Link>(ls, x),
    decreases ls.len(),
{
    if ls.len() > 0 {
        let d = ls.drop_last();
        lemma_away_has(d, id, x);
        lemma_pushed_has::<Link>(links_away_from(d, id), ls.last(), x);
        lemma_pushed_has::<Link>(d, ls.last(), x);
        assert(d.push(ls.last()) =~= ls);
    }
}

/// Taking an entry back brings nothing into the plan that committed does not have.
pub proof fn law_taking_back_brings_nothing_new(
    p: ScryModelView,
    c: ScryModelView,
    ch: ElementChangeView,
    kind: ElementKind,
    owner: Option<Seq<char>>,
    id: Seq<char>,
)
    ensures
        has_element(reverted(p, c, ch), kind, owner, id) ==> has_element(p, kind, owner, id)
            || has_element(c, kind, owner, id),
{
    let q = reverted(p, c, ch);
    if has_element(q, kind, owner, id) {
        match kind {
            ElementKind::Node => {
                let i = choose|i: int|
                    0 <= i < q.nodes.len() && Node::name_of(#[trigger] q.nodes[i]) == id;
                lemma_nodes_drawn(p, c, ch, id, i);
                lemma_drawn_named(q.nodes[i], p.nodes, c.nodes, id);
            },
            ElementKind::Property => {
                let o = owner->0;
                let i = choose|i: int|
                    0 <= i < q.nodes.len() && (#[trigger] q.nodes[i]).id == o && has_named::<
                        SchemaProperty,
                    >(q.nodes[i].properties, id);
                lemma_nodes_drawn(p, c, ch, id, i);
                lemma_drawn_named(q.nodes[i], p.nodes, c.nodes, id);
            },
            ElementKind::Responsibility => {
                if nodes_claim(q.nodes, id) {
                    let i = choose|i: int|
                        0 <= i < q.nodes.len() && has_named::<Responsibility>(
                            (#[trigger] q.nodes[i]).responsibilities,
                            id,
                        );
                    lemma_nodes_drawn(p, c, ch, id, i);
                    lemma_drawn_named(q.nodes[i], p.nodes, c.nodes, id);
                } else {
                    let i = choose|i: int|
                        0 <= i < q.groups.len() && has_named::<Responsibility>(
                            (#[trigger] q.groups[i]).responsibilities,
                            id,
                        );
                    lemma_groups_drawn(p, c, ch, id, i);
                    lemma_group_drawn_named(q.groups[i], p.groups, c.groups, id);
                }
            },
            ElementKind::Group => {
                let i = choose|i: int|
                    0 <= i < q.groups.len() && Group::name_of(#[trigger] q.groups[i]) == id;
                lemma_groups_drawn(p, c, ch, id, i);
                lemma_group_drawn_named(q.groups[i], p.groups, c.groups, id);
            },
            ElementKind::Link => {
                if ch.kind == ElementKind::Link {
                    let was = first::<Link>(c.links, ch.id);
                    lemma_others_has::<Link>(p.links, ch.id, id);
                    lemma_place_of::<Link>(c.links, ch.id);
                    if was is Some {
                        lemma_pushed_has::<Link>(others::<Link>(p.links, ch.id), was->0, id);
                        assert(has_named::<Link>(c.links, ch.id));
                    }
                } else {
                    lemma_away_has(p.links, ch.id, id);
                }
            },
        }
    }
}

proof fn lemma_drawn_named(n: NodeView, ps: Seq<NodeView>, cs: Seq<NodeView>, x: Seq<char>)
    requires
        drawn(n, ps, cs, x),
    ensures
        has_named::<Node>(ps, n.id) || has_named::<Node>(cs, n.id),
        has_named::<Responsibility>(n.responsibilities, x) ==> nodes_claim(ps, x) || nodes_claim(
            cs,
            x,
        ),
        has_named::<SchemaProperty>(n.properties, x) ==> has_property(ps, n.id, x) || has_property(
            cs,
            n.id,
            x,
        ),
{
    if exists|j: int| 0 <= j < ps.len() && kept(n, #[trigger] ps[j], cs, x) {
        let j = choose|j: int| 0 <= j < ps.len() && kept(n, #[trigger] ps[j], cs, x);
        assert(Node::name_of(ps[j]) == n.id);
    } else {
        let j = choose|j: int| 0 <= j < cs.len() && #[trigger] cs[j] == n;
        assert(Node::name_of(cs[j]) == n.id);
    }
}

proof fn lemma_group_drawn_named(
    g: GroupView,
    ps: Seq<GroupView>,
    cs: Seq<GroupView>,
    x: Seq<char>,
)
    requires
        group_drawn(g, ps, cs, x),
    ensures
        has_named::<Group>(ps, g.id) || has_named::<Group>(cs, g.id),
        has_named::<Responsibility>(g.responsibilities, x) ==> groups_claim(ps, x) || groups_claim(
            cs,
            x,
        ),
{
    if exists|j: int| 0 <= j < ps.len() && group_kept(g, #[trigger] ps[j], cs, x) {
        let j = choose|j: int| 0 <= j < ps.len() && group_kept(g, #[trigger] ps[j], cs, x);
        assert(Group::name_of(ps[j]) == g.id);
    } else {
        let j = choose|j: int| 0 <= j < cs.len() && #[trigger] cs[j] == g;
        assert(Group::name_of(cs[j]) == g.id);
    }
}

// ---- additions ------------------------------------------------------------------------

proof fn lemma_addition_removed(p: ScryModelView, c: ScryModelView, ch: ElementChangeView)
    requires
        adds(ch),
        names_differ::<Node>(p.nodes),
    ensures
        !has_element(reverted(p, c, ch), ch.kind, ch.owner_id, ch.id),
{
    match ch.kind {
        ElementKind::Node => lemma_others_has::<Node>(p.nodes, ch.id, ch.id),
        ElementKind::Link => lemma_others_has::<Link>(p.links, ch.id, ch.id),
        ElementKind::Group => lemma_others_has::<Group>(p.groups, ch.id, ch.id),
        ElementKind::Responsibility => lemma_stripped(p, ch.id),
        ElementKind::Property => {
            if ch.owner_id is Some {
                let o = ch.owner_id->0;
                let q = reverted(p, c, ch);
                lemma_place_of::<Node>(p.nodes, o);
                let u = place_of::<Node>(p.nodes, o);
                assert forall|i: int|
                    0 <= i < q.nodes.len() && (#[trigger] q.nodes[i]).id == o implies !has_named::<
                    SchemaProperty,
                >(q.nodes[i].properties, ch.id) by {
                    assert(Node::name_of(p.nodes[i]) == o);
                    if i != u {
                        assert(Node::name_of(p.nodes[i]) != Node::name_of(p.nodes[u]));
                    }
                    lemma_others_has::<SchemaProperty>(p.nodes[u].properties, ch.id, ch.id);
                }
            }
        },
    }
}

proof fn lemma_others_differ<T: Named>(s: Seq<T::V>, id: Seq<char>)
    requires
        names_differ::<T>(s),
    ensures
        names_differ::<T>(others::<T>(s, id)),
    decreases s.len(),
{
    if s.len() > 0 {
        let d = s.drop_last();
        let o = others::<T>(d, id);
        let r = others::<T>(s, id);
        assert forall|i: int, j: int| 0 <= i < d.len() && 0 <= j < d.len() && i != j implies
            T::name_of(#[trigger] d[i]) != T::name_of(#[trigger] d[j]) by {
            assert(T::name_of(s[i]) != T::name_of(s[j]));
        }
        lemma_others_differ::<T>(d, id);
        assert forall|i: int| 0 <= i < o.len() implies T::name_of(#[trigger] o[i]) != T::name_of(
            s.last(),
        ) by {
            lemma_others_from::<T>(d, id, i);
            let j = choose|j: int| 0 <= j < d.len() && d[j] == o[i];
            assert(T::name_of(s[j]) != T::name_of(s[s.len() - 1]));
        }
        assert forall|i: int, j: int| 0 <= i < r.len() && 0 <= j < r.len() && i != j implies
            T::name_of(#[trigger] r[i]) != T::name_of(#[trigger] r[j]) by {
            if i < o.len() && j < o.len() {
                assert(T::name_of(o[i]) != T::name_of(o[j]));
            } else if i < o.len() {
                assert(T::name_of(o[i]) != T::name_of(s.last()));
            } else {
                assert(T::name_of(o[j]) != T::name_of(s.last()));
            }
        }
    }
}

proof fn lemma_still_differ(p: ScryModelView, c: ScryModelView, ch: ElementChangeView)
    requires
        names_differ::<Node>(p.nodes),
    ensures
        names_differ::<Node>(reverted(p, c, ch).nodes),
{
    let q = reverted(p, c, ch).nodes;
    if ch.kind == ElementKind::Node && adds(ch) {
        lemma_others_differ::<Node>(p.nodes, ch.id);
    } else {
        lemma_place_of::<Node>(p.nodes, ch.id);
        lemma_place_of::<Node>(c.nodes, ch.id);
        lemma_back_on_nodes(nodes_without_claim(p.nodes, ch.id), c.nodes, ch.id, ch.id);
        if ch.owner_id is Some {
            lemma_place_of::<Node>(p.nodes, ch.owner_id->0);
        }
        assert forall|i: int| 0 <= i < p.nodes.len() implies (#[trigger] q[i]).id == p.nodes[i].id by {
            if ch.kind == ElementKind::Responsibility && !adds(ch) {
                let ns = nodes_without_claim(p.nodes, ch.id);
                assert(kept(claims_back_on_nodes(ns, c.nodes, ch.id)[i], ns[i], c.nodes, ch.id));
            }
        }
        assert forall|i: int, j: int| 0 <= i < q.len() && 0 <= j < q.len() && i != j implies
            Node::name_of(#[trigger] q[i]) != Node::name_of(#[trigger] q[j]) by {
            if i < p.nodes.len() && j < p.nodes.len() {
                assert(Node::name_of(p.nodes[i]) != Node::name_of(p.nodes[j]));
            } else if i < p.nodes.len() {
                assert(Node::name_of(p.nodes[i]) != ch.id);
            } else {
                assert(Node::name_of(p.nodes[j]) != ch.id);
            }
        }
    }
}

/// What a change added is gone when the change is abandoned, whatever else it holds: the
/// plan does not have it, and nothing about it is pending.
pub proof fn law_an_abandoned_addition_is_gone(
    c: ScryModelView,
    p: ScryModelView,
    mine: Seq<ElementChangeView>,
    k: int,
)
    requires
        0 <= k < mine.len(),
        diff_of(c, p).contains(mine[k]),
        adds(mine[k]),
        names_differ::<Node>(p.nodes),
    ensures
        !has_element(all_reverted(p, c, mine), mine[k].kind, mine[k].owner_id, mine[k].id),
        said_of(c, all_reverted(p, c, mine), mine[k].kind, mine[k].owner_id, mine[k].id) is None,
{
    let ch = mine[k];
    lemma_addition_is_new(c, p, ch);
    lemma_gone_after(c, p, mine, k);
    lemma_nothing_said(c, all_reverted(p, c, mine), ch.kind, ch.owner_id, ch.id);
}

proof fn lemma_all_differ(c: ScryModelView, p: ScryModelView, mine: Seq<ElementChangeView>)
    requires
        names_differ::<Node>(p.nodes),
    ensures
        names_differ::<Node>(all_reverted(p, c, mine).nodes),
    decreases mine.len(),
{
    if mine.len() > 0 {
        lemma_all_differ(c, p, mine.drop_last());
        lemma_still_differ(all_reverted(p, c, mine.drop_last()), c, mine.last());
    }
}

proof fn lemma_gone_after(
    c: ScryModelView,
    p: ScryModelView,
    mine: Seq<ElementChangeView>,
    k: int,
)
    requires
        0 <= k < mine.len(),
        adds(mine[k]),
        !has_element(c, mine[k].kind, mine[k].owner_id, mine[k].id),
        names_differ::<Node>(p.nodes),
    ensures
        !has_element(all_reverted(p, c, mine), mine[k].kind, mine[k].owner_id, mine[k].id),
    decreases mine.len(),
{
    let d = mine.drop_last();
    let q = all_reverted(p, c, d);
    if k < d.len() {
        lemma_gone_after(c, p, d, k);
        law_taking_back_brings_nothing_new(
            q,
            c,
            mine.last(),
            mine[k].kind,
            mine[k].owner_id,
            mine[k].id,
        );
    } else {
        lemma_all_differ(c, p, d);
        lemma_addition_removed(q, c, mine.last());
    }
}

// ---- any entry --------------------------------------------------------------------------

/// Does taking an entry back settle it? The ids it is found by are used once, and what a
/// claim or a property goes back to is still in the plan.
pub open spec fn can_be_taken_back(
    c: ScryModelView,
    p: ScryModelView,
    ch: ElementChangeView,
) -> bool {
    match ch.kind {
        ElementKind::Node => names_differ::<Node>(c.nodes) && names_differ::<Node>(p.nodes),
        ElementKind::Link => names_differ::<Link>(c.links),
        ElementKind::Group => names_differ::<Group>(c.groups) && names_differ::<Group>(p.groups),
        ElementKind::Responsibility => claimed_once(c, ch.id) && host_is_planned(c, p, ch.id),
        ElementKind::Property => {
            &&& names_differ::<Node>(c.nodes)
            &&& names_differ::<Node>(p.nodes)
            &&& forall|i: int|
                0 <= i < c.nodes.len() ==> names_differ::<SchemaProperty>(
                    (#[trigger] c.nodes[i]).properties,
                )
            &&& ch.owner_id is Some ==> has_named::<Node>(p.nodes, ch.owner_id->0)
        },
    }
}

/// Where no entry names an element, nothing is said of it.
proof fn lemma_cleared_says_nothing(
    c: ScryModelView,
    p: ScryModelView,
    kind: ElementKind,
    owner: Option<Seq<char>>,
    id: Seq<char>,
)
    requires
        kind == ElementKind::Property ==> owner is Some && property_cleared(
            diff_of(c, p),
            owner->0,
            id,
        ),
        kind != ElementKind::Property ==> cleared(diff_of(c, p), kind, id),
    ensures
        said_of(c, p, kind, owner, id) is None,
{
    lemma_nodes_tell();
    lemma_links_tell();
    lemma_claims_tell();
    lemma_groups_tell();
    lemma_props_tell();
    if owner is Some {
        lemma_prop_index_owned(c.nodes, owner->0);
        lemma_prop_index_owned(p.nodes, owner->0);
    }
    if said_of(c, p, kind, owner, id) is Some {
        let e = said_of(c, p, kind, owner, id)->0;
        assert(e.kind == kind && e.id == id);
        assert(kind == ElementKind::Property ==> e.owner_id == owner);
        assert(said_of(c, p, e.kind, e.owner_id, e.id) == Some(e));
        law_a_plan_is_made_element_by_element(c, p, e);
        let d = diff_of(c, p);
        let i = choose|i: int| 0 <= i < d.len() && d[i] == e;
        assert(d[i].kind == kind && d[i].id == id);
    }
}

/// An entry that is taken back is not pending any more.
pub proof fn law_a_reverted_entry_is_not_pending(
    c: ScryModelView,
    p: ScryModelView,
    ch: ElementChangeView,
)
    requires
        diff_of(c, p).contains(ch),
        can_be_taken_back(c, p, ch),
    ensures
        said_of(c, reverted(p, c, ch), ch.kind, ch.owner_id, ch.id) is None,
{
    match ch.kind {
        ElementKind::Node => law_a_reverted_node_is_not_pending(c, p, ch),
        ElementKind::Link => law_a_reverted_link_is_not_pending(c, p, ch),
        ElementKind::Group => law_a_reverted_group_is_not_pending(c, p, ch),
        ElementKind::Responsibility => law_a_reverted_claim_is_not_pending(c, p, ch),
        ElementKind::Property => law_a_reverted_property_is_not_pending(c, p, ch),
    }
    lemma_cleared_says_nothing(c, reverted(p, c, ch), ch.kind, ch.owner_id, ch.id);
}

/// An entry of an abandoned change is not pending any more, as long as it can be taken back
/// when its turn comes and its element stands clear of the change's other entries.
#[verifier::rlimit(40)]
#[verifier::spinoff_prover]
pub proof fn law_an_abandoned_entry_is_not_pending(
    c: ScryModelView,
    p: ScryModelView,
    mine: Seq<ElementChangeView>,
    k: int,
)
    requires
        0 <= k < mine.len(),
        diff_of(c, p).contains(mine[k]),
        can_be_taken_back(c, all_reverted(p, c, mine.take(k)), mine[k]),
        forall|j: int|
            0 <= j < mine.len() && j != k ==> stands_clear(
                c,
                all_reverted(p, c, mine.take(j)),
                #[trigger] mine[j],
                mine[k].kind,
                mine[k].owner_id,
                mine[k].id,
            ),
    ensures
        said_of(c, all_reverted(p, c, mine), mine[k].kind, mine[k].owner_id, mine[k].id) is None,
    decreases mine.len(),
{
    let ch = mine[k];
    let d = mine.drop_last();
    let q = all_reverted(p, c, d);
    assert(mine.take(mine.len() - 1) =~= d);
    assert forall|j: int| 0 <= j < d.len() && j != k implies stands_clear(
        c,
        all_reverted(p, c, d.take(j)),
        #[trigger] d[j],
        ch.kind,
        ch.owner_id,
        ch.id,
    ) by {
        assert(d.take(j) =~= mine.take(j));
        assert(d[j] == mine[j]);
    }
    if k < d.len() {
        assert(d.take(k) =~= mine.take(k));
        law_an_abandoned_entry_is_not_pending(c, p, d, k);
        let n = mine.len() - 1;
        assert(stands_clear(
            c,
            all_reverted(p, c, mine.take(n)),
            mine[n],
            ch.kind,
            ch.owner_id,
            ch.id,
        ));
        law_taking_one_back_leaves_the_others(c, q, mine[n], ch.kind, ch.owner_id, ch.id);
    } else {
        assert(mine.take(k) =~= d);
        law_abandoning_leaves_the_others(c, p, d, ch.kind, ch.owner_id, ch.id);
        lemma_settled(c, p, q, ch);
    }
}

proof fn lemma_settled(c: ScryModelView, p: ScryModelView, q: ScryModelView, ch: ElementChangeView)
    requires
        diff_of(c, p).contains(ch),
        said_of(c, q, ch.kind, ch.owner_id, ch.id) == said_of(c, p, ch.kind, ch.owner_id, ch.id),
        can_be_taken_back(c, q, ch),
    ensures
        said_of(c, reverted(q, c, ch), ch.kind, ch.owner_id, ch.id) is None,
{
    law_a_plan_is_made_element_by_element(c, p, ch);
    law_a_plan_is_made_element_by_element(c, q, ch);
    law_a_reverted_entry_is_not_pending(c, q, ch);
}

} // verus!
