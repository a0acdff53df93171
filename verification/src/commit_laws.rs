//! What a fold leaves in the two layers, element by element.

use crate::changes::key;
use crate::commit::{
    clean, fold, group_gate, links_outside, members_outside, moved_in, node_gate, nodes_outside,
    not_there, removed_ids, Gate,
};
use crate::diff::{without, ElementKind};
use crate::drift::subtree;
use crate::ledger::foreign;
use crate::model::{
    claim_of, groups_without_claim, nodes_without_claim, Group, GroupView, Link, LinkView, Node,
    NodeView, Responsibility, ResponsibilityView, SchemaProperty, SchemaPropertyView, ScryModelView,
};
use crate::named::{first, has_named, lemma_place_of, others, place_of, Named};
use vstd::prelude::*;
use vstd::string::*;

verus! {

// ---- lists ------------------------------------------------------------------------------

/// A list is cut down in one way by two tests that agree on what is in it.
pub proof fn lemma_same_filter<A>(s: Seq<A>, p: spec_fn(A) -> bool, q: spec_fn(A) -> bool)
    requires
        forall|i: int| 0 <= i < s.len() ==> p(#[trigger] s[i]) == q(s[i]),
    ensures
        s.filter(p) == s.filter(q),
    decreases s.len(),
{
    reveal(Seq::filter);
    if s.len() > 0 {
        let d = s.drop_last();
        assert forall|i: int| 0 <= i < d.len() implies p(#[trigger] d[i]) == q(d[i]) by {
            assert(d[i] == s[i]);
        }
        lemma_same_filter(d, p, q);
        assert(s[s.len() - 1] == s.last());
    }
}

/// Where everything passes nothing is cut.
pub proof fn lemma_full_filter<A>(s: Seq<A>, p: spec_fn(A) -> bool)
    requires
        forall|i: int| 0 <= i < s.len() ==> p(#[trigger] s[i]),
    ensures
        s.filter(p) == s,
    decreases s.len(),
{
    reveal(Seq::filter);
    if s.len() > 0 {
        let d = s.drop_last();
        assert forall|i: int| 0 <= i < d.len() implies p(#[trigger] d[i]) by {
            assert(d[i] == s[i]);
        }
        lemma_full_filter(d, p);
        assert(s[s.len() - 1] == s.last());
        assert(d.push(s.last()) =~= s);
    }
}

proof fn lemma_others<T: Named>(s: Seq<T::V>, id: Seq<char>)
    ensures
        others::<T>(s, id) == s.filter(|x: T::V| T::name_of(x) != id),
    decreases s.len(),
{
    reveal(Seq::filter);
    if s.len() > 0 {
        lemma_others::<T>(s.drop_last(), id);
    }
}

/// The nodes not called `id` are those that remain.
pub proof fn lemma_other_nodes(s: Seq<NodeView>, id: Seq<char>)
    ensures
        others::<Node>(s, id) == s.filter(|x: NodeView| x.id != id),
{
    lemma_others::<Node>(s, id);
    lemma_same_filter(s, |x: NodeView| Node::name_of(x) != id, |x: NodeView| x.id != id);
}

/// The groups not called `id` are those that remain.
pub proof fn lemma_other_groups(s: Seq<GroupView>, id: Seq<char>)
    ensures
        others::<Group>(s, id) == s.filter(|x: GroupView| x.id != id),
{
    lemma_others::<Group>(s, id);
    lemma_same_filter(s, |x: GroupView| Group::name_of(x) != id, |x: GroupView| x.id != id);
}

/// The links not called `id` are those that remain.
pub proof fn lemma_other_links(s: Seq<LinkView>, id: Seq<char>)
    ensures
        others::<Link>(s, id) == s.filter(|x: LinkView| x.id != id),
{
    lemma_others::<Link>(s, id);
    lemma_same_filter(s, |x: LinkView| Link::name_of(x) != id, |x: LinkView| x.id != id);
}

/// The claims not called `id` are those that remain.
pub proof fn lemma_other_claims(s: Seq<ResponsibilityView>, id: Seq<char>)
    ensures
        others::<Responsibility>(s, id) == s.filter(|x: ResponsibilityView| x.id != id),
{
    lemma_others::<Responsibility>(s, id);
    lemma_same_filter(
        s,
        |x: ResponsibilityView| Responsibility::name_of(x) != id,
        |x: ResponsibilityView| x.id != id,
    );
}

/// The properties not called `label` are those that remain.
pub proof fn lemma_other_props(s: Seq<SchemaPropertyView>, label: Seq<char>)
    ensures
        others::<SchemaProperty>(s, label) == s.filter(|x: SchemaPropertyView| x.label != label),
{
    lemma_others::<SchemaProperty>(s, label);
    lemma_same_filter(
        s,
        |x: SchemaPropertyView| SchemaProperty::name_of(x) != label,
        |x: SchemaPropertyView| x.label != label,
    );
}

/// Is the node at `i` the first with its id?
pub open spec fn is_first_node(ns: Seq<NodeView>, i: int) -> bool {
    0 <= i < ns.len() && forall|k: int| 0 <= k < i ==> (#[trigger] ns[k]).id != ns[i].id
}

/// Is the group at `i` the first with its id?
pub open spec fn is_first_group(gs: Seq<GroupView>, i: int) -> bool {
    0 <= i < gs.len() && forall|k: int| 0 <= k < i ==> (#[trigger] gs[k]).id != gs[i].id
}

/// Is a node called `id` among them?
pub open spec fn node_among(ns: Seq<NodeView>, id: Seq<char>) -> bool {
    exists|k: int| 0 <= k < ns.len() && (#[trigger] ns[k]).id == id
}

/// Is a group called `id` among them?
pub open spec fn group_among(gs: Seq<GroupView>, id: Seq<char>) -> bool {
    exists|k: int| 0 <= k < gs.len() && (#[trigger] gs[k]).id == id
}

/// The first node of an id is where it stands.
pub proof fn lemma_first_node(ns: Seq<NodeView>, i: int)
    requires
        is_first_node(ns, i),
    ensures
        place_of::<Node>(ns, ns[i].id) == i,
        first::<Node>(ns, ns[i].id) == Some(ns[i]),
{
    let id = ns[i].id;
    lemma_place_of::<Node>(ns, id);
    let k = place_of::<Node>(ns, id);
    assert(Node::name_of(ns[i]) == id);
    if k < i {
        assert(Node::name_of(ns[k]) == id);
    }
}

/// The first group of an id is where it stands.
pub proof fn lemma_first_group(gs: Seq<GroupView>, i: int)
    requires
        is_first_group(gs, i),
    ensures
        place_of::<Group>(gs, gs[i].id) == i,
        first::<Group>(gs, gs[i].id) == Some(gs[i]),
{
    let id = gs[i].id;
    lemma_place_of::<Group>(gs, id);
    let k = place_of::<Group>(gs, id);
    assert(Group::name_of(gs[i]) == id);
    if k < i {
        assert(Group::name_of(gs[k]) == id);
    }
}

/// A node of the id is among them exactly where one goes by it.
pub proof fn lemma_node_among(ns: Seq<NodeView>, id: Seq<char>)
    ensures
        node_among(ns, id) == has_named::<Node>(ns, id),
{
    if node_among(ns, id) {
        let k = choose|k: int| 0 <= k < ns.len() && (#[trigger] ns[k]).id == id;
        assert(Node::name_of(ns[k]) == id);
    }
    if has_named::<Node>(ns, id) {
        let k = choose|k: int| 0 <= k < ns.len() && Node::name_of(#[trigger] ns[k]) == id;
        assert(ns[k].id == id);
    }
}

/// A group of the id is among them exactly where one goes by it.
pub proof fn lemma_group_among(gs: Seq<GroupView>, id: Seq<char>)
    ensures
        group_among(gs, id) == has_named::<Group>(gs, id),
{
    if group_among(gs, id) {
        let k = choose|k: int| 0 <= k < gs.len() && (#[trigger] gs[k]).id == id;
        assert(Group::name_of(gs[k]) == id);
    }
    if has_named::<Group>(gs, id) {
        let k = choose|k: int| 0 <= k < gs.len() && Group::name_of(#[trigger] gs[k]) == id;
        assert(gs[k].id == id);
    }
}

// ---- what rides with a host -------------------------------------------------------------

/// Does an element ride with its host? It does unless it is filed under a change and its
/// host is not filed under the same.
pub open spec fn rides(
    map: Map<Seq<char>, Seq<char>>,
    host_key: Seq<char>,
    key: Seq<char>,
) -> bool {
    map.contains_key(key) ==> map.contains_key(host_key) && map[host_key] == map[key]
}

/// Does a claim ride with its host? It must not await a verdict or be held back either.
pub open spec fn claim_rides(
    map: Map<Seq<char>, Seq<char>>,
    host_key: Seq<char>,
    withhold: Seq<Seq<char>>,
    r: ResponsibilityView,
) -> bool {
    r.vagrant != Some(true) && !withhold.contains(r.id) && rides(map, host_key, "resp:"@ + r.id)
}

/// Does a property ride with its node? It must not await a verdict either.
pub open spec fn property_rides(
    map: Map<Seq<char>, Seq<char>>,
    host_key: Seq<char>,
    owner: Seq<char>,
    q: SchemaPropertyView,
) -> bool {
    q.vagrant != Some(true) && rides(map, host_key, "prop:"@ + owner + ":"@ + q.label)
}

/// A claim that rode: nothing but the marks of drift are gone.
pub open spec fn settled_claim(r: ResponsibilityView) -> ResponsibilityView {
    ResponsibilityView { vagrant: None, stale: None, stale_proposal: None, ..r }
}

/// The claims of a host once it is folded: those that ride, in the plan's order, and behind
/// them the committed ones that the plan holds in a version that does not.
pub open spec fn claims_after(
    map: Map<Seq<char>, Seq<char>>,
    host_key: Seq<char>,
    withhold: Seq<Seq<char>>,
    planned: Seq<ResponsibilityView>,
    before: Seq<ResponsibilityView>,
) -> Seq<ResponsibilityView> {
    planned.filter(|r: ResponsibilityView| claim_rides(map, host_key, withhold, r)).map_values(
        |r: ResponsibilityView| settled_claim(r),
    ) + before.filter(
        |c: ResponsibilityView|
            exists|j: int|
                0 <= j < planned.len() && (#[trigger] planned[j]).id == c.id && !claim_rides(
                    map,
                    host_key,
                    withhold,
                    planned[j],
                ),
    )
}

/// The properties of a node once it is folded: those that ride, in the plan's order, and
/// behind them the committed ones that the plan holds in a version that does not.
pub open spec fn properties_after(
    map: Map<Seq<char>, Seq<char>>,
    host_key: Seq<char>,
    owner: Seq<char>,
    planned: Seq<SchemaPropertyView>,
    before: Seq<SchemaPropertyView>,
) -> Seq<SchemaPropertyView> {
    planned.filter(|q: SchemaPropertyView| property_rides(map, host_key, owner, q)).map_values(
        |q: SchemaPropertyView| SchemaPropertyView { stale: None, ..q },
    ) + before.filter(
        |c: SchemaPropertyView|
            exists|j: int|
                0 <= j < planned.len() && (#[trigger] planned[j]).label == c.label
                    && !property_rides(map, host_key, owner, planned[j]),
    )
}

proof fn lemma_rides(map: Map<Seq<char>, Seq<char>>, host_key: Seq<char>, key: Seq<char>)
    ensures
        rides(map, host_key, key) == !foreign(map, host_key, key),
{
}

proof fn lemma_folding(gate: Gate, rs: Seq<ResponsibilityView>)
    ensures
        gate.folding(rs) == rs.filter(
            |r: ResponsibilityView| claim_rides(gate.map, gate.host, gate.withhold, r),
        ).map_values(|r: ResponsibilityView| settled_claim(r)),
    decreases rs.len(),
{
    reveal(Seq::filter);
    let f = |r: ResponsibilityView| claim_rides(gate.map, gate.host, gate.withhold, r);
    let g = |r: ResponsibilityView| settled_claim(r);
    if rs.len() > 0 {
        let d = rs.drop_last();
        lemma_folding(gate, d);
        let r = rs.last();
        assert(gate.passes(r) == f(r));
        if f(r) {
            assert(clean(r) == settled_claim(r));
            assert(d.filter(f).push(r).map_values(g) =~= d.filter(f).map_values(g).push(g(r)));
        }
    } else {
        assert(rs.filter(f).map_values(g) =~= Seq::empty());
    }
}

proof fn lemma_kept(gate: Gate, prior: Seq<ResponsibilityView>, rs: Seq<ResponsibilityView>)
    ensures
        gate.kept(prior, rs) == prior.filter(
            |c: ResponsibilityView|
                exists|j: int|
                    0 <= j < rs.len() && (#[trigger] rs[j]).id == c.id && !claim_rides(
                        gate.map,
                        gate.host,
                        gate.withhold,
                        rs[j],
                    ),
        ),
    decreases prior.len(),
{
    reveal(Seq::filter);
    if prior.len() > 0 {
        lemma_kept(gate, prior.drop_last(), rs);
        let id = prior.last().id;
        if gate.stays_behind(rs, id) {
            let j = choose|j: int|
                0 <= j < rs.len() && (#[trigger] rs[j]).id == id && !gate.passes(rs[j]);
            assert(rs[j].id == id && !claim_rides(gate.map, gate.host, gate.withhold, rs[j]));
        } else {
            assert forall|j: int| 0 <= j < rs.len() && (#[trigger] rs[j]).id == id implies claim_rides(
                gate.map,
                gate.host,
                gate.withhold,
                rs[j],
            ) by {
                assert(gate.passes(rs[j]));
            }
        }
    }
}

proof fn lemma_folding_props(gate: Gate, owner: Seq<char>, ps: Seq<SchemaPropertyView>)
    ensures
        gate.folding_props(owner, ps) == ps.filter(
            |q: SchemaPropertyView| property_rides(gate.map, gate.host, owner, q),
        ).map_values(|q: SchemaPropertyView| SchemaPropertyView { stale: None, ..q }),
    decreases ps.len(),
{
    reveal(Seq::filter);
    let f = |q: SchemaPropertyView| property_rides(gate.map, gate.host, owner, q);
    let g = |q: SchemaPropertyView| SchemaPropertyView { stale: None, ..q };
    if ps.len() > 0 {
        let d = ps.drop_last();
        lemma_folding_props(gate, owner, d);
        let q = ps.last();
        assert(gate.passes_prop(owner, q) == f(q));
        if f(q) {
            assert(d.filter(f).push(q).map_values(g) =~= d.filter(f).map_values(g).push(g(q)));
        }
    } else {
        assert(ps.filter(f).map_values(g) =~= Seq::empty());
    }
}

proof fn lemma_kept_props(
    gate: Gate,
    owner: Seq<char>,
    prior: Seq<SchemaPropertyView>,
    ps: Seq<SchemaPropertyView>,
)
    ensures
        gate.kept_props(owner, prior, ps) == prior.filter(
            |c: SchemaPropertyView|
                exists|j: int|
                    0 <= j < ps.len() && (#[trigger] ps[j]).label == c.label && !property_rides(
                        gate.map,
                        gate.host,
                        owner,
                        ps[j],
                    ),
        ),
    decreases prior.len(),
{
    reveal(Seq::filter);
    if prior.len() > 0 {
        lemma_kept_props(gate, owner, prior.drop_last(), ps);
        let id = prior.last().label;
        if gate.prop_stays_behind(owner, ps, id) {
            let j = choose|j: int|
                0 <= j < ps.len() && (#[trigger] ps[j]).label == id && !gate.passes_prop(
                    owner,
                    ps[j],
                );
            assert(ps[j].label == id && !property_rides(gate.map, gate.host, owner, ps[j]));
        } else {
            assert forall|j: int| 0 <= j < ps.len() && (#[trigger] ps[j]).label == id implies
                property_rides(gate.map, gate.host, owner, ps[j]) by {
                assert(gate.passes_prop(owner, ps[j]));
            }
        }
    }
}

/// Is `k` the id of one of the claims that ride?
pub open spec fn is_riding(
    map: Map<Seq<char>, Seq<char>>,
    host_key: Seq<char>,
    withhold: Seq<Seq<char>>,
    rs: Seq<ResponsibilityView>,
    k: Seq<char>,
) -> bool {
    exists|j: int|
        0 <= j < rs.len() && (#[trigger] rs[j]).id == k && claim_rides(
            map,
            host_key,
            withhold,
            rs[j],
        )
}

proof fn lemma_folding_ids(gate: Gate, rs: Seq<ResponsibilityView>, k: Seq<char>)
    ensures
        gate.folding_ids(rs).contains(k) == is_riding(gate.map, gate.host, gate.withhold, rs, k),
    decreases rs.len(),
{
    if rs.len() > 0 {
        let d = rs.drop_last();
        let r = rs.last();
        let a = gate.folding_ids(d);
        let b = gate.folding_ids(rs);
        lemma_folding_ids(gate, d, k);
        assert(gate.passes(r) == claim_rides(gate.map, gate.host, gate.withhold, r));
        assert(rs[rs.len() - 1] == r);
        if a.contains(k) {
            let i = choose|i: int| 0 <= i < a.len() && a[i] == k;
            assert(b[i] == k);
            let j = choose|j: int|
                0 <= j < d.len() && (#[trigger] d[j]).id == k && claim_rides(
                    gate.map,
                    gate.host,
                    gate.withhold,
                    d[j],
                );
            assert(rs[j].id == k);
        }
        if gate.passes(r) {
            assert(b[a.len() as int] == r.id);
        }
        if b.contains(k) && !a.contains(k) {
            let i = choose|i: int| 0 <= i < b.len() && b[i] == k;
            if i < a.len() {
                assert(a[i] == k);
            }
            assert(r.id == k);
        }
        if is_riding(gate.map, gate.host, gate.withhold, rs, k) {
            let j = choose|j: int|
                0 <= j < rs.len() && (#[trigger] rs[j]).id == k && claim_rides(
                    gate.map,
                    gate.host,
                    gate.withhold,
                    rs[j],
                );
            if j < d.len() {
                assert(d[j].id == k);
            }
        }
    }
}

/// Have the anchors at the keys moved: out of the plan, and into committed where the plan had
/// them, and nowhere else?
pub open spec fn anchors_moved<A>(
    was: Map<Seq<char>, A>,
    plan: Map<Seq<char>, A>,
    is_now: Map<Seq<char>, A>,
    plan_now: Map<Seq<char>, A>,
    moves: spec_fn(Seq<char>) -> bool,
) -> bool {
    forall|k: Seq<char>|
        #![trigger is_now.contains_key(k)]
        #![trigger plan_now.contains_key(k)]
        {
            &&& plan_now.contains_key(k) <==> plan.contains_key(k) && !moves(k)
            &&& plan_now.contains_key(k) ==> plan_now[k] == plan[k]
            &&& is_now.contains_key(k) <==> was.contains_key(k) || (plan.contains_key(k) && moves(
                k,
            ))
            &&& is_now.contains_key(k) ==> is_now[k] == if plan.contains_key(k) && moves(k) {
                plan[k]
            } else {
                was[k]
            }
        }
}

proof fn lemma_anchors_moved<A>(
    was: Map<Seq<char>, A>,
    plan: Map<Seq<char>, A>,
    ks: Seq<Seq<char>>,
    moves: spec_fn(Seq<char>) -> bool,
)
    requires
        forall|k: Seq<char>| #[trigger] ks.contains(k) == moves(k),
    ensures
        anchors_moved(was, plan, moved_in(was, plan, ks), plan.remove_keys(ks.to_set()), moves),
{
    let is_now = moved_in(was, plan, ks);
    let plan_now = plan.remove_keys(ks.to_set());
    assert forall|k: Seq<char>|
        #![trigger is_now.contains_key(k)]
        #![trigger plan_now.contains_key(k)]
        {
            &&& plan_now.contains_key(k) <==> plan.contains_key(k) && !moves(k)
            &&& plan_now.contains_key(k) ==> plan_now[k] == plan[k]
            &&& is_now.contains_key(k) <==> was.contains_key(k) || (plan.contains_key(k) && moves(
                k,
            ))
            &&& is_now.contains_key(k) ==> is_now[k] == if plan.contains_key(k) && moves(k) {
                plan[k]
            } else {
                was[k]
            }
        } by {
        assert(ks.to_set().contains(k) == ks.contains(k));
        assert(ks.contains(k) == moves(k));
    }
}

// ---- nodes ------------------------------------------------------------------------------

/// The committed claims of the first node called `id`, if there is one.
pub open spec fn claims_before(ns: Seq<NodeView>, id: Seq<char>) -> Seq<ResponsibilityView> {
    match first::<Node>(ns, id) {
        Some(n) => n.responsibilities,
        None => Seq::empty(),
    }
}

/// The committed properties of the first node called `id`, if there is one.
pub open spec fn properties_before(ns: Seq<NodeView>, id: Seq<char>) -> Seq<SchemaPropertyView> {
    match first::<Node>(ns, id) {
        Some(n) => n.properties,
        None => Seq::empty(),
    }
}

/// A planned node folds exactly where it is a root or its parent is committed and is not
/// itself. It then stands in committed as it is planned, without marks, with the claims and
/// the properties that ride with it, in the plan's order; behind them the committed ones stay
/// that the plan holds in a version that does not ride. It stands behind the other nodes,
/// which stay as they were.
pub proof fn law_a_folded_node_is_as_planned(
    m: ScryModelView,
    p: ScryModelView,
    i: int,
    withhold: Seq<Seq<char>>,
)
    requires
        is_first_node(p.nodes, i),
    ensures
        ({
            let n = p.nodes[i];
            let host = "node:"@ + n.id;
            let r = fold(m, p, ElementKind::Node, None, n.id, withhold);
            &&& r is Ok <==> (n.parent_id is Some ==> n.parent_id->0 != n.id && node_among(
                m.nodes,
                n.parent_id->0,
            ))
            &&& r is Ok ==> {
                let c = r->Ok_0.committed;
                &&& c.nodes == m.nodes.filter(|x: NodeView| x.id != n.id).push(
                    NodeView {
                        vagrant: None,
                        stale: None,
                        responsibilities: claims_after(
                            p.change_map,
                            host,
                            withhold,
                            n.responsibilities,
                            claims_before(m.nodes, n.id),
                        ),
                        properties: properties_after(
                            p.change_map,
                            host,
                            n.id,
                            n.properties,
                            properties_before(m.nodes, n.id),
                        ),
                        ..n
                    },
                )
                &&& c == (ScryModelView {
                    nodes: c.nodes,
                    source_map: c.source_map,
                    test_map: c.test_map,
                    boundaries: c.boundaries,
                    ..m
                })
            }
        }),
{
    let n = p.nodes[i];
    let gate = node_gate(p, n.id, withhold);
    lemma_first_node(p.nodes, i);
    lemma_other_nodes(m.nodes, n.id);
    lemma_folding(gate, n.responsibilities);
    lemma_folding_props(gate, n.id, n.properties);
    if n.parent_id is Some {
        lemma_node_among(m.nodes, n.parent_id->0);
    }
    reveal(Seq::filter);
    match first::<Node>(m.nodes, n.id) {
        Some(q) => {
            lemma_kept(gate, q.responsibilities, n.responsibilities);
            lemma_kept_props(gate, n.id, q.properties, n.properties);
        },
        None => {},
    }
    let r = fold(m, p, ElementKind::Node, None, n.id, withhold);
    if r is Ok {
        let w = gate.node_copy(n, first::<Node>(m.nodes, n.id));
        assert(w.responsibilities =~= claims_after(
            p.change_map,
            "node:"@ + n.id,
            withhold,
            n.responsibilities,
            claims_before(m.nodes, n.id),
        ));
        assert(w.properties =~= properties_after(
            p.change_map,
            "node:"@ + n.id,
            n.id,
            n.properties,
            properties_before(m.nodes, n.id),
        ));
    }
}

/// Where a planned node folds, its own anchors, those of the claims that ride with it and its
/// boundaries move out of the plan and into committed; no others do. In the plan it stays
/// where it is, without its marks, and what rode is without its drift marks; everything else
/// that the plan is made of stays as it was.
pub proof fn law_a_folded_node_takes_its_anchors(
    m: ScryModelView,
    p: ScryModelView,
    i: int,
    withhold: Seq<Seq<char>>,
)
    requires
        is_first_node(p.nodes, i),
        fold(m, p, ElementKind::Node, None, p.nodes[i].id, withhold) is Ok,
    ensures
        ({
            let n = p.nodes[i];
            let host = "node:"@ + n.id;
            let f = fold(m, p, ElementKind::Node, None, n.id, withhold)->Ok_0;
            let (c, q) = (f.committed, f.planned);
            let moves = |k: Seq<char>|
                k == n.id || is_riding(p.change_map, host, withhold, n.responsibilities, k);
            &&& anchors_moved(m.source_map, p.source_map, c.source_map, q.source_map, moves)
            &&& anchors_moved(m.test_map, p.test_map, c.test_map, q.test_map, moves)
            &&& anchors_moved(
                m.boundaries,
                p.boundaries,
                c.boundaries,
                q.boundaries,
                |k: Seq<char>| k == n.id,
            )
            &&& q.nodes == p.nodes.update(
                i,
                NodeView {
                    vagrant: None,
                    stale: None,
                    responsibilities: n.responsibilities.map_values(
                        |x: ResponsibilityView|
                            if claim_rides(p.change_map, host, withhold, x) {
                                ResponsibilityView { stale: None, stale_proposal: None, ..x }
                            } else {
                                x
                            },
                    ),
                    properties: n.properties.map_values(
                        |x: SchemaPropertyView|
                            if property_rides(p.change_map, host, n.id, x) {
                                SchemaPropertyView { stale: None, ..x }
                            } else {
                                x
                            },
                    ),
                    ..n
                },
            )
            &&& q.links == p.links && q.groups == p.groups && q.concerns == p.concerns && q.policy
                == p.policy && q.version == p.version
        }),
{
    let n = p.nodes[i];
    let host = "node:"@ + n.id;
    let gate = node_gate(p, n.id, withhold);
    lemma_first_node(p.nodes, i);
    let moves = |k: Seq<char>|
        k == n.id || is_riding(p.change_map, host, withhold, n.responsibilities, k);
    let rest = gate.folding_ids(n.responsibilities);
    let ks = seq![n.id] + rest;
    assert forall|k: Seq<char>| #[trigger] ks.contains(k) == moves(k) by {
        lemma_folding_ids(gate, n.responsibilities, k);
        assert(ks[0] == n.id);
        if rest.contains(k) {
            let j = choose|j: int| 0 <= j < rest.len() && rest[j] == k;
            assert(ks[j + 1] == k);
        }
        if ks.contains(k) && k != n.id {
            let j = choose|j: int| 0 <= j < ks.len() && ks[j] == k;
            assert(rest[j - 1] == k);
        }
    }
    lemma_anchors_moved(m.source_map, p.source_map, ks, moves);
    lemma_anchors_moved(m.test_map, p.test_map, ks, moves);
    let one = |k: Seq<char>| k == n.id;
    assert forall|k: Seq<char>| #[trigger] seq![n.id].contains(k) == one(k) by {
        assert(seq![n.id][0] == n.id);
    }
    lemma_anchors_moved(m.boundaries, p.boundaries, seq![n.id], one);
    let q = fold(m, p, ElementKind::Node, None, n.id, withhold)->Ok_0.planned;
    assert(gate.resolved(n.responsibilities) =~= n.responsibilities.map_values(
        |x: ResponsibilityView|
            if claim_rides(p.change_map, host, withhold, x) {
                ResponsibilityView { stale: None, stale_proposal: None, ..x }
            } else {
                x
            },
    )) by {
        assert forall|j: int| 0 <= j < n.responsibilities.len() implies gate.passes(
            #[trigger] n.responsibilities[j],
        ) == claim_rides(p.change_map, host, withhold, n.responsibilities[j]) by {}
    }
    assert(gate.resolved_props(n.id, n.properties) =~= n.properties.map_values(
        |x: SchemaPropertyView|
            if property_rides(p.change_map, host, n.id, x) {
                SchemaPropertyView { stale: None, ..x }
            } else {
                x
            },
    ));
}

// ---- links ------------------------------------------------------------------------------

/// A planned link folds exactly where both its ends are committed. It then stands in
/// committed as it is planned, behind the other links; nothing else of committed changes.
pub proof fn law_a_folded_link_is_as_planned(m: ScryModelView, p: ScryModelView, i: int)
    requires
        0 <= i < p.links.len(),
        forall|k: int| 0 <= k < i ==> (#[trigger] p.links[k]).id != p.links[i].id,
    ensures
        ({
            let l = p.links[i];
            let r = fold(m, p, ElementKind::Link, None, l.id, Seq::empty());
            &&& r is Ok <==> node_among(m.nodes, l.src) && node_among(m.nodes, l.dst)
            &&& r is Ok ==> r->Ok_0.committed == (ScryModelView {
                links: m.links.filter(|x: LinkView| x.id != l.id).push(l),
                ..m
            })
            &&& r is Ok ==> r->Ok_0.planned.nodes == p.nodes && r->Ok_0.planned.links == p.links
                && r->Ok_0.planned.groups == p.groups
        }),
{
    let l = p.links[i];
    lemma_place_of::<Link>(p.links, l.id);
    let k = place_of::<Link>(p.links, l.id);
    assert(Link::name_of(p.links[i]) == l.id);
    if k < i {
        assert(Link::name_of(p.links[k]) == l.id);
    }
    lemma_node_among(m.nodes, l.src);
    lemma_node_among(m.nodes, l.dst);
    lemma_other_links(m.links, l.id);
}

/// A link that the plan does not have is folded out of both layers; nothing else of committed
/// changes.
pub proof fn law_a_dropped_link_goes(m: ScryModelView, p: ScryModelView, id: Seq<char>)
    requires
        forall|k: int| 0 <= k < p.links.len() ==> (#[trigger] p.links[k]).id != id,
    ensures
        ({
            let r = fold(m, p, ElementKind::Link, None, id, Seq::empty());
            &&& r is Ok
            &&& r->Ok_0.rewrites
            &&& r->Ok_0.committed == (ScryModelView {
                links: m.links.filter(|x: LinkView| x.id != id),
                ..m
            })
            &&& r->Ok_0.planned.links == p.links
        }),
{
    lemma_place_of::<Link>(p.links, id);
    let k = place_of::<Link>(p.links, id);
    if k < p.links.len() {
        assert(Link::name_of(p.links[k]) == id);
    }
    lemma_other_links(m.links, id);
    lemma_other_links(p.links, id);
    lemma_full_filter(p.links, |x: LinkView| x.id != id);
}

// ---- groups -----------------------------------------------------------------------------

/// The committed claims of the first group called `id`, if there is one.
pub open spec fn group_claims_before(gs: Seq<GroupView>, id: Seq<char>) -> Seq<ResponsibilityView> {
    match first::<Group>(gs, id) {
        Some(g) => g.responsibilities,
        None => Seq::empty(),
    }
}

proof fn lemma_first_absent(ms: Seq<Seq<char>>, ns: Seq<NodeView>)
    ensures
        crate::commit::first_absent(ms, ns) is None <==> forall|k: int|
            0 <= k < ms.len() ==> node_among(ns, #[trigger] ms[k]),
    decreases ms.len(),
{
    if ms.len() > 0 {
        let t = ms.drop_first();
        lemma_first_absent(t, ns);
        lemma_node_among(ns, ms[0]);
        if crate::commit::first_absent(ms, ns) is None {
            assert forall|k: int| 0 <= k < ms.len() implies node_among(ns, #[trigger] ms[k]) by {
                if k > 0 {
                    assert(node_among(ns, t[k - 1]));
                }
            }
        } else if forall|k: int| 0 <= k < ms.len() ==> node_among(ns, #[trigger] ms[k]) {
            assert(node_among(ns, ms[0]));
            assert forall|k: int| 0 <= k < t.len() implies node_among(ns, #[trigger] t[k]) by {
                assert(node_among(ns, ms[k + 1]));
            }
        }
    }
}

/// A planned group folds exactly where its members, the node it hangs on and another group
/// that it names as its parent are committed. It then stands in committed as it is planned,
/// with the claims that ride with it, in the plan's order, and behind them the committed ones
/// that the plan holds in a version that does not; behind the other groups, which stay as
/// they were. The anchors of the claims that ride move out of the plan and into committed.
pub proof fn law_a_folded_group_is_as_planned(
    m: ScryModelView,
    p: ScryModelView,
    i: int,
    withhold: Seq<Seq<char>>,
)
    requires
        is_first_group(p.groups, i),
    ensures
        ({
            let g = p.groups[i];
            let host = "group:"@ + g.id;
            let r = fold(m, p, ElementKind::Group, None, g.id, withhold);
            &&& r is Ok <==> {
                &&& g.parent_node_id is Some ==> node_among(m.nodes, g.parent_node_id->0)
                &&& g.parent_group_id is Some ==> g.parent_group_id->0 != g.id && group_among(
                    m.groups,
                    g.parent_group_id->0,
                )
                &&& forall|k: int|
                    0 <= k < g.member_ids.len() ==> node_among(m.nodes, #[trigger] g.member_ids[k])
            }
            &&& r is Ok ==> {
                let (c, q) = (r->Ok_0.committed, r->Ok_0.planned);
                let moves = |k: Seq<char>|
                    is_riding(p.change_map, host, withhold, g.responsibilities, k);
                &&& c == (ScryModelView {
                    groups: m.groups.filter(|x: GroupView| x.id != g.id).push(
                        GroupView {
                            responsibilities: claims_after(
                                p.change_map,
                                host,
                                withhold,
                                g.responsibilities,
                                group_claims_before(m.groups, g.id),
                            ),
                            ..g
                        },
                    ),
                    source_map: c.source_map,
                    test_map: c.test_map,
                    ..m
                })
                &&& anchors_moved(m.source_map, p.source_map, c.source_map, q.source_map, moves)
                &&& anchors_moved(m.test_map, p.test_map, c.test_map, q.test_map, moves)
                &&& q.nodes == p.nodes && q.links == p.links && q.boundaries == p.boundaries
                &&& q.groups == p.groups.update(
                    i,
                    GroupView {
                        responsibilities: g.responsibilities.map_values(
                            |x: ResponsibilityView|
                                if claim_rides(p.change_map, host, withhold, x) {
                                    ResponsibilityView { stale: None, stale_proposal: None, ..x }
                                } else {
                                    x
                                },
                        ),
                        ..g
                    },
                )
            }
        }),
{
    let g = p.groups[i];
    let host = "group:"@ + g.id;
    let gate = group_gate(p, g.id, withhold);
    lemma_first_group(p.groups, i);
    lemma_other_groups(m.groups, g.id);
    lemma_folding(gate, g.responsibilities);
    lemma_first_absent(g.member_ids, m.nodes);
    if g.parent_node_id is Some {
        lemma_node_among(m.nodes, g.parent_node_id->0);
    }
    if g.parent_group_id is Some {
        lemma_group_among(m.groups, g.parent_group_id->0);
        crate::fold_laws::lemma_others_has::<Group>(m.groups, g.id, g.parent_group_id->0);
    }
    reveal(Seq::filter);
    match first::<Group>(m.groups, g.id) {
        Some(q) => {
            lemma_kept(gate, q.responsibilities, g.responsibilities);
        },
        None => {},
    }
    let r = fold(m, p, ElementKind::Group, None, g.id, withhold);
    if r is Ok {
        let w = gate.group_copy(g, first::<Group>(m.groups, g.id));
        assert(w.responsibilities =~= claims_after(
            p.change_map,
            host,
            withhold,
            g.responsibilities,
            group_claims_before(m.groups, g.id),
        ));
        let moves = |k: Seq<char>| is_riding(p.change_map, host, withhold, g.responsibilities, k);
        let ks = gate.folding_ids(g.responsibilities);
        assert forall|k: Seq<char>| #[trigger] ks.contains(k) == moves(k) by {
            lemma_folding_ids(gate, g.responsibilities, k);
        }
        lemma_anchors_moved(m.source_map, p.source_map, ks, moves);
        lemma_anchors_moved(m.test_map, p.test_map, ks, moves);
        assert forall|j: int| 0 <= j < g.responsibilities.len() implies gate.passes(
            #[trigger] g.responsibilities[j],
        ) == claim_rides(p.change_map, host, withhold, g.responsibilities[j]) by {}
        assert(gate.resolved(g.responsibilities) =~= g.responsibilities.map_values(
            |x: ResponsibilityView|
                if claim_rides(p.change_map, host, withhold, x) {
                    ResponsibilityView { stale: None, stale_proposal: None, ..x }
                } else {
                    x
                },
        ));
    }
}

/// A group that the plan does not have is folded out of both layers, and the anchors of the
/// claims it made go with it; nothing else of committed changes.
pub proof fn law_a_dropped_group_goes(m: ScryModelView, p: ScryModelView, id: Seq<char>)
    requires
        !group_among(p.groups, id),
    ensures
        ({
            let r = fold(m, p, ElementKind::Group, None, id, Seq::empty());
            let was = group_claims_before(m.groups, id);
            let goes = |k: Seq<char>|
                exists|j: int| 0 <= j < was.len() && (#[trigger] was[j]).id == k;
            &&& r is Ok
            &&& r->Ok_0.rewrites
            &&& {
                let c = r->Ok_0.committed;
                &&& c == (ScryModelView {
                    groups: m.groups.filter(|x: GroupView| x.id != id),
                    source_map: c.source_map,
                    test_map: c.test_map,
                    ..m
                })
                &&& only_gone(m.source_map, c.source_map, goes)
                &&& only_gone(m.test_map, c.test_map, goes)
            }
            &&& r->Ok_0.planned.groups == p.groups
        }),
{
    lemma_group_among(p.groups, id);
    lemma_place_of::<Group>(p.groups, id);
    lemma_other_groups(m.groups, id);
    lemma_other_groups(p.groups, id);
    assert forall|k: int| 0 <= k < p.groups.len() implies (#[trigger] p.groups[k]).id != id by {
        assert(!group_among(p.groups, id));
    }
    lemma_full_filter(p.groups, |x: GroupView| x.id != id);
    let was = group_claims_before(m.groups, id);
    let goes = |k: Seq<char>| exists|j: int| 0 <= j < was.len() && (#[trigger] was[j]).id == k;
    let ns = crate::ids::names::<Responsibility>(was);
    assert forall|k: Seq<char>| #[trigger] ns.contains(k) == goes(k) by {
        lemma_names(was, k);
    }
    lemma_only_gone(m.source_map, ns, goes);
    lemma_only_gone(m.test_map, ns, goes);
    assert(crate::ids::names::<Responsibility>(Seq::<ResponsibilityView>::empty())
        =~= Seq::<Seq<char>>::empty());
}

/// Is a map as it was, but for the keys that go?
pub open spec fn only_gone<A>(
    was: Map<Seq<char>, A>,
    is_now: Map<Seq<char>, A>,
    goes: spec_fn(Seq<char>) -> bool,
) -> bool {
    forall|k: Seq<char>| #[trigger]
        is_now.contains_key(k) <==> was.contains_key(k) && !goes(k) && is_now[k] == was[k]
}

proof fn lemma_only_gone<A>(
    was: Map<Seq<char>, A>,
    ks: Seq<Seq<char>>,
    goes: spec_fn(Seq<char>) -> bool,
)
    requires
        forall|k: Seq<char>| #[trigger] ks.contains(k) == goes(k),
    ensures
        only_gone(was, was.remove_keys(ks.to_set()), goes),
{
    let is_now = was.remove_keys(ks.to_set());
    assert forall|k: Seq<char>| #[trigger] is_now.contains_key(k) <==> was.contains_key(k) && !goes(
        k,
    ) && is_now[k] == was[k] by {
        assert(ks.to_set().contains(k) == ks.contains(k));
        assert(ks.contains(k) == goes(k));
    }
}

proof fn lemma_names(rs: Seq<ResponsibilityView>, k: Seq<char>)
    ensures
        crate::ids::names::<Responsibility>(rs).contains(k) == exists|j: int|
            0 <= j < rs.len() && (#[trigger] rs[j]).id == k,
{
    let ns = crate::ids::names::<Responsibility>(rs);
    assert(ns.len() == rs.len());
    if ns.contains(k) {
        let j = choose|j: int| 0 <= j < ns.len() && ns[j] == k;
        assert(rs[j].id == k);
    }
    if exists|j: int| 0 <= j < rs.len() && (#[trigger] rs[j]).id == k {
        let j = choose|j: int| 0 <= j < rs.len() && (#[trigger] rs[j]).id == k;
        assert(ns[j] == k);
    }
}

// ---- claims -----------------------------------------------------------------------------

/// Is the claim called `id` nowhere in the model?
pub open spec fn claim_nowhere(m: ScryModelView, id: Seq<char>) -> bool {
    &&& forall|i: int, k: int|
        #![trigger m.nodes[i].responsibilities[k]]
        0 <= i < m.nodes.len() && 0 <= k < m.nodes[i].responsibilities.len()
            ==> m.nodes[i].responsibilities[k].id != id
    &&& forall|i: int, k: int|
        #![trigger m.groups[i].responsibilities[k]]
        0 <= i < m.groups.len() && 0 <= k < m.groups[i].responsibilities.len()
            ==> m.groups[i].responsibilities[k].id != id
}

/// Is the claim at `k` on the node at `i` the first of its id, on the nodes in order?
pub open spec fn is_first_claim(ns: Seq<NodeView>, i: int, k: int) -> bool {
    &&& 0 <= i < ns.len()
    &&& 0 <= k < ns[i].responsibilities.len()
    &&& forall|j: int|
        0 <= j < k ==> (#[trigger] ns[i].responsibilities[j]).id != ns[i].responsibilities[k].id
    &&& forall|h: int, j: int|
        #![trigger ns[h].responsibilities[j]]
        0 <= h < i && 0 <= j < ns[h].responsibilities.len() ==> ns[h].responsibilities[j].id
            != ns[i].responsibilities[k].id
}

/// Is the claim at `k` on the group at `i` the first of its id, on the groups in order?
pub open spec fn is_first_group_claim(gs: Seq<GroupView>, i: int, k: int) -> bool {
    &&& 0 <= i < gs.len()
    &&& 0 <= k < gs[i].responsibilities.len()
    &&& forall|j: int|
        0 <= j < k ==> (#[trigger] gs[i].responsibilities[j]).id != gs[i].responsibilities[k].id
    &&& forall|h: int, j: int|
        #![trigger gs[h].responsibilities[j]]
        0 <= h < i && 0 <= j < gs[h].responsibilities.len() ==> gs[h].responsibilities[j].id
            != gs[i].responsibilities[k].id
}

proof fn lemma_first_in(rs: Seq<ResponsibilityView>, k: int)
    requires
        0 <= k < rs.len(),
        forall|j: int| 0 <= j < k ==> (#[trigger] rs[j]).id != rs[k].id,
    ensures
        first::<Responsibility>(rs, rs[k].id) == Some(rs[k]),
{
    lemma_place_of::<Responsibility>(rs, rs[k].id);
    let q = place_of::<Responsibility>(rs, rs[k].id);
    assert(Responsibility::name_of(rs[k]) == rs[k].id);
    if q < k {
        assert(Responsibility::name_of(rs[q]) == rs[k].id);
    }
}

proof fn lemma_none_in(rs: Seq<ResponsibilityView>, id: Seq<char>)
    requires
        forall|j: int| 0 <= j < rs.len() ==> (#[trigger] rs[j]).id != id,
    ensures
        first::<Responsibility>(rs, id) is None,
        rs.filter(|x: ResponsibilityView| x.id != id) == rs,
{
    lemma_place_of::<Responsibility>(rs, id);
    let q = place_of::<Responsibility>(rs, id);
    if q < rs.len() {
        assert(Responsibility::name_of(rs[q]) == id);
    }
    lemma_full_filter(rs, |x: ResponsibilityView| x.id != id);
}

/// The first claim of an id on the nodes is found, with its host.
pub proof fn lemma_node_claim_found(ns: Seq<NodeView>, i: int, k: int)
    requires
        is_first_claim(ns, i, k),
    ensures
        crate::model::node_claim(ns, ns[i].responsibilities[k].id) == Some(
            (ns[i].id, ns[i].responsibilities[k]),
        ),
    decreases ns.len(),
{
    let id = ns[i].responsibilities[k].id;
    if i == 0 {
        lemma_first_in(ns[0].responsibilities, k);
    } else {
        assert forall|j: int| 0 <= j < ns[0].responsibilities.len() implies (
        #[trigger] ns[0].responsibilities[j]).id != id by {}
        lemma_none_in(ns[0].responsibilities, id);
        let t = ns.drop_first();
        assert(t[i - 1] == ns[i]);
        assert forall|h: int, j: int|
            #![trigger t[h].responsibilities[j]]
            0 <= h < i - 1 && 0 <= j < t[h].responsibilities.len() implies t[h].responsibilities[j].id
            != id by {
            assert(t[h] == ns[h + 1]);
            assert(ns[h + 1].responsibilities[j].id != id);
        }
        lemma_node_claim_found(t, i - 1, k);
    }
}

/// The first claim of an id on the groups is found, with its host.
pub proof fn lemma_group_claim_found(gs: Seq<GroupView>, i: int, k: int)
    requires
        is_first_group_claim(gs, i, k),
    ensures
        crate::model::group_claim(gs, gs[i].responsibilities[k].id) == Some(
            (gs[i].id, gs[i].responsibilities[k]),
        ),
    decreases gs.len(),
{
    let id = gs[i].responsibilities[k].id;
    if i == 0 {
        lemma_first_in(gs[0].responsibilities, k);
    } else {
        assert forall|j: int| 0 <= j < gs[0].responsibilities.len() implies (
        #[trigger] gs[0].responsibilities[j]).id != id by {}
        lemma_none_in(gs[0].responsibilities, id);
        let t = gs.drop_first();
        assert(t[i - 1] == gs[i]);
        assert forall|h: int, j: int|
            #![trigger t[h].responsibilities[j]]
            0 <= h < i - 1 && 0 <= j < t[h].responsibilities.len() implies t[h].responsibilities[j].id
            != id by {
            assert(t[h] == gs[h + 1]);
            assert(gs[h + 1].responsibilities[j].id != id);
        }
        lemma_group_claim_found(t, i - 1, k);
    }
}

/// No claim of an id on the nodes: none is found.
pub proof fn lemma_no_node_claim(ns: Seq<NodeView>, id: Seq<char>)
    requires
        forall|i: int, k: int|
            #![trigger ns[i].responsibilities[k]]
            0 <= i < ns.len() && 0 <= k < ns[i].responsibilities.len()
                ==> ns[i].responsibilities[k].id != id,
    ensures
        crate::model::node_claim(ns, id) is None,
    decreases ns.len(),
{
    if ns.len() > 0 {
        assert forall|j: int| 0 <= j < ns[0].responsibilities.len() implies (
        #[trigger] ns[0].responsibilities[j]).id != id by {}
        lemma_none_in(ns[0].responsibilities, id);
        let t = ns.drop_first();
        assert forall|i: int, k: int|
            #![trigger t[i].responsibilities[k]]
            0 <= i < t.len() && 0 <= k < t[i].responsibilities.len() implies t[i].responsibilities[k].id
            != id by {
            assert(t[i] == ns[i + 1]);
            assert(ns[i + 1].responsibilities[k].id != id);
        }
        lemma_no_node_claim(t, id);
    }
}

/// No claim of an id on the groups: none is found.
pub proof fn lemma_no_group_claim(gs: Seq<GroupView>, id: Seq<char>)
    requires
        forall|i: int, k: int|
            #![trigger gs[i].responsibilities[k]]
            0 <= i < gs.len() && 0 <= k < gs[i].responsibilities.len()
                ==> gs[i].responsibilities[k].id != id,
    ensures
        crate::model::group_claim(gs, id) is None,
    decreases gs.len(),
{
    if gs.len() > 0 {
        assert forall|j: int| 0 <= j < gs[0].responsibilities.len() implies (
        #[trigger] gs[0].responsibilities[j]).id != id by {}
        lemma_none_in(gs[0].responsibilities, id);
        let t = gs.drop_first();
        assert forall|i: int, k: int|
            #![trigger t[i].responsibilities[k]]
            0 <= i < t.len() && 0 <= k < t[i].responsibilities.len() implies t[i].responsibilities[k].id
            != id by {
            assert(t[i] == gs[i + 1]);
            assert(gs[i + 1].responsibilities[k].id != id);
        }
        lemma_no_group_claim(t, id);
    }
}

/// A claim once it is folded: the marks that awaited a verdict are gone, and with that of a
/// vagrant where it came from; everything else is as planned.
pub open spec fn adopted_claim(r: ResponsibilityView) -> ResponsibilityView {
    ResponsibilityView {
        vagrant: None,
        vagrant_origin: if r.vagrant == Some(true) {
            None
        } else {
            r.vagrant_origin
        },
        stale: None,
        stale_proposal: None,
        ..r
    }
}

/// Does committed hold the claim on its planned host, once, behind the host's others, and
/// nowhere else, with everything else as it was?
pub open spec fn claim_landed(
    m: ScryModelView,
    c: ScryModelView,
    host: Seq<char>,
    r: ResponsibilityView,
) -> bool {
    &&& c == (ScryModelView {
        nodes: c.nodes,
        groups: c.groups,
        source_map: c.source_map,
        test_map: c.test_map,
        ..m
    })
    &&& c.nodes.len() == m.nodes.len()
    &&& forall|q: int|
        0 <= q < m.nodes.len() ==> #[trigger] c.nodes[q] == (NodeView {
            responsibilities: m.nodes[q].responsibilities.filter(
                |x: ResponsibilityView| x.id != r.id,
            ) + if is_first_node(m.nodes, q) && m.nodes[q].id == host {
                seq![adopted_claim(r)]
            } else {
                Seq::empty()
            },
            ..m.nodes[q]
        })
    &&& c.groups.len() == m.groups.len()
    &&& forall|q: int|
        0 <= q < m.groups.len() ==> #[trigger] c.groups[q] == (GroupView {
            responsibilities: m.groups[q].responsibilities.filter(
                |x: ResponsibilityView| x.id != r.id,
            ) + if !node_among(m.nodes, host) && is_first_group(m.groups, q) && m.groups[q].id
                == host {
                seq![adopted_claim(r)]
            } else {
                Seq::empty()
            },
            ..m.groups[q]
        })
}

proof fn lemma_claim_landed(
    m: ScryModelView,
    p: ScryModelView,
    host: Seq<char>,
    r: ResponsibilityView,
)
    requires
        claim_of(p, r.id) == Some((host, r)),
    ensures
        ({
            let f = fold(m, p, ElementKind::Responsibility, None, r.id, Seq::empty());
            &&& f is Ok <==> node_among(m.nodes, host) || group_among(m.groups, host)
            &&& f is Ok ==> {
                let (c, q) = (f->Ok_0.committed, f->Ok_0.planned);
                let moves = |k: Seq<char>| k == r.id;
                &&& claim_landed(m, c, host, r)
                &&& anchors_moved(m.source_map, p.source_map, c.source_map, q.source_map, moves)
                &&& anchors_moved(m.test_map, p.test_map, c.test_map, q.test_map, moves)
            }
        }),
{
    let id = r.id;
    let ns = nodes_without_claim(m.nodes, id);
    let gs = groups_without_claim(m.groups, id);
    lemma_node_among(m.nodes, host);
    lemma_group_among(m.groups, host);
    lemma_place_of::<Node>(ns, host);
    lemma_place_of::<Group>(gs, host);
    let i = place_of::<Node>(ns, host);
    let j = place_of::<Group>(gs, host);
    assert forall|q: int| 0 <= q < ns.len() implies Node::name_of(#[trigger] ns[q])
        == m.nodes[q].id by {}
    assert forall|q: int| 0 <= q < gs.len() implies Group::name_of(#[trigger] gs[q])
        == m.groups[q].id by {}
    if node_among(m.nodes, host) {
        let k = choose|k: int| 0 <= k < m.nodes.len() && (#[trigger] m.nodes[k]).id == host;
        assert(Node::name_of(ns[k]) == host);
    } else {
        if i < ns.len() {
            assert(Node::name_of(ns[i]) == host);
            assert(m.nodes[i].id == host);
        }
    }
    if group_among(m.groups, host) {
        let k = choose|k: int| 0 <= k < m.groups.len() && (#[trigger] m.groups[k]).id == host;
        assert(Group::name_of(gs[k]) == host);
    } else {
        if j < gs.len() {
            assert(Group::name_of(gs[j]) == host);
            assert(m.groups[j].id == host);
        }
    }
    let f = fold(m, p, ElementKind::Responsibility, None, id, Seq::empty());
    if f is Ok {
        let c = f->Ok_0.committed;
        assert forall|q: int| 0 <= q < m.nodes.len() implies #[trigger] c.nodes[q] == (NodeView {
            responsibilities: m.nodes[q].responsibilities.filter(
                |x: ResponsibilityView| x.id != id,
            ) + if is_first_node(m.nodes, q) && m.nodes[q].id == host {
                seq![adopted_claim(r)]
            } else {
                Seq::empty()
            },
            ..m.nodes[q]
        }) by {
            lemma_other_claims(m.nodes[q].responsibilities, id);
            let bare = m.nodes[q].responsibilities.filter(|x: ResponsibilityView| x.id != id);
            assert(bare + Seq::<ResponsibilityView>::empty() =~= bare);
            assert(bare + seq![adopted_claim(r)] =~= bare.push(adopted_claim(r)));
            if q == i {
                assert(Node::name_of(ns[i]) == host);
                assert forall|k: int| 0 <= k < i implies (#[trigger] m.nodes[k]).id != m.nodes[i].id by {
                    assert(Node::name_of(ns[k]) != host);
                }
            } else if m.nodes[q].id == host {
                assert(Node::name_of(ns[q]) == host);
                assert(i < q);
                assert(m.nodes[i].id == host);
            }
        }
        assert forall|q: int| 0 <= q < m.groups.len() implies #[trigger] c.groups[q] == (GroupView {
            responsibilities: m.groups[q].responsibilities.filter(
                |x: ResponsibilityView| x.id != id,
            ) + if !node_among(m.nodes, host) && is_first_group(m.groups, q) && m.groups[q].id
                == host {
                seq![adopted_claim(r)]
            } else {
                Seq::empty()
            },
            ..m.groups[q]
        }) by {
            lemma_other_claims(m.groups[q].responsibilities, id);
            let bare = m.groups[q].responsibilities.filter(|x: ResponsibilityView| x.id != id);
            assert(bare + Seq::<ResponsibilityView>::empty() =~= bare);
            assert(bare + seq![adopted_claim(r)] =~= bare.push(adopted_claim(r)));
            if q == j {
                assert(Group::name_of(gs[j]) == host);
                assert forall|k: int| 0 <= k < j implies (#[trigger] m.groups[k]).id
                    != m.groups[j].id by {
                    assert(Group::name_of(gs[k]) != host);
                }
            } else if m.groups[q].id == host {
                assert(Group::name_of(gs[q]) == host);
                assert(j < q);
                assert(m.groups[j].id == host);
            }
        }
        let moves = |k: Seq<char>| k == id;
        assert forall|k: Seq<char>| #[trigger] seq![id].contains(k) == moves(k) by {
            assert(seq![id][0] == id);
        }
        lemma_anchors_moved(m.source_map, p.source_map, seq![id], moves);
        lemma_anchors_moved(m.test_map, p.test_map, seq![id], moves);
    }
}

/// A claim that a planned node makes folds exactly where its host is committed, as a node or
/// as a group. It then stands on that host once, as planned and without marks, behind the
/// host's other claims, and on no other; its anchors move out of the plan and into committed.
pub proof fn law_a_folded_claim_is_on_its_host(m: ScryModelView, p: ScryModelView, i: int, k: int)
    requires
        is_first_claim(p.nodes, i, k),
    ensures
        ({
            let r = p.nodes[i].responsibilities[k];
            let host = p.nodes[i].id;
            let f = fold(m, p, ElementKind::Responsibility, None, r.id, Seq::empty());
            &&& f is Ok <==> node_among(m.nodes, host) || group_among(m.groups, host)
            &&& f is Ok ==> {
                let (c, q) = (f->Ok_0.committed, f->Ok_0.planned);
                let moves = |x: Seq<char>| x == r.id;
                &&& claim_landed(m, c, host, r)
                &&& anchors_moved(m.source_map, p.source_map, c.source_map, q.source_map, moves)
                &&& anchors_moved(m.test_map, p.test_map, c.test_map, q.test_map, moves)
            }
        }),
{
    lemma_node_claim_found(p.nodes, i, k);
    lemma_claim_landed(m, p, p.nodes[i].id, p.nodes[i].responsibilities[k]);
}

/// The same holds of a claim that a planned group makes and no planned node does.
pub proof fn law_a_folded_group_claim_is_on_its_host(
    m: ScryModelView,
    p: ScryModelView,
    i: int,
    k: int,
)
    requires
        is_first_group_claim(p.groups, i, k),
        forall|h: int, j: int|
            #![trigger p.nodes[h].responsibilities[j]]
            0 <= h < p.nodes.len() && 0 <= j < p.nodes[h].responsibilities.len()
                ==> p.nodes[h].responsibilities[j].id != p.groups[i].responsibilities[k].id,
    ensures
        ({
            let r = p.groups[i].responsibilities[k];
            let host = p.groups[i].id;
            let f = fold(m, p, ElementKind::Responsibility, None, r.id, Seq::empty());
            &&& f is Ok <==> node_among(m.nodes, host) || group_among(m.groups, host)
            &&& f is Ok ==> {
                let (c, q) = (f->Ok_0.committed, f->Ok_0.planned);
                let moves = |x: Seq<char>| x == r.id;
                &&& claim_landed(m, c, host, r)
                &&& anchors_moved(m.source_map, p.source_map, c.source_map, q.source_map, moves)
                &&& anchors_moved(m.test_map, p.test_map, c.test_map, q.test_map, moves)
            }
        }),
{
    lemma_no_node_claim(p.nodes, p.groups[i].responsibilities[k].id);
    lemma_group_claim_found(p.groups, i, k);
    lemma_claim_landed(m, p, p.groups[i].id, p.groups[i].responsibilities[k]);
}

/// A claim that the plan does not make is folded out of committed, with its anchors; nothing
/// else of committed changes.
pub proof fn law_a_dropped_claim_goes(m: ScryModelView, p: ScryModelView, id: Seq<char>)
    requires
        claim_nowhere(p, id),
    ensures
        ({
            let f = fold(m, p, ElementKind::Responsibility, None, id, Seq::empty());
            let goes = |k: Seq<char>| k == id;
            &&& f is Ok
            &&& f->Ok_0.rewrites
            &&& {
                let c = f->Ok_0.committed;
                &&& c == (ScryModelView {
                    nodes: m.nodes.map_values(
                        |n: NodeView|
                            NodeView {
                                responsibilities: n.responsibilities.filter(
                                    |x: ResponsibilityView| x.id != id,
                                ),
                                ..n
                            },
                    ),
                    groups: m.groups.map_values(
                        |g: GroupView|
                            GroupView {
                                responsibilities: g.responsibilities.filter(
                                    |x: ResponsibilityView| x.id != id,
                                ),
                                ..g
                            },
                    ),
                    source_map: c.source_map,
                    test_map: c.test_map,
                    ..m
                })
                &&& only_gone(m.source_map, c.source_map, goes)
                &&& only_gone(m.test_map, c.test_map, goes)
            }
        }),
{
    lemma_no_node_claim(p.nodes, id);
    lemma_no_group_claim(p.groups, id);
    let c = fold(m, p, ElementKind::Responsibility, None, id, Seq::empty())->Ok_0.committed;
    let fnode = |n: NodeView|
        NodeView {
            responsibilities: n.responsibilities.filter(|x: ResponsibilityView| x.id != id),
            ..n
        };
    let fgroup = |g: GroupView|
        GroupView {
            responsibilities: g.responsibilities.filter(|x: ResponsibilityView| x.id != id),
            ..g
        };
    assert forall|q: int| 0 <= q < m.nodes.len() implies c.nodes[q] == fnode(m.nodes[q]) by {
        lemma_other_claims(m.nodes[q].responsibilities, id);
    }
    assert forall|q: int| 0 <= q < m.groups.len() implies c.groups[q] == fgroup(m.groups[q]) by {
        lemma_other_claims(m.groups[q].responsibilities, id);
    }
    assert(c.nodes =~= m.nodes.map_values(fnode));
    assert(c.groups =~= m.groups.map_values(fgroup));
}

// ---- properties -------------------------------------------------------------------------

/// A property folds exactly where its owner is committed. It then stands on its owner once,
/// as planned and without marks, behind the owner's others; one that the plan's owner does not
/// have is gone. Nothing else of committed changes.
pub proof fn law_a_folded_property_is_on_its_owner(
    m: ScryModelView,
    p: ScryModelView,
    owner: Seq<char>,
    label: Seq<char>,
    i: int,
)
    requires
        is_first_node(m.nodes, i),
        m.nodes[i].id == owner,
    ensures
        ({
            let f = fold(m, p, ElementKind::Property, Some(owner), label, Seq::empty());
            let bare = m.nodes[i].properties.filter(|x: SchemaPropertyView| x.label != label);
            let planned = match first::<Node>(p.nodes, owner) {
                Some(n) => first::<SchemaProperty>(n.properties, label),
                None => None,
            };
            &&& f is Ok
            &&& f->Ok_0.committed == (ScryModelView {
                nodes: m.nodes.update(
                    i,
                    NodeView {
                        properties: match planned {
                            Some(q) => bare.push(
                                SchemaPropertyView { vagrant: None, stale: None, ..q },
                            ),
                            None => bare,
                        },
                        ..m.nodes[i]
                    },
                ),
                ..m
            })
        }),
{
    lemma_first_node(m.nodes, i);
    lemma_other_props(m.nodes[i].properties, label);
    lemma_place_of::<Node>(p.nodes, owner);
    match first::<Node>(p.nodes, owner) {
        Some(n) => {
            lemma_place_of::<SchemaProperty>(n.properties, label);
        },
        None => {},
    }
}

/// A property without an owner, or whose owner is not committed, does not fold.
pub proof fn law_a_property_needs_its_owner(
    m: ScryModelView,
    p: ScryModelView,
    owner: Option<Seq<char>>,
    label: Seq<char>,
)
    requires
        owner is Some ==> !node_among(m.nodes, owner->0),
    ensures
        fold(m, p, ElementKind::Property, owner, label, Seq::empty()) is Err,
{
    if owner is Some {
        lemma_node_among(m.nodes, owner->0);
        lemma_place_of::<Node>(m.nodes, owner->0);
    }
}

// ---- nodes that go ----------------------------------------------------------------------

/// Does a node go with `id`? It does where it is `id` or below it, and the plan does not have
/// it either.
pub open spec fn goes_with(
    m: ScryModelView,
    p: ScryModelView,
    id: Seq<char>,
    x: Seq<char>,
) -> bool {
    subtree(m.nodes, id).contains(x) && !node_among(p.nodes, x)
}

/// What is not there is what no node goes by.
pub proof fn lemma_not_there(s: Seq<Seq<char>>, ns: Seq<NodeView>, x: Seq<char>)
    ensures
        not_there(s, ns).contains(x) == (s.contains(x) && !node_among(ns, x)),
    decreases s.len(),
{
    lemma_node_among(ns, x);
    if s.len() > 0 {
        let d = s.drop_last();
        lemma_not_there(d, ns, x);
        let a = not_there(d, ns);
        let b = not_there(s, ns);
        assert(s[s.len() - 1] == s.last());
        if d.contains(x) {
            let i = choose|i: int| 0 <= i < d.len() && d[i] == x;
            assert(s[i] == x);
        }
        if s.contains(x) && x != s.last() {
            let i = choose|i: int| 0 <= i < s.len() && s[i] == x;
            assert(d[i] == x);
        }
        if a.contains(x) {
            let i = choose|i: int| 0 <= i < a.len() && a[i] == x;
            assert(b[i] == x);
        }
        if !has_named::<Node>(ns, s.last()) {
            assert(b[a.len() as int] == s.last());
        }
        if b.contains(x) && !a.contains(x) {
            let i = choose|i: int| 0 <= i < b.len() && b[i] == x;
            if i < a.len() {
                assert(a[i] == x);
            }
        }
    }
}

proof fn lemma_nodes_outside(ns: Seq<NodeView>, gone: Seq<Seq<char>>)
    ensures
        nodes_outside(ns, gone) == ns.filter(|n: NodeView| !gone.contains(n.id)),
    decreases ns.len(),
{
    reveal(Seq::filter);
    if ns.len() > 0 {
        lemma_nodes_outside(ns.drop_last(), gone);
    }
}

proof fn lemma_links_outside(ls: Seq<LinkView>, gone: Seq<Seq<char>>)
    ensures
        links_outside(ls, gone) == ls.filter(
            |l: LinkView| !gone.contains(l.src) && !gone.contains(l.dst),
        ),
    decreases ls.len(),
{
    reveal(Seq::filter);
    if ls.len() > 0 {
        lemma_links_outside(ls.drop_last(), gone);
    }
}

/// What is left of a list of ids without others.
pub proof fn lemma_without(a: Seq<Seq<char>>, b: Seq<Seq<char>>)
    ensures
        without(a, b) == a.filter(|x: Seq<char>| !b.contains(x)),
    decreases a.len(),
{
    reveal(Seq::filter);
    if a.len() > 0 {
        lemma_without(a.drop_last(), b);
    }
}

/// A node that the plan does not have is folded out of committed, and with it what is below
/// it and not in the plan either: the nodes, every link that touches one of them, and their
/// membership in groups. Everything else stays, in order.
pub proof fn law_a_dropped_node_goes(m: ScryModelView, p: ScryModelView, id: Seq<char>)
    requires
        !node_among(p.nodes, id),
    ensures
        ({
            let f = fold(m, p, ElementKind::Node, None, id, Seq::empty());
            &&& f is Ok
            &&& f->Ok_0.rewrites
            &&& {
                let c = f->Ok_0.committed;
                &&& c == (ScryModelView {
                    nodes: m.nodes.filter(|n: NodeView| !goes_with(m, p, id, n.id)),
                    links: m.links.filter(
                        |l: LinkView| !goes_with(m, p, id, l.src) && !goes_with(m, p, id, l.dst),
                    ),
                    groups: m.groups.map_values(
                        |g: GroupView|
                            GroupView {
                                member_ids: g.member_ids.filter(
                                    |x: Seq<char>| !goes_with(m, p, id, x),
                                ),
                                ..g
                            },
                    ),
                    source_map: c.source_map,
                    test_map: c.test_map,
                    boundaries: c.boundaries,
                    ..m
                })
                &&& only_gone(m.boundaries, c.boundaries, |k: Seq<char>| goes_with(m, p, id, k))
                &&& only_gone(
                    m.source_map,
                    c.source_map,
                    |k: Seq<char>| goes_with(m, p, id, k) || claimed_below(m, p, id, k),
                )
                &&& only_gone(m.test_map, c.test_map, |k: Seq<char>| claimed_below(m, p, id, k))
            }
        }),
{
    let gone = removed_ids(m, p, id);
    let claims = crate::commit::claims_inside(m.nodes, gone);
    lemma_node_among(p.nodes, id);
    lemma_place_of::<Node>(p.nodes, id);
    assert forall|x: Seq<char>| #[trigger] gone.contains(x) == goes_with(m, p, id, x) by {
        lemma_not_there(subtree(m.nodes, id), p.nodes, x);
    }
    lemma_nodes_outside(m.nodes, gone);
    lemma_links_outside(m.links, gone);
    lemma_same_filter(
        m.nodes,
        |n: NodeView| !gone.contains(n.id),
        |n: NodeView| !goes_with(m, p, id, n.id),
    );
    lemma_same_filter(
        m.links,
        |l: LinkView| !gone.contains(l.src) && !gone.contains(l.dst),
        |l: LinkView| !goes_with(m, p, id, l.src) && !goes_with(m, p, id, l.dst),
    );
    let fg = |g: GroupView|
        GroupView {
            member_ids: g.member_ids.filter(|x: Seq<char>| !goes_with(m, p, id, x)),
            ..g
        };
    assert forall|q: int| 0 <= q < m.groups.len() implies members_outside(m.groups, gone)[q] == fg(
        m.groups[q],
    ) by {
        lemma_without(m.groups[q].member_ids, gone);
        lemma_same_filter(
            m.groups[q].member_ids,
            |x: Seq<char>| !gone.contains(x),
            |x: Seq<char>| !goes_with(m, p, id, x),
        );
    }
    assert(members_outside(m.groups, gone) =~= m.groups.map_values(fg));
    let c = fold(m, p, ElementKind::Node, None, id, Seq::empty())->Ok_0.committed;
    lemma_only_gone(m.boundaries, gone, |k: Seq<char>| goes_with(m, p, id, k));
    assert forall|k: Seq<char>| #[trigger] claims.contains(k) == claimed_below(m, p, id, k) by {
        lemma_claims_inside(m, p, id, m.nodes, gone, k);
    }
    lemma_only_gone(m.test_map, claims, |k: Seq<char>| claimed_below(m, p, id, k));
    let both = |k: Seq<char>| goes_with(m, p, id, k) || claimed_below(m, p, id, k);
    assert forall|k: Seq<char>| #[trigger] c.source_map.contains_key(k) <==> m.source_map.contains_key(
        k,
    ) && !both(k) && c.source_map[k] == m.source_map[k] by {
        assert(gone.to_set().contains(k) == gone.contains(k));
        assert(claims.to_set().contains(k) == claims.contains(k));
        assert(gone.contains(k) == goes_with(m, p, id, k));
        assert(claims.contains(k) == claimed_below(m, p, id, k));
    }
}

/// Is `k` the id of a claim that a node makes which goes with `id`?
pub open spec fn claimed_below(
    m: ScryModelView,
    p: ScryModelView,
    id: Seq<char>,
    k: Seq<char>,
) -> bool {
    exists|i: int, j: int|
        #![trigger m.nodes[i].responsibilities[j]]
        0 <= i < m.nodes.len() && 0 <= j < m.nodes[i].responsibilities.len() && goes_with(
            m,
            p,
            id,
            m.nodes[i].id,
        ) && m.nodes[i].responsibilities[j].id == k
}

spec fn claimed_in(ns: Seq<NodeView>, gone: Seq<Seq<char>>, k: Seq<char>) -> bool {
    exists|i: int, j: int|
        #![trigger ns[i].responsibilities[j]]
        0 <= i < ns.len() && 0 <= j < ns[i].responsibilities.len() && gone.contains(ns[i].id)
            && ns[i].responsibilities[j].id == k
}

proof fn lemma_claimed_in(ns: Seq<NodeView>, gone: Seq<Seq<char>>, k: Seq<char>)
    ensures
        crate::commit::claims_inside(ns, gone).contains(k) == claimed_in(ns, gone, k),
    decreases ns.len(),
{
    if ns.len() > 0 {
        let d = ns.drop_last();
        let n = ns.last();
        lemma_claimed_in(d, gone, k);
        lemma_names(n.responsibilities, k);
        let a = crate::commit::claims_inside(d, gone);
        let b = crate::commit::claims_inside(ns, gone);
        let own = crate::ids::names::<Responsibility>(n.responsibilities);
        assert(ns[ns.len() - 1] == n);
        if a.contains(k) {
            let i = choose|i: int| 0 <= i < a.len() && a[i] == k;
            assert(b[i] == k);
            let (i, j) = choose|i: int, j: int|
                #![trigger d[i].responsibilities[j]]
                0 <= i < d.len() && 0 <= j < d[i].responsibilities.len() && gone.contains(d[i].id)
                    && d[i].responsibilities[j].id == k;
            assert(ns[i].responsibilities[j].id == k);
        }
        if gone.contains(n.id) && own.contains(k) {
            let i = choose|i: int| 0 <= i < own.len() && own[i] == k;
            assert(b[a.len() + i] == k);
            assert(n.responsibilities[i].id == k);
            assert(ns[ns.len() - 1].responsibilities[i].id == k);
        }
        if b.contains(k) && !a.contains(k) {
            let i = choose|i: int| 0 <= i < b.len() && b[i] == k;
            if i < a.len() {
                assert(a[i] == k);
            } else {
                assert(own[i - a.len()] == k);
                assert(own.contains(k));
            }
        }
        if claimed_in(ns, gone, k) {
            let (i, j) = choose|i: int, j: int|
                #![trigger ns[i].responsibilities[j]]
                0 <= i < ns.len() && 0 <= j < ns[i].responsibilities.len() && gone.contains(
                    ns[i].id,
                ) && ns[i].responsibilities[j].id == k;
            if i < d.len() {
                assert(d[i].responsibilities[j].id == k);
            } else {
                assert(own[j] == k);
            }
        }
    }
}

proof fn lemma_claims_inside(
    m: ScryModelView,
    p: ScryModelView,
    id: Seq<char>,
    ns: Seq<NodeView>,
    gone: Seq<Seq<char>>,
    k: Seq<char>,
)
    requires
        ns == m.nodes,
        forall|x: Seq<char>| #[trigger] gone.contains(x) == goes_with(m, p, id, x),
    ensures
        crate::commit::claims_inside(ns, gone).contains(k) == claimed_below(m, p, id, k),
{
    lemma_claimed_in(ns, gone, k);
    if claimed_in(ns, gone, k) {
        let (i, j) = choose|i: int, j: int|
            #![trigger ns[i].responsibilities[j]]
            0 <= i < ns.len() && 0 <= j < ns[i].responsibilities.len() && gone.contains(ns[i].id)
                && ns[i].responsibilities[j].id == k;
        assert(goes_with(m, p, id, m.nodes[i].id));
        assert(m.nodes[i].responsibilities[j].id == k);
    }
    if claimed_below(m, p, id, k) {
        let (i, j) = choose|i: int, j: int|
            #![trigger m.nodes[i].responsibilities[j]]
            0 <= i < m.nodes.len() && 0 <= j < m.nodes[i].responsibilities.len() && goes_with(
                m,
                p,
                id,
                m.nodes[i].id,
            ) && m.nodes[i].responsibilities[j].id == k;
        assert(gone.contains(ns[i].id));
        assert(ns[i].responsibilities[j].id == k);
    }
}

// ---- whole builds -----------------------------------------------------------------------

/// Is `is_now` what `over` has, and where it has nothing what `under` has?
pub open spec fn laid_over<A>(
    under: Map<Seq<char>, A>,
    over: Map<Seq<char>, A>,
    is_now: Map<Seq<char>, A>,
) -> bool {
    forall|k: Seq<char>|
        #![trigger is_now.contains_key(k)]
        {
            &&& is_now.contains_key(k) <==> under.contains_key(k) || over.contains_key(k)
            &&& over.contains_key(k) ==> is_now[k] == over[k]
            &&& under.contains_key(k) && !over.contains_key(k) ==> is_now[k] == under[k]
        }
}

/// In the working view everything is the plan's, and where the plan has no anchor, test or
/// boundary committed's.
pub proof fn law_the_plan_wins_in_the_working_view(c: ScryModelView, p: ScryModelView)
    ensures
        ({
            let w = crate::commit::working(c, p);
            &&& w == (ScryModelView {
                source_map: w.source_map,
                test_map: w.test_map,
                boundaries: w.boundaries,
                ..p
            })
            &&& laid_over(c.source_map, p.source_map, w.source_map)
            &&& laid_over(c.test_map, p.test_map, w.test_map)
            &&& laid_over(c.boundaries, p.boundaries, w.boundaries)
        }),
{
}

/// A finished build commits everything it is made of, with the anchors, tests and boundaries
/// of committed under its own and without the ledger; the plan is the same without any of
/// those; the build's changes close.
pub proof fn law_a_build_is_committed_whole(c: ScryModelView, built: ScryModelView)
    ensures
        ({
            let b = crate::commit::built_in(c, built);
            &&& b.committed == (ScryModelView {
                changes: Seq::empty(),
                change_map: Map::empty(),
                source_map: b.committed.source_map,
                test_map: b.committed.test_map,
                boundaries: b.committed.boundaries,
                ..built
            })
            &&& laid_over(c.source_map, built.source_map, b.committed.source_map)
            &&& laid_over(c.test_map, built.test_map, b.committed.test_map)
            &&& laid_over(c.boundaries, built.boundaries, b.committed.boundaries)
            &&& b.planned == (ScryModelView {
                source_map: Map::empty(),
                test_map: Map::empty(),
                boundaries: Map::empty(),
                ..b.committed
            })
            &&& b.closed == built.changes
        }),
{
}

} // verus!
