//! What the counts of health and completeness count.

use crate::completeness::{
    completeness_of, live_anchors_of, live_claims, real_boxes_of, start_primitives, Completeness,
    CompletenessView,
};
use crate::drift::subtree;
use crate::ears::pattern_of;
use crate::fold_laws::names_differ;
use crate::health::{
    architecture_count, claim_units, claims_counts, coverage, dark_of, files_owned, floating,
    group_counts, group_host, health_of, own_counts, own_files, property_units, reached_files,
    start_files, unlinked, HealthCounts, HealthCountsView,
};
use crate::model::{
    has_node, last_node, lemma_last_node, GroupView, Kind, LinkView, Node, NodeView,
    ResponsibilityView, SchemaPropertyView, ScryModelView, SourceLocationView,
};
use crate::named::Named;
use crate::ownership::{boundary_rows, node_ids, owned};
use crate::rollup::{
    adds_up, figures_below, law_every_node_counts_once, lemma_below, rated, sum, total, Tally,
};
use crate::strset::StrSet;
use crate::text::{ascending, lemma_sorted_list, sorted_list};
use vstd::prelude::*;

verus! {

// ---- own counts -------------------------------------------------------------------------

/// How many of a list there are.
pub open spec fn how_many<A>(s: Seq<A>, p: spec_fn(A) -> bool) -> nat {
    s.filter(p).len()
}

/// Has the map an anchor at the key?
pub open spec fn has_anchor(
    map: Map<Seq<char>, Seq<SourceLocationView>>,
    key: Seq<char>,
) -> bool {
    map.contains_key(key) && map[key].len() > 0
}

/// Is the node of our own code: neither a person nor external?
pub open spec fn is_code(n: NodeView) -> bool {
    n.kind != Kind::Person && n.external != Some(true)
}

/// Is one of the nodes right under `id`?
pub open spec fn is_parent(ns: Seq<NodeView>, id: Seq<char>) -> bool {
    exists|i: int| 0 <= i < ns.len() && (#[trigger] ns[i]).parent_id == Some(id)
}

/// Must what the node says read through to code: is it code, with nothing under it in the model
/// or in the plan?
pub open spec fn must_read_through(
    m: ScryModelView,
    planned: Option<Seq<NodeView>>,
    n: NodeView,
) -> bool {
    is_code(n) && !is_parent(m.nodes, n.id) && (planned is Some ==> !is_parent(planned->0, n.id))
}

/// Can the claim's form be tested?
pub open spec fn can_be_tested(r: ResponsibilityView) -> bool {
    pattern_of(r.statement).is_testable()
}

proof fn lemma_claims(
    m: ScryModelView,
    rs: Seq<ResponsibilityView>,
    backed: bool,
    leaf: bool,
)
    ensures
        ({
            let h = claims_counts(m, rs, backed, leaf);
            let tested = |r: ResponsibilityView| has_anchor(m.test_map, r.id);
            let anchored = |r: ResponsibilityView| has_anchor(m.source_map, r.id);
            &&& h.responsibilities == rs.len()
            &&& h.properties == 0
            &&& h.tested == how_many(rs, tested)
            &&& h.testable == if backed {
                how_many(rs, |r: ResponsibilityView| can_be_tested(r))
            } else {
                0
            }
            &&& h.untested == if backed {
                how_many(
                    rs,
                    |r: ResponsibilityView| can_be_tested(r) && !has_anchor(m.test_map, r.id),
                )
            } else {
                0
            }
            &&& h.vagrant == how_many(rs, |r: ResponsibilityView| r.vagrant == Some(true))
            &&& h.stale == how_many(rs, |r: ResponsibilityView| r.stale == Some(true))
            &&& h.anchorable == if leaf {
                rs.len()
            } else {
                0
            }
            &&& h.anchored == if leaf {
                how_many(rs, anchored)
            } else {
                0
            }
            &&& h.unmapped == if leaf {
                how_many(rs, |r: ResponsibilityView| !has_anchor(m.source_map, r.id))
            } else {
                0
            }
        }),
    decreases rs.len(),
{
    reveal(Seq::filter);
    let us = claim_units(m, rs, backed, leaf);
    if rs.len() > 0 {
        let d = rs.drop_last();
        lemma_claims(m, d, backed, leaf);
        assert(us.drop_last() =~= claim_units(m, d, backed, leaf));
        assert(us.last() == crate::health::claim_counts(m, rs.last(), backed, leaf));
    }
}

proof fn lemma_properties(ps: Seq<SchemaPropertyView>, h: HealthCountsView)
    ensures
        ({
            let t = total::<HealthCounts>(property_units(ps), h);
            &&& t.properties == h.properties + ps.len()
            &&& t.vagrant == h.vagrant + how_many(
                ps,
                |q: SchemaPropertyView| q.vagrant == Some(true),
            )
            &&& t.stale == h.stale + how_many(ps, |q: SchemaPropertyView| q.stale == Some(true))
            &&& t.responsibilities == h.responsibilities
            &&& t.tested == h.tested
            &&& t.testable == h.testable
            &&& t.untested == h.untested
            &&& t.anchorable == h.anchorable
            &&& t.anchored == h.anchored
            &&& t.unmapped == h.unmapped
        }),
    decreases ps.len(),
{
    reveal(Seq::filter);
    let us = property_units(ps);
    if ps.len() > 0 {
        let d = ps.drop_last();
        lemma_properties(d, h);
        assert(us.drop_last() =~= property_units(d));
        assert(us.last() == crate::health::property_counts(ps.last()));
    }
}

proof fn lemma_parent(ns: Seq<NodeView>, id: Seq<char>)
    ensures
        crate::health::has_child(ns, id) == is_parent(ns, id),
{
}

proof fn lemma_only_one(ns: Seq<NodeView>, i: int)
    requires
        names_differ::<Node>(ns),
        0 <= i < ns.len(),
    ensures
        last_node(ns, ns[i].id) == Some(ns[i]),
        has_node(ns, ns[i].id),
{
    assert forall|j: int| i < j < ns.len() implies (#[trigger] ns[j]).id != ns[i].id by {
        assert(Node::name_of(ns[j]) != Node::name_of(ns[i]));
    }
    lemma_last_node(ns, ns[i].id, i);
}

/// A node's own counts: how many claims and properties it has, and of its claims how many have a
/// test, how many have a form that can be tested and how many of those have none; how many claims
/// and properties await a verdict and how many are stale. Where it must read through to code, its
/// claims and, where it has properties, its shape are expected to have an anchor, and are counted
/// as anchored or unmapped; elsewhere nothing is. Claims of what is not code are not testable.
pub proof fn law_own_counts_tell_what_a_node_has(
    m: ScryModelView,
    planned: Option<Seq<NodeView>>,
    files: Option<Set<Seq<char>>>,
    i: int,
)
    requires
        names_differ::<Node>(m.nodes),
        0 <= i < m.nodes.len(),
    ensures
        ({
            let n = m.nodes[i];
            let rs = n.responsibilities;
            let ps = n.properties;
            let h = health_of(m, planned, files).nodes[n.id].own;
            let leaf = must_read_through(m, planned, n);
            let shape: nat = if ps.len() > 0 {
                1
            } else {
                0
            };
            let shaped: nat = if ps.len() > 0 && has_anchor(m.source_map, n.id) {
                1
            } else {
                0
            };
            &&& health_of(m, planned, files).nodes.contains_key(n.id)
            &&& h.responsibilities == rs.len()
            &&& h.properties == ps.len()
            &&& h.tested == how_many(
                rs,
                |r: ResponsibilityView| has_anchor(m.test_map, r.id),
            )
            &&& h.testable == if is_code(n) {
                how_many(rs, |r: ResponsibilityView| can_be_tested(r))
            } else {
                0
            }
            &&& h.untested == if is_code(n) {
                how_many(
                    rs,
                    |r: ResponsibilityView| can_be_tested(r) && !has_anchor(m.test_map, r.id),
                )
            } else {
                0
            }
            &&& h.vagrant == how_many(rs, |r: ResponsibilityView| r.vagrant == Some(true))
                + how_many(ps, |q: SchemaPropertyView| q.vagrant == Some(true))
            &&& h.stale == how_many(rs, |r: ResponsibilityView| r.stale == Some(true)) + how_many(
                ps,
                |q: SchemaPropertyView| q.stale == Some(true),
            )
            &&& h.anchorable == if leaf {
                rs.len() + shape
            } else {
                0
            }
            &&& h.anchored == if leaf {
                how_many(rs, |r: ResponsibilityView| has_anchor(m.source_map, r.id)) + shaped
            } else {
                0
            }
            &&& h.unmapped == if leaf {
                how_many(rs, |r: ResponsibilityView| !has_anchor(m.source_map, r.id)) + shape
                    - shaped
            } else {
                0
            }
        }),
{
    let n = m.nodes[i];
    let backed = is_code(n);
    let leaf = must_read_through(m, planned, n);
    lemma_only_one(m.nodes, i);
    lemma_claims(m, n.responsibilities, backed, leaf);
    lemma_properties(n.properties, claims_counts(m, n.responsibilities, backed, leaf));
}

/// When something was last touched: by what is latest of the claims and the properties.
pub proof fn law_the_latest_touch_counts(
    m: ScryModelView,
    planned: Option<Seq<NodeView>>,
    n: NodeView,
)
    ensures
        ({
            let t = own_counts(m, planned, n).last_touched_at;
            &&& forall|k: int|
                0 <= k < n.responsibilities.len() && (
                #[trigger] n.responsibilities[k]).last_touched_at is Some ==> t is Some
                    && n.responsibilities[k].last_touched_at->0 <= t->0
            &&& forall|k: int|
                0 <= k < n.properties.len() && (#[trigger] n.properties[k]).last_touched_at is Some
                    ==> t is Some && n.properties[k].last_touched_at->0 <= t->0
            &&& t is Some ==> (exists|k: int|
                0 <= k < n.responsibilities.len() && (
                #[trigger] n.responsibilities[k]).last_touched_at == t) || (exists|k: int|
                0 <= k < n.properties.len() && (#[trigger] n.properties[k]).last_touched_at == t)
        }),
{
    let backed = crate::health::code_backed(n);
    let leaf = backed && crate::health::is_leaf(m.nodes, planned, n.id);
    let cs = claims_counts(m, n.responsibilities, backed, leaf);
    lemma_claims_touched(m, n.responsibilities, backed, leaf);
    lemma_props_touched(n.properties, cs);
}

proof fn lemma_claims_touched(
    m: ScryModelView,
    rs: Seq<ResponsibilityView>,
    backed: bool,
    leaf: bool,
)
    ensures
        ({
            let t = claims_counts(m, rs, backed, leaf).last_touched_at;
            &&& forall|k: int|
                0 <= k < rs.len() && (#[trigger] rs[k]).last_touched_at is Some ==> t is Some
                    && rs[k].last_touched_at->0 <= t->0
            &&& t is Some ==> exists|k: int|
                0 <= k < rs.len() && (#[trigger] rs[k]).last_touched_at == t
        }),
    decreases rs.len(),
{
    let us = claim_units(m, rs, backed, leaf);
    if rs.len() > 0 {
        let d = rs.drop_last();
        lemma_claims_touched(m, d, backed, leaf);
        assert(us.drop_last() =~= claim_units(m, d, backed, leaf));
        assert(us.last() == crate::health::claim_counts(m, rs.last(), backed, leaf));
        let t0 = claims_counts(m, d, backed, leaf).last_touched_at;
        let t = claims_counts(m, rs, backed, leaf).last_touched_at;
        assert(rs[rs.len() - 1] == rs.last());
        assert forall|k: int| 0 <= k < rs.len() && (#[trigger] rs[k]).last_touched_at is Some implies t is Some
            && rs[k].last_touched_at->0 <= t->0 by {
            if k < d.len() {
                assert(d[k] == rs[k]);
            }
        }
        if t is Some && t != rs.last().last_touched_at {
            let k = choose|k: int| 0 <= k < d.len() && (#[trigger] d[k]).last_touched_at == t0;
            assert(rs[k].last_touched_at == t);
        }
    }
}

proof fn lemma_props_touched(ps: Seq<SchemaPropertyView>, h: HealthCountsView)
    ensures
        ({
            let t = total::<HealthCounts>(property_units(ps), h).last_touched_at;
            &&& h.last_touched_at is Some ==> t is Some && h.last_touched_at->0 <= t->0
            &&& forall|k: int|
                0 <= k < ps.len() && (#[trigger] ps[k]).last_touched_at is Some ==> t is Some
                    && ps[k].last_touched_at->0 <= t->0
            &&& t is Some ==> t == h.last_touched_at || exists|k: int|
                0 <= k < ps.len() && (#[trigger] ps[k]).last_touched_at == t
        }),
    decreases ps.len(),
{
    let us = property_units(ps);
    if ps.len() > 0 {
        let d = ps.drop_last();
        lemma_props_touched(d, h);
        assert(us.drop_last() =~= property_units(d));
        assert(us.last() == crate::health::property_counts(ps.last()));
        let t0 = total::<HealthCounts>(property_units(d), h).last_touched_at;
        let t = total::<HealthCounts>(us, h).last_touched_at;
        assert(ps[ps.len() - 1] == ps.last());
        assert forall|k: int| 0 <= k < ps.len() && (#[trigger] ps[k]).last_touched_at is Some implies t is Some
            && ps[k].last_touched_at->0 <= t->0 by {
            if k < d.len() {
                assert(d[k] == ps[k]);
            }
        }
        if t is Some && t != ps.last().last_touched_at && t != h.last_touched_at {
            let k = choose|k: int| 0 <= k < d.len() && (#[trigger] d[k]).last_touched_at == t0;
            assert(ps[k].last_touched_at == t);
        }
    }
}

/// A group's counts: its claims as a node's that is code, none of which must have an anchor.
pub proof fn law_group_counts_tell_what_a_group_has(m: ScryModelView, g: GroupView)
    ensures
        ({
            let rs = g.responsibilities;
            let h = group_counts(m, g);
            &&& h.responsibilities == rs.len()
            &&& h.properties == 0
            &&& h.tested == how_many(
                rs,
                |r: ResponsibilityView| has_anchor(m.test_map, r.id),
            )
            &&& h.testable == how_many(rs, |r: ResponsibilityView| can_be_tested(r))
            &&& h.untested == how_many(
                rs,
                |r: ResponsibilityView| can_be_tested(r) && !has_anchor(m.test_map, r.id),
            )
            &&& h.vagrant == how_many(rs, |r: ResponsibilityView| r.vagrant == Some(true))
            &&& h.stale == how_many(rs, |r: ResponsibilityView| r.stale == Some(true))
            &&& h.anchorable == 0
            &&& h.anchored == 0
            &&& h.unmapped == 0
        }),
{
    lemma_claims(m, g.responsibilities, true, false);
}

/// A group counts with the node it names as its own, or without one with the parent of its first
/// member, where that is a node of the model; else with none.
pub proof fn law_a_group_counts_with_its_host(m: ScryModelView, g: GroupView)
    requires
        names_differ::<Node>(m.nodes),
    ensures
        ({
            let known = |id: Seq<char>|
                exists|i: int| 0 <= i < m.nodes.len() && (#[trigger] m.nodes[i]).id == id;
            &&& g.parent_node_id is Some ==> group_host(m, g) == if known(g.parent_node_id->0) {
                g.parent_node_id
            } else {
                None
            }
            &&& g.parent_node_id is None && g.member_ids.len() == 0 ==> group_host(m, g) is None
            &&& g.parent_node_id is None && g.member_ids.len() > 0 ==> forall|i: int|
                0 <= i < m.nodes.len() && (#[trigger] m.nodes[i]).id == g.member_ids[0]
                    ==> group_host(m, g) == if m.nodes[i].parent_id is Some && known(
                    m.nodes[i].parent_id->0,
                ) {
                    m.nodes[i].parent_id
                } else {
                    None
                }
        }),
{
    if g.parent_node_id is None && g.member_ids.len() > 0 {
        assert forall|i: int|
            0 <= i < m.nodes.len() && (#[trigger] m.nodes[i]).id == g.member_ids[0] implies last_node(
            m.nodes,
            g.member_ids[0],
        ) == Some(m.nodes[i]) by {
            lemma_only_one(m.nodes, i);
        }
    }
}

// ---- what floats free -------------------------------------------------------------------

/// A node is told to float free exactly where it is no symbol, no link names it, and there is
/// more than one node that is no symbol; they are told in order of their ids.
pub proof fn law_what_floats_free(m: ScryModelView, id: Seq<char>)
    ensures
        floating(m).contains(id) <==> how_many(m.nodes, |n: NodeView| n.kind != Kind::Symbol) > 1
            && exists|i: int|
            0 <= i < m.nodes.len() && (#[trigger] m.nodes[i]).id == id && m.nodes[i].kind
                != Kind::Symbol && forall|k: int|
                0 <= k < m.links.len() ==> (#[trigger] m.links[k]).src != id && m.links[k].dst
                    != id,
        crate::text::in_order(floating(m)),
{
    broadcast use vstd::seq_lib::group_to_multiset_ensures;

    lemma_architecture(m.nodes);
    let us = unlinked(m.links, m.nodes);
    lemma_sorted_list(us);
    lemma_unlinked(m.links, m.nodes, id);
    let s = sorted_list(us);
    assert(s.contains(id) <==> s.to_multiset().count(id) > 0);
    assert(us.contains(id) <==> us.to_multiset().count(id) > 0);
    assert(crate::text::in_order(Seq::<Seq<char>>::empty()));
}

proof fn lemma_architecture(ns: Seq<NodeView>)
    ensures
        architecture_count(ns) == how_many(ns, |n: NodeView| n.kind != Kind::Symbol),
    decreases ns.len(),
{
    reveal(Seq::filter);
    if ns.len() > 0 {
        lemma_architecture(ns.drop_last());
    }
}

proof fn lemma_unlinked(ls: Seq<LinkView>, ns: Seq<NodeView>, id: Seq<char>)
    ensures
        unlinked(ls, ns).contains(id) <==> exists|i: int|
            0 <= i < ns.len() && (#[trigger] ns[i]).id == id && ns[i].kind != Kind::Symbol
                && forall|k: int|
                0 <= k < ls.len() ==> (#[trigger] ls[k]).src != id && ls[k].dst != id,
    decreases ns.len(),
{
    if ns.len() > 0 {
        let d = ns.drop_last();
        let n = ns.last();
        lemma_unlinked(ls, d, id);
        let a = unlinked(ls, d);
        let b = unlinked(ls, ns);
        assert(ns[ns.len() - 1] == n);
        if a.contains(id) {
            let i = choose|i: int| 0 <= i < a.len() && a[i] == id;
            assert(b[i] == id);
            let j = choose|j: int|
                0 <= j < d.len() && (#[trigger] d[j]).id == id && d[j].kind != Kind::Symbol
                    && forall|k: int|
                    0 <= k < ls.len() ==> (#[trigger] ls[k]).src != id && ls[k].dst != id;
            assert(ns[j] == d[j]);
        }
        if b.len() > a.len() {
            assert(b[a.len() as int] == n.id);
        }
        if b.contains(id) && !a.contains(id) {
            let i = choose|i: int| 0 <= i < b.len() && b[i] == id;
            if i < a.len() {
                assert(a[i] == id);
            }
            assert(!crate::health::linked(ls, n.id));
            assert forall|k: int| 0 <= k < ls.len() implies (#[trigger] ls[k]).src != id && ls[k].dst
                != id by {}
        }
        if exists|i: int|
            0 <= i < ns.len() && (#[trigger] ns[i]).id == id && ns[i].kind != Kind::Symbol
                && forall|k: int|
                0 <= k < ls.len() ==> (#[trigger] ls[k]).src != id && ls[k].dst != id {
            let i = choose|i: int|
                0 <= i < ns.len() && (#[trigger] ns[i]).id == id && ns[i].kind != Kind::Symbol
                    && forall|k: int|
                    0 <= k < ls.len() ==> (#[trigger] ls[k]).src != id && ls[k].dst != id;
            if i < d.len() {
                assert(d[i] == ns[i]);
            } else {
                assert(!crate::health::linked(ls, id));
            }
        }
    }
}

// ---- reached files ----------------------------------------------------------------------

/// Is the file named by an anchor of the node or of one of its claims?
pub open spec fn names_file(m: ScryModelView, n: NodeView, f: Seq<char>) -> bool {
    ||| m.source_map.contains_key(n.id) && exists|a: int|
        0 <= a < m.source_map[n.id].len() && (#[trigger] m.source_map[n.id][a]).pattern == f
    ||| exists|k: int, a: int|
        #![trigger m.source_map[n.responsibilities[k].id][a]]
        0 <= k < n.responsibilities.len() && m.source_map.contains_key(n.responsibilities[k].id)
            && 0 <= a < m.source_map[n.responsibilities[k].id].len()
            && m.source_map[n.responsibilities[k].id][a].pattern == f
}

proof fn lemma_own_files(m: ScryModelView, n: NodeView, f: Seq<char>)
    ensures
        own_files(m, n).contains(f) <==> names_file(m, n, f),
{
    if own_files(m, n).contains(f) {
        if crate::ownership::key_at(m.source_map, n.id, f, None) {
            let ls = m.source_map[n.id];
            let a = choose|a: int|
                0 <= a < ls.len() && (#[trigger] ls[a]).pattern == f;
            assert(m.source_map[n.id][a].pattern == f);
        } else {
            let k = choose|k: int|
                0 <= k < n.responsibilities.len() && crate::ownership::key_at(
                    m.source_map,
                    (#[trigger] n.responsibilities[k]).id,
                    f,
                    None,
                );
            let ls = m.source_map[n.responsibilities[k].id];
            let a = choose|a: int|
                0 <= a < ls.len() && (#[trigger] ls[a]).pattern == f;
            assert(m.source_map[n.responsibilities[k].id][a].pattern == f);
        }
    }
    if names_file(m, n, f) {
        if m.source_map.contains_key(n.id) && exists|a: int|
            0 <= a < m.source_map[n.id].len() && (#[trigger] m.source_map[n.id][a]).pattern == f {
            let a = choose|a: int|
                0 <= a < m.source_map[n.id].len() && (#[trigger] m.source_map[n.id][a]).pattern == f;
            assert(m.source_map[n.id][a].pattern == f);
        } else {
            let (k, a) = choose|k: int, a: int|
                #![trigger m.source_map[n.responsibilities[k].id][a]]
                0 <= k < n.responsibilities.len() && m.source_map.contains_key(
                    n.responsibilities[k].id,
                ) && 0 <= a < m.source_map[n.responsibilities[k].id].len()
                    && m.source_map[n.responsibilities[k].id][a].pattern == f;
            assert(m.source_map[n.responsibilities[k].id][a].pattern == f);
            assert(crate::ownership::key_at(
                m.source_map,
                n.responsibilities[k].id,
                f,
                None,
            ));
        }
    }
}

proof fn lemma_union(us: Seq<Set<Seq<char>>>, h: Set<Seq<char>>, f: Seq<char>)
    ensures
        total::<StrSet>(us, h).contains(f) <==> h.contains(f) || exists|k: int|
            0 <= k < us.len() && (#[trigger] us[k]).contains(f),
    decreases us.len(),
{
    if us.len() > 0 {
        let d = us.drop_last();
        lemma_union(d, h, f);
        assert(us[us.len() - 1] == us.last());
        if exists|k: int| 0 <= k < d.len() && (#[trigger] d[k]).contains(f) {
            let k = choose|k: int| 0 <= k < d.len() && (#[trigger] d[k]).contains(f);
            assert(us[k] == d[k]);
        }
        if exists|k: int| 0 <= k < us.len() && (#[trigger] us[k]).contains(f) {
            let k = choose|k: int| 0 <= k < us.len() && (#[trigger] us[k]).contains(f);
            if k < d.len() {
                assert(d[k] == us[k]);
            }
        }
    }
}

/// A file is reached from a node exactly where an anchor of the node or of something below it, or
/// of one of their claims, names it.
pub proof fn law_which_files_are_reached(m: ScryModelView, i: int, f: Seq<char>)
    requires
        names_differ::<Node>(m.nodes),
        0 <= i < m.nodes.len(),
    ensures
        reached_files(m)[m.nodes[i].id].contains(f) <==> exists|j: int|
            0 <= j < m.nodes.len() && subtree(m.nodes, m.nodes[i].id).contains(
                (#[trigger] m.nodes[j]).id,
            ) && names_file(m, m.nodes[j], f),
{
    let ns = m.nodes;
    let id = ns[i].id;
    let bs = start_files(m);
    lemma_only_one(ns, i);
    lemma_below(ns, id);
    let s = subtree(ns, id);
    let us = figures_below(ns, bs, id);
    lemma_union(us, bs[id], f);
    assert(s.contains(s[0]));
    if reached_files(m)[id].contains(f) {
        if bs[id].contains(f) {
            lemma_own_files(m, ns[i], f);
            assert(s.contains(ns[i].id));
        } else {
            let k = choose|k: int| 0 <= k < us.len() && (#[trigger] us[k]).contains(f);
            let x = s[k + 1];
            assert(has_node(ns, s[k + 1]));
            let j = choose|j: int| 0 <= j < ns.len() && (#[trigger] ns[j]).id == x;
            lemma_only_one(ns, j);
            lemma_own_files(m, ns[j], f);
            assert(s.contains(ns[j].id));
        }
    }
    if exists|j: int|
        0 <= j < ns.len() && s.contains((#[trigger] ns[j]).id) && names_file(m, ns[j], f) {
        let j = choose|j: int|
            0 <= j < ns.len() && s.contains((#[trigger] ns[j]).id) && names_file(m, ns[j], f);
        lemma_only_one(ns, j);
        lemma_own_files(m, ns[j], f);
        let q = choose|q: int| 0 <= q < s.len() && s[q] == ns[j].id;
        if q > 0 {
            assert(us[q - 1] == bs[ns[j].id]);
            assert(us[q - 1].contains(f));
        }
    }
}

/// A node's region is told where it has a boundary: how many of the files it owns, and those of
/// them that are not reached, in ascending order.
pub proof fn law_what_a_region_tells(
    m: ScryModelView,
    id: Seq<char>,
    files: Set<Seq<char>>,
    reached: Set<Seq<char>>,
)
    ensures
        ({
            let rows = boundary_rows(m.boundaries, node_ids(m.nodes));
            let mine = ascending(files).filter(|f: Seq<char>| owned(rows, id, f));
            let dark = mine.filter(|f: Seq<char>| !reached.contains(f));
            let c = coverage(m, id, files, reached);
            &&& c is Some <==> m.boundaries.contains_key(id) && m.boundaries[id].len() > 0
            &&& c is Some ==> c->0.total_files == mine.len() && c->0.dark_files == dark
                && c->0.anchored_files == mine.len() - dark.len()
        }),
{
    let rows = boundary_rows(m.boundaries, node_ids(m.nodes));
    lemma_files_owned(rows, id, ascending(files));
    let mine = ascending(files).filter(|f: Seq<char>| owned(rows, id, f));
    lemma_dark(mine, reached);
    mine.lemma_filter_len(|f: Seq<char>| !reached.contains(f));
}

proof fn lemma_files_owned(
    rows: Seq<(Seq<char>, Seq<char>)>,
    id: Seq<char>,
    fs: Seq<Seq<char>>,
)
    ensures
        files_owned(rows, id, fs) == fs.filter(|f: Seq<char>| owned(rows, id, f)),
    decreases fs.len(),
{
    reveal(Seq::filter);
    if fs.len() > 0 {
        lemma_files_owned(rows, id, fs.drop_last());
    }
}

proof fn lemma_dark(fs: Seq<Seq<char>>, reached: Set<Seq<char>>)
    ensures
        dark_of(fs, reached) == fs.filter(|f: Seq<char>| !reached.contains(f)),
    decreases fs.len(),
{
    reveal(Seq::filter);
    if fs.len() > 0 {
        lemma_dark(fs.drop_last(), reached);
    }
}

// ---- completeness -----------------------------------------------------------------------

/// How many primitives a node brings, all told.
pub open spec fn primitives(m: ScryModelView, n: NodeView) -> nat {
    let leaf = !is_parent(m.nodes, n.id);
    let boxed: nat = if m.boundaries.contains_key(n.id) && m.boundaries[n.id].len() > 0 {
        1
    } else {
        0
    };
    if is_code(n) {
        boxed + leaf_primitives(m, n)
    } else {
        0
    }
}

/// How many of them must be written as code: the claims of a leaf, and its shape where it has
/// properties.
pub open spec fn leaf_primitives(m: ScryModelView, n: NodeView) -> nat {
    if is_code(n) && !is_parent(m.nodes, n.id) {
        n.responsibilities.len() + if n.properties.len() > 0 {
            1nat
        } else {
            0nat
        }
    } else {
        0
    }
}

/// How many of them stand: a boundary that owns a file, claims and a shape with a live anchor.
pub open spec fn standing_primitives(
    m: ScryModelView,
    solid: Set<Seq<char>>,
    live: Set<Seq<char>>,
    n: NodeView,
) -> nat {
    if is_code(n) {
        (if m.boundaries.contains_key(n.id) && m.boundaries[n.id].len() > 0 && solid.contains(n.id) {
            1nat
        } else {
            0nat
        }) + if !is_parent(m.nodes, n.id) {
            how_many(n.responsibilities, |r: ResponsibilityView| live.contains(r.id)) + if n.properties.len()
                > 0 && live.contains(n.id) {
                1nat
            } else {
                0nat
            }
        } else {
            0nat
        }
    } else {
        0
    }
}

proof fn lemma_live_claims(rs: Seq<ResponsibilityView>, live: Set<Seq<char>>)
    ensures
        live_claims(rs, live) == how_many(rs, |r: ResponsibilityView| live.contains(r.id)),
    decreases rs.len(),
{
    reveal(Seq::filter);
    if rs.len() > 0 {
        lemma_live_claims(rs.drop_last(), live);
    }
}

/// A node's completeness adds up, over the node and everything below it, each once, the
/// primitives there are, those that must be written as code, and those that stand.
pub proof fn law_completeness_adds_up_what_stands(
    m: ScryModelView,
    solid: Set<Seq<char>>,
    live: Set<Seq<char>>,
    i: int,
)
    requires
        names_differ::<Node>(m.nodes),
        0 <= i < m.nodes.len(),
    ensures
        ({
            let c = completeness_of(m, solid, live)[m.nodes[i].id];
            let s = subtree(m.nodes, m.nodes[i].id);
            let at = |x: Seq<char>| last_node(m.nodes, x)->0;
            &&& c.total == sum(s, |x: Seq<char>| primitives(m, at(x)))
            &&& c.leaf_total == sum(s, |x: Seq<char>| leaf_primitives(m, at(x)))
            &&& c.anchored == sum(s, |x: Seq<char>| standing_primitives(m, solid, live, at(x)))
        }),
{
    let ns = m.nodes;
    let id = ns[i].id;
    let bs = start_primitives(m, solid, live);
    let at = |x: Seq<char>| last_node(ns, x)->0;
    let c1 = |x: Seq<char>| primitives(m, at(x));
    let c2 = |x: Seq<char>| leaf_primitives(m, at(x));
    let c3 = |x: Seq<char>| standing_primitives(m, solid, live, at(x));
    let r1 = |v: CompletenessView, n: nat| v.total == n;
    let r2 = |v: CompletenessView, n: nat| v.leaf_total == n;
    let r3 = |v: CompletenessView, n: nat| v.anchored == n;
    assert(adds_up::<Completeness>(r1));
    assert(adds_up::<Completeness>(r2));
    assert(adds_up::<Completeness>(r3));
    assert forall|k: int| 0 <= k < ns.len() implies r1(bs[(#[trigger] ns[k]).id], c1(ns[k].id))
        && r2(bs[ns[k].id], c2(ns[k].id)) && r3(bs[ns[k].id], c3(ns[k].id)) by {
        lemma_only_one(ns, k);
        lemma_live_claims(ns[k].responsibilities, live);
    }
    assert(rated(ns, bs, r1, c1));
    assert(rated(ns, bs, r2, c2));
    assert(rated(ns, bs, r3, c3));
    lemma_only_one(ns, i);
    law_every_node_counts_once::<Completeness>(ns, bs, id, r1, c1);
    law_every_node_counts_once::<Completeness>(ns, bs, id, r2, c2);
    law_every_node_counts_once::<Completeness>(ns, bs, id, r3, c3);
}

/// A boundary stands where its node owns one of the files; an anchor is live where it names
/// something, everything it names is one of the files, and it is not known to be dead.
pub proof fn law_what_stands(
    m: ScryModelView,
    files: Set<Seq<char>>,
    dead: Seq<Seq<char>>,
    k: Seq<char>,
)
    ensures
        real_boxes_of(m, files).contains(k) <==> (exists|i: int|
            0 <= i < m.nodes.len() && (#[trigger] m.nodes[i]).id == k) && m.boundaries.contains_key(k)
            && m.boundaries[k].len() > 0 && exists|f: Seq<char>| #[trigger]
            files.contains(f) && owned(boundary_rows(m.boundaries, node_ids(m.nodes)), k, f),
        live_anchors_of(m, files, dead).contains(k) <==> has_anchor(m.source_map, k)
            && !dead.contains(k) && forall|a: int|
            0 <= a < m.source_map[k].len() ==> files.contains(
                (#[trigger] m.source_map[k][a]).pattern,
            ),
{
}

} // verus!
