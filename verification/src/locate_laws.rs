//! What is located at a file.

use crate::ears::pattern_of;
use crate::locate::{
    claim_of_hit, claims_of_hits, covers, hits, hits_at, hits_in, in_groups, in_nodes, located_at,
    names_down, report_of, touching, HitView, LocateResultView, LocatedClaimView, OwnerLinkView,
};
use crate::model::{
    GroupView, NodeView, Responsibility, ResponsibilityView, ScryModelView, SourceLocationView,
};
use crate::named::{first, lemma_place_of, place_of, Named};
use crate::text::{ascending, joined};
use vstd::prelude::*;

verus! {

/// Does one of the claims go by the id?
pub open spec fn claim_in(rs: Seq<ResponsibilityView>, id: Seq<char>) -> bool {
    exists|k: int| 0 <= k < rs.len() && (#[trigger] rs[k]).id == id
}

/// Is the id that of a node, or of a claim that a node or a group makes?
pub open spec fn is_known(m: ScryModelView, id: Seq<char>) -> bool {
    ||| exists|i: int|
        0 <= i < m.nodes.len() && ((#[trigger] m.nodes[i]).id == id || claim_in(
            m.nodes[i].responsibilities,
            id,
        ))
    ||| exists|i: int|
        0 <= i < m.groups.len() && claim_in((#[trigger] m.groups[i]).responsibilities, id)
}

proof fn lemma_claim_in(rs: Seq<ResponsibilityView>, id: Seq<char>)
    ensures
        first::<Responsibility>(rs, id) is Some <==> claim_in(rs, id),
        first::<Responsibility>(rs, id) is Some ==> first::<Responsibility>(rs, id)->0.id == id
            && rs.contains(first::<Responsibility>(rs, id)->0),
{
    lemma_place_of::<Responsibility>(rs, id);
    let q = place_of::<Responsibility>(rs, id);
    if q < rs.len() {
        assert(Responsibility::name_of(rs[q]) == id);
        assert(rs[q].id == id);
    }
    if claim_in(rs, id) {
        let k = choose|k: int| 0 <= k < rs.len() && (#[trigger] rs[k]).id == id;
        assert(Responsibility::name_of(rs[k]) == id);
    }
}

proof fn lemma_in_nodes(m: ScryModelView, ns: Seq<NodeView>, hit: HitView)
    ensures
        in_nodes(m, ns, hit) is Some <==> exists|i: int|
            0 <= i < ns.len() && ((#[trigger] ns[i]).id == hit.key || claim_in(
                ns[i].responsibilities,
                hit.key,
            )),
        in_nodes(m, ns, hit) is Some ==> {
            let c = in_nodes(m, ns, hit)->0;
            c.id == hit.key && c.anchor == hit.anchor && c.via_test == hit.via_test
        },
    decreases ns.len(),
{
    if ns.len() > 0 {
        let t = ns.drop_first();
        lemma_in_nodes(m, t, hit);
        lemma_claim_in(ns[0].responsibilities, hit.key);
        if in_nodes(m, t, hit) is Some {
            let i = choose|i: int|
                0 <= i < t.len() && ((#[trigger] t[i]).id == hit.key || claim_in(
                    t[i].responsibilities,
                    hit.key,
                ));
            assert(ns[i + 1] == t[i]);
        }
        if exists|i: int|
            0 <= i < ns.len() && ((#[trigger] ns[i]).id == hit.key || claim_in(
                ns[i].responsibilities,
                hit.key,
            )) {
            let i = choose|i: int|
                0 <= i < ns.len() && ((#[trigger] ns[i]).id == hit.key || claim_in(
                    ns[i].responsibilities,
                    hit.key,
                ));
            if i > 0 {
                assert(t[i - 1] == ns[i]);
            }
        }
    }
}

proof fn lemma_in_groups(m: ScryModelView, gs: Seq<GroupView>, hit: HitView)
    ensures
        in_groups(m, gs, hit) is Some <==> exists|i: int|
            0 <= i < gs.len() && claim_in((#[trigger] gs[i]).responsibilities, hit.key),
        in_groups(m, gs, hit) is Some ==> {
            let c = in_groups(m, gs, hit)->0;
            c.id == hit.key && c.anchor == hit.anchor && c.via_test == hit.via_test
        },
    decreases gs.len(),
{
    if gs.len() > 0 {
        let t = gs.drop_first();
        lemma_in_groups(m, t, hit);
        lemma_claim_in(gs[0].responsibilities, hit.key);
        if in_groups(m, t, hit) is Some {
            let i = choose|i: int|
                0 <= i < t.len() && claim_in((#[trigger] t[i]).responsibilities, hit.key);
            assert(gs[i + 1] == t[i]);
        }
        if exists|i: int|
            0 <= i < gs.len() && claim_in((#[trigger] gs[i]).responsibilities, hit.key) {
            let i = choose|i: int|
                0 <= i < gs.len() && claim_in((#[trigger] gs[i]).responsibilities, hit.key);
            if i > 0 {
                assert(t[i - 1] == gs[i]);
            }
        }
    }
}

proof fn lemma_claim_of_hit(m: ScryModelView, hit: HitView)
    ensures
        claim_of_hit(m, hit) is Some <==> is_known(m, hit.key),
        claim_of_hit(m, hit) is Some ==> {
            let c = claim_of_hit(m, hit)->0;
            c.id == hit.key && c.anchor == hit.anchor && c.via_test == hit.via_test
        },
{
    lemma_in_nodes(m, m.nodes, hit);
    lemma_in_groups(m, m.groups, hit);
}

proof fn lemma_hit_at(
    key: Seq<char>,
    locs: Seq<SourceLocationView>,
    file: Seq<char>,
    via_test: bool,
    h: HitView,
)
    ensures
        hits_at(key, locs, file, via_test).contains(h) <==> h.key == key && h.via_test == via_test
            && locs.contains(h.anchor) && covers(h.anchor.pattern, file),
    decreases locs.len(),
{
    if locs.len() > 0 {
        let d = locs.drop_last();
        lemma_hit_at(key, d, file, via_test, h);
        let a = hits_at(key, d, file, via_test);
        let b = hits_at(key, locs, file, via_test);
        let one = HitView { key, anchor: locs.last(), via_test };
        assert(locs[locs.len() - 1] == locs.last());
        if d.contains(h.anchor) {
            let i = choose|i: int| 0 <= i < d.len() && d[i] == h.anchor;
            assert(locs[i] == h.anchor);
        }
        if locs.contains(h.anchor) && h.anchor != locs.last() {
            let i = choose|i: int| 0 <= i < locs.len() && locs[i] == h.anchor;
            assert(d[i] == h.anchor);
        }
        if a.contains(h) {
            let i = choose|i: int| 0 <= i < a.len() && a[i] == h;
            assert(b[i] == h);
        }
        if covers(locs.last().pattern, file) {
            assert(b[a.len() as int] == one);
        }
        if b.contains(h) && !a.contains(h) {
            let i = choose|i: int| 0 <= i < b.len() && b[i] == h;
            if i < a.len() {
                assert(a[i] == h);
            }
            assert(h == one);
        }
        if h.key == key && h.via_test == via_test && h.anchor == locs.last() {
            assert(h == one);
        }
    }
}

proof fn lemma_hit_in(
    map: Map<Seq<char>, Seq<SourceLocationView>>,
    keys: Seq<Seq<char>>,
    file: Seq<char>,
    via_test: bool,
    h: HitView,
)
    ensures
        hits_in(map, keys, file, via_test).contains(h) <==> keys.contains(h.key) && h.via_test
            == via_test && map[h.key].contains(h.anchor) && covers(h.anchor.pattern, file),
    decreases keys.len(),
{
    if keys.len() > 0 {
        let d = keys.drop_last();
        let k = keys.last();
        lemma_hit_in(map, d, file, via_test, h);
        lemma_hit_at(k, map[k], file, via_test, h);
        let a = hits_in(map, d, file, via_test);
        let b = hits_at(k, map[k], file, via_test);
        lemma_either(a, b, h);
        assert(keys[keys.len() - 1] == k);
        if d.contains(h.key) {
            let i = choose|i: int| 0 <= i < d.len() && d[i] == h.key;
            assert(keys[i] == h.key);
        }
        if keys.contains(h.key) && h.key != k {
            let i = choose|i: int| 0 <= i < keys.len() && keys[i] == h.key;
            assert(d[i] == h.key);
        }
    }
}

proof fn lemma_either(a: Seq<HitView>, b: Seq<HitView>, h: HitView)
    ensures
        (a + b).contains(h) <==> a.contains(h) || b.contains(h),
{
    let s = a + b;
    if a.contains(h) {
        let i = choose|i: int| 0 <= i < a.len() && a[i] == h;
        assert(s[i] == h);
    }
    if b.contains(h) {
        let i = choose|i: int| 0 <= i < b.len() && b[i] == h;
        assert(s[a.len() + i] == h);
    }
    if s.contains(h) {
        let i = choose|i: int| 0 <= i < s.len() && s[i] == h;
        if i < a.len() {
            assert(a[i] == h);
        } else {
            assert(b[i - a.len()] == h);
        }
    }
}

/// Has the map an anchor at the key that covers the file?
pub open spec fn anchors_here(
    map: Map<Seq<char>, Seq<SourceLocationView>>,
    key: Seq<char>,
    anchor: SourceLocationView,
    file: Seq<char>,
) -> bool {
    map.contains_key(key) && map[key].contains(anchor) && covers(anchor.pattern, file)
}

proof fn lemma_hit(m: ScryModelView, file: Seq<char>, h: HitView)
    requires
        m.source_map.dom().finite(),
        m.test_map.dom().finite(),
    ensures
        hits(m, file).contains(h) <==> if h.via_test {
            anchors_here(m.test_map, h.key, h.anchor, file)
        } else {
            anchors_here(m.source_map, h.key, h.anchor, file)
        },
{
    crate::text::lemma_ascending_of(m.source_map.dom());
    crate::text::lemma_ascending_of(m.test_map.dom());
    let ks = ascending(m.source_map.dom());
    let kt = ascending(m.test_map.dom());
    assert(ks.to_set().contains(h.key) == ks.contains(h.key));
    assert(kt.to_set().contains(h.key) == kt.contains(h.key));
    lemma_hit_in(m.source_map, ks, file, false, h);
    lemma_hit_in(m.test_map, kt, file, true, h);
    lemma_either(
        hits_in(m.source_map, ks, file, false),
        hits_in(m.test_map, kt, file, true),
        h,
    );
}

proof fn lemma_located(m: ScryModelView, hs: Seq<HitView>, c: LocatedClaimView)
    ensures
        claims_of_hits(m, hs).contains(c) <==> exists|i: int|
            0 <= i < hs.len() && claim_of_hit(m, #[trigger] hs[i]) == Some(c),
    decreases hs.len(),
{
    if hs.len() > 0 {
        let d = hs.drop_last();
        lemma_located(m, d, c);
        let a = claims_of_hits(m, d);
        let b = claims_of_hits(m, hs);
        assert(hs[hs.len() - 1] == hs.last());
        if a.contains(c) {
            let i = choose|i: int| 0 <= i < a.len() && a[i] == c;
            assert(b[i] == c);
            let k = choose|k: int| 0 <= k < d.len() && claim_of_hit(m, #[trigger] d[k]) == Some(c);
            assert(claim_of_hit(m, hs[k]) == Some(c));
        }
        if claim_of_hit(m, hs.last()) is Some {
            assert(b[a.len() as int] == claim_of_hit(m, hs.last())->0);
        }
        if b.contains(c) && !a.contains(c) {
            let i = choose|i: int| 0 <= i < b.len() && b[i] == c;
            if i < a.len() {
                assert(a[i] == c);
            }
        }
        if exists|i: int| 0 <= i < hs.len() && claim_of_hit(m, #[trigger] hs[i]) == Some(c) {
            let i = choose|i: int| 0 <= i < hs.len() && claim_of_hit(m, #[trigger] hs[i]) == Some(c);
            if i < d.len() {
                assert(claim_of_hit(m, d[i]) == Some(c));
            }
        }
    }
}

/// Everything anchored at a file is located there: for each key of a node, or of a claim that
/// any node or group makes, and each anchor of it in the file, where code stands or in a test,
/// one of the claims located without a symbol goes by that key and has that anchor.
pub proof fn law_everything_anchored_is_located(
    m: ScryModelView,
    file: Seq<char>,
    key: Seq<char>,
    anchor: SourceLocationView,
    via_test: bool,
)
    requires
        m.source_map.dom().finite(),
        m.test_map.dom().finite(),
        is_known(m, key),
        if via_test {
            anchors_here(m.test_map, key, anchor, file)
        } else {
            anchors_here(m.source_map, key, anchor, file)
        },
    ensures
        exists|i: int|
            0 <= i < located_at(m, file, None).claims.len() && {
                let c = #[trigger] located_at(m, file, None).claims[i];
                c.id == key && c.anchor == anchor && c.via_test == via_test
            },
{
    let h = HitView { key, anchor, via_test };
    lemma_hit(m, file, h);
    lemma_claim_of_hit(m, h);
    let hs = hits(m, file);
    let i = choose|i: int| 0 <= i < hs.len() && hs[i] == h;
    let c = claim_of_hit(m, h)->0;
    assert(claim_of_hit(m, hs[i]) == Some(c));
    lemma_located(m, hs, c);
    let cs = located_at(m, file, None).claims;
    assert(cs == claims_of_hits(m, hs));
    let k = choose|k: int| 0 <= k < cs.len() && cs[k] == c;
    assert(cs[k].id == key);
}

/// Nothing else is located: what is goes by a key that names something, and its anchor is one
/// of that key's that covers the file.
pub proof fn law_only_what_is_anchored_is_located(
    m: ScryModelView,
    file: Seq<char>,
    i: int,
)
    requires
        m.source_map.dom().finite(),
        m.test_map.dom().finite(),
        0 <= i < located_at(m, file, None).claims.len(),
    ensures
        ({
            let c = located_at(m, file, None).claims[i];
            &&& is_known(m, c.id)
            &&& if c.via_test {
                anchors_here(m.test_map, c.id, c.anchor, file)
            } else {
                anchors_here(m.source_map, c.id, c.anchor, file)
            }
        }),
{
    let hs = hits(m, file);
    let cs = located_at(m, file, None).claims;
    assert(cs == claims_of_hits(m, hs));
    let c = cs[i];
    assert(cs.contains(c));
    lemma_located(m, hs, c);
    let k = choose|k: int| 0 <= k < hs.len() && claim_of_hit(m, #[trigger] hs[k]) == Some(c);
    lemma_claim_of_hit(m, hs[k]);
    lemma_hit(m, file, hs[k]);
    assert(hs.contains(hs[k]));
}

/// The tests of a key.
pub open spec fn tests_at(m: ScryModelView, key: Seq<char>) -> Seq<SourceLocationView> {
    if m.test_map.contains_key(key) {
        m.test_map[key]
    } else {
        Seq::empty()
    }
}

/// Is the claim told in full: as its host makes it, with the tests of its id, and flagged where
/// its form can be tested and none is?
pub open spec fn told_in_full(
    m: ScryModelView,
    r: ResponsibilityView,
    host: Seq<char>,
    name: Seq<char>,
    c: LocatedClaimView,
) -> bool {
    &&& c.id == r.id
    &&& c.statement == Some(r.statement)
    &&& c.host_id == host
    &&& c.host_name == name
    &&& c.stale == r.stale
    &&& c.vagrant == r.vagrant
    &&& c.directives == r.directives
    &&& c.cites == r.cites
    &&& c.tests == tests_at(m, r.id)
    &&& c.untested == (pattern_of(r.statement).is_testable() && tests_at(m, r.id).len() == 0)
}

proof fn lemma_node_told(m: ScryModelView, ns: Seq<NodeView>, hit: HitView, i: int, k: int)
    requires
        0 <= i < ns.len(),
        0 <= k < ns[i].responsibilities.len(),
        ns[i].responsibilities[k].id == hit.key,
        forall|j: int| 0 <= j < k ==> (#[trigger] ns[i].responsibilities[j]).id != hit.key,
        forall|h: int|
            0 <= h < i ==> (#[trigger] ns[h]).id != hit.key && !claim_in(
                ns[h].responsibilities,
                hit.key,
            ),
    ensures
        in_nodes(m, ns, hit) is Some,
        told_in_full(
            m,
            ns[i].responsibilities[k],
            ns[i].id,
            ns[i].name,
            in_nodes(m, ns, hit)->0,
        ),
    decreases ns.len(),
{
    if i == 0 {
        let rs = ns[0].responsibilities;
        lemma_place_of::<Responsibility>(rs, hit.key);
        let q = place_of::<Responsibility>(rs, hit.key);
        assert(Responsibility::name_of(rs[k]) == hit.key);
        if q < k {
            assert(Responsibility::name_of(rs[q]) == hit.key);
            assert(rs[q].id != hit.key);
        }
    } else {
        let t = ns.drop_first();
        lemma_claim_in(ns[0].responsibilities, hit.key);
        assert(ns[0].id != hit.key);
        assert(t[i - 1] == ns[i]);
        assert forall|h: int| 0 <= h < i - 1 implies (#[trigger] t[h]).id != hit.key && !claim_in(
            t[h].responsibilities,
            hit.key,
        ) by {
            assert(t[h] == ns[h + 1]);
        }
        lemma_node_told(m, t, hit, i - 1, k);
    }
}

proof fn lemma_group_told(m: ScryModelView, gs: Seq<GroupView>, hit: HitView, i: int, k: int)
    requires
        0 <= i < gs.len(),
        0 <= k < gs[i].responsibilities.len(),
        gs[i].responsibilities[k].id == hit.key,
        forall|j: int| 0 <= j < k ==> (#[trigger] gs[i].responsibilities[j]).id != hit.key,
        forall|h: int| 0 <= h < i ==> !claim_in((#[trigger] gs[h]).responsibilities, hit.key),
    ensures
        in_groups(m, gs, hit) is Some,
        told_in_full(
            m,
            gs[i].responsibilities[k],
            gs[i].id,
            gs[i].name,
            in_groups(m, gs, hit)->0,
        ),
    decreases gs.len(),
{
    if i == 0 {
        let rs = gs[0].responsibilities;
        lemma_place_of::<Responsibility>(rs, hit.key);
        let q = place_of::<Responsibility>(rs, hit.key);
        assert(Responsibility::name_of(rs[k]) == hit.key);
        if q < k {
            assert(Responsibility::name_of(rs[q]) == hit.key);
            assert(rs[q].id != hit.key);
        }
    } else {
        let t = gs.drop_first();
        lemma_claim_in(gs[0].responsibilities, hit.key);
        assert(t[i - 1] == gs[i]);
        assert forall|h: int| 0 <= h < i - 1 implies !claim_in(
            (#[trigger] t[h]).responsibilities,
            hit.key,
        ) by {
            assert(t[h] == gs[h + 1]);
        }
        lemma_group_told(m, t, hit, i - 1, k);
    }
}

/// A located claim is told as the first node that makes it does: its statement, marks,
/// directives and citations, its host, the tests of its id, and whether it is testable and
/// untested.
pub proof fn law_a_located_claim_is_told_in_full(
    m: ScryModelView,
    file: Seq<char>,
    i: int,
    k: int,
    q: int,
)
    requires
        m.source_map.dom().finite(),
        m.test_map.dom().finite(),
        0 <= i < m.nodes.len(),
        0 <= k < m.nodes[i].responsibilities.len(),
        forall|j: int|
            0 <= j < k ==> (#[trigger] m.nodes[i].responsibilities[j]).id
                != m.nodes[i].responsibilities[k].id,
        forall|h: int|
            0 <= h < i ==> (#[trigger] m.nodes[h]).id != m.nodes[i].responsibilities[k].id
                && !claim_in(m.nodes[h].responsibilities, m.nodes[i].responsibilities[k].id),
        0 <= q < located_at(m, file, None).claims.len(),
        located_at(m, file, None).claims[q].id == m.nodes[i].responsibilities[k].id,
    ensures
        told_in_full(
            m,
            m.nodes[i].responsibilities[k],
            m.nodes[i].id,
            m.nodes[i].name,
            located_at(m, file, None).claims[q],
        ),
{
    let hs = hits(m, file);
    let cs = located_at(m, file, None).claims;
    assert(cs == claims_of_hits(m, hs));
    let c = cs[q];
    assert(cs.contains(c));
    lemma_located(m, hs, c);
    let h = choose|h: int| 0 <= h < hs.len() && claim_of_hit(m, #[trigger] hs[h]) == Some(c);
    lemma_claim_of_hit(m, hs[h]);
    lemma_node_told(m, m.nodes, hs[h], i, k);
}

/// The same holds of a claim that a group makes, where no node makes it or goes by its id.
pub proof fn law_a_located_group_claim_is_told_in_full(
    m: ScryModelView,
    file: Seq<char>,
    i: int,
    k: int,
    q: int,
)
    requires
        m.source_map.dom().finite(),
        m.test_map.dom().finite(),
        0 <= i < m.groups.len(),
        0 <= k < m.groups[i].responsibilities.len(),
        forall|j: int|
            0 <= j < k ==> (#[trigger] m.groups[i].responsibilities[j]).id
                != m.groups[i].responsibilities[k].id,
        forall|h: int|
            0 <= h < i ==> !claim_in(
                (#[trigger] m.groups[h]).responsibilities,
                m.groups[i].responsibilities[k].id,
            ),
        forall|h: int|
            0 <= h < m.nodes.len() ==> (#[trigger] m.nodes[h]).id
                != m.groups[i].responsibilities[k].id && !claim_in(
                m.nodes[h].responsibilities,
                m.groups[i].responsibilities[k].id,
            ),
        0 <= q < located_at(m, file, None).claims.len(),
        located_at(m, file, None).claims[q].id == m.groups[i].responsibilities[k].id,
    ensures
        told_in_full(
            m,
            m.groups[i].responsibilities[k],
            m.groups[i].id,
            m.groups[i].name,
            located_at(m, file, None).claims[q],
        ),
{
    let hs = hits(m, file);
    let cs = located_at(m, file, None).claims;
    assert(cs == claims_of_hits(m, hs));
    let c = cs[q];
    assert(cs.contains(c));
    lemma_located(m, hs, c);
    let h = choose|h: int| 0 <= h < hs.len() && claim_of_hit(m, #[trigger] hs[h]) == Some(c);
    lemma_claim_of_hit(m, hs[h]);
    lemma_in_nodes(m, m.nodes, hs[h]);
    lemma_group_told(m, m.groups, hs[h], i, k);
}

proof fn lemma_declared(m: ScryModelView, ns: Seq<NodeView>, hit: HitView, i: int)
    requires
        0 <= i < ns.len(),
        ns[i].id == hit.key,
        forall|h: int| 0 <= h <= i ==> !claim_in((#[trigger] ns[h]).responsibilities, hit.key),
        forall|h: int| 0 <= h < i ==> (#[trigger] ns[h]).id != hit.key,
    ensures
        in_nodes(m, ns, hit) == Some(
            LocatedClaimView {
                id: ns[i].id,
                statement: None,
                host_id: ns[i].id,
                host_name: ns[i].name,
                stale: ns[i].stale,
                vagrant: ns[i].vagrant,
                directives: ns[i].directives,
                cites: Seq::empty(),
                anchor: hit.anchor,
                tests: Seq::empty(),
                untested: false,
                via_test: hit.via_test,
            },
        ),
    decreases ns.len(),
{
    lemma_claim_in(ns[0].responsibilities, hit.key);
    assert(!claim_in(ns[0].responsibilities, hit.key));
    if i > 0 {
        let t = ns.drop_first();
        assert(ns[0].id != hit.key);
        assert(t[i - 1] == ns[i]);
        assert forall|h: int| 0 <= h <= i - 1 implies !claim_in(
            (#[trigger] t[h]).responsibilities,
            hit.key,
        ) by {
            assert(t[h] == ns[h + 1]);
        }
        assert forall|h: int| 0 <= h < i - 1 implies (#[trigger] t[h]).id != hit.key by {
            assert(t[h] == ns[h + 1]);
        }
        lemma_declared(m, t, hit, i - 1);
    }
}

/// A located node is told as it is declared: its marks and directives, without a statement,
/// citations or tests.
pub proof fn law_a_located_node_is_told_as_declared(
    m: ScryModelView,
    file: Seq<char>,
    i: int,
    q: int,
)
    requires
        m.source_map.dom().finite(),
        m.test_map.dom().finite(),
        0 <= i < m.nodes.len(),
        forall|h: int|
            0 <= h <= i ==> !claim_in((#[trigger] m.nodes[h]).responsibilities, m.nodes[i].id),
        forall|h: int| 0 <= h < i ==> (#[trigger] m.nodes[h]).id != m.nodes[i].id,
        0 <= q < located_at(m, file, None).claims.len(),
        located_at(m, file, None).claims[q].id == m.nodes[i].id,
    ensures
        ({
            let c = located_at(m, file, None).claims[q];
            let n = m.nodes[i];
            &&& c.statement is None
            &&& c.host_id == n.id
            &&& c.host_name == n.name
            &&& c.stale == n.stale
            &&& c.vagrant == n.vagrant
            &&& c.directives == n.directives
            &&& c.cites.len() == 0
            &&& c.tests.len() == 0
            &&& !c.untested
        }),
{
    let hs = hits(m, file);
    let cs = located_at(m, file, None).claims;
    assert(cs == claims_of_hits(m, hs));
    let c = cs[q];
    assert(cs.contains(c));
    lemma_located(m, hs, c);
    let h = choose|h: int| 0 <= h < hs.len() && claim_of_hit(m, #[trigger] hs[h]) == Some(c);
    lemma_claim_of_hit(m, hs[h]);
    lemma_declared(m, m.nodes, hs[h], i);
}

// ---- the report -------------------------------------------------------------------------

/// The pending entries of a report are those of the plan, in its order, whose element or whose
/// owner is an owner of the file, its boundary's owner, or located there or the host of
/// something that is.
pub proof fn law_a_report_tells_what_is_pending_there(
    c: ScryModelView,
    p: ScryModelView,
    file: Seq<char>,
    symbol: Option<Seq<char>>,
)
    ensures
        ({
            let r = report_of(c, p, file, symbol);
            let there = |id: Seq<char>|
                {
                    ||| exists|i: int|
                        0 <= i < r.result.owner_chain.len() && (
                        #[trigger] r.result.owner_chain[i]).id == id
                    ||| r.result.boundary_owner is Some && r.result.boundary_owner->0.id == id
                    ||| exists|i: int|
                        0 <= i < r.result.claims.len() && ((#[trigger] r.result.claims[i]).id == id
                            || r.result.claims[i].host_id == id)
                };
            &&& r.result == located_at(crate::commit::working(c, p), file, symbol)
            &&& r.pending == crate::diff::diff_of(c, p).filter(
                |e: crate::diff::ElementChangeView|
                    there(e.id) || (e.owner_id is Some && there(e.owner_id->0)),
            )
        }),
{
    let r = report_of(c, p, file, symbol);
    let there = |id: Seq<char>|
        {
            ||| exists|i: int|
                0 <= i < r.result.owner_chain.len() && (#[trigger] r.result.owner_chain[i]).id == id
            ||| r.result.boundary_owner is Some && r.result.boundary_owner->0.id == id
            ||| exists|i: int|
                0 <= i < r.result.claims.len() && ((#[trigger] r.result.claims[i]).id == id
                    || r.result.claims[i].host_id == id)
        };
    lemma_touching(r.result, crate::diff::diff_of(c, p), there);
}

proof fn lemma_touching(
    res: LocateResultView,
    cs: Seq<crate::diff::ElementChangeView>,
    there: spec_fn(Seq<char>) -> bool,
)
    requires
        forall|id: Seq<char>| #[trigger] there(id) == crate::locate::is_located(res, id),
    ensures
        touching(res, cs) == cs.filter(
            |e: crate::diff::ElementChangeView|
                there(e.id) || (e.owner_id is Some && there(e.owner_id->0)),
        ),
    decreases cs.len(),
{
    reveal(Seq::filter);
    if cs.len() > 0 {
        lemma_touching(res, cs.drop_last(), there);
        let e = cs.last();
        assert(there(e.id) == crate::locate::is_located(res, e.id));
        if e.owner_id is Some {
            assert(there(e.owner_id->0) == crate::locate::is_located(res, e.owner_id->0));
        }
    }
}

/// A report tells the way down to the owner by its names, the topmost first; and none where the
/// file has no owner.
pub proof fn law_a_report_tells_the_way_down(
    committed: ScryModelView,
    planned: ScryModelView,
    file: Seq<char>,
    symbol: Option<Seq<char>>,
)
    ensures
        ({
            let r = report_of(committed, planned, file, symbol);
            let line = r.result.owner_chain;
            &&& line.len() == 0 ==> r.path is None
            &&& line.len() > 0 ==> r.path == Some(
                joined(line.reverse().map_values(|o: OwnerLinkView| o.name), " / "@),
            )
        }),
{
    let line = report_of(committed, planned, file, symbol).result.owner_chain;
    assert(names_down(line) =~= line.reverse().map_values(|o: OwnerLinkView| o.name));
}

} // verus!
