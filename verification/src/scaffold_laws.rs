//! What committing a node brings along: the ancestors it needs, the links it touches and the
//! groups it completes.

use crate::commit::{
    dependents_among, first_absent, marks_resolved, moved_in, plan_only, ready_groups, ready_links,
    scaffold, scaffolded, swept, Sweep,
};
use crate::commit_laws::{
    anchors_moved, group_among, is_first_node, lemma_group_among, lemma_node_among,
    lemma_other_links, node_among,
};
use crate::diff::{ChangeView, ElementChangeView, ElementKind};
use crate::model::{Group, GroupView, Link, LinkView, Node, NodeView, ScryModelView};
use crate::named::{first, has_named, lemma_place_is, lemma_place_of, others, place_of, Named};
use vstd::prelude::*;

verus! {

// ---- ancestors --------------------------------------------------------------------------

/// Is the node at the head of a chain of parents: without a parent, or with a committed one?
pub open spec fn stands_on(m: ScryModelView, n: NodeView) -> bool {
    n.parent_id is None || node_among(m.nodes, n.parent_id->0)
}

/// The planned node of this id: the first.
pub open spec fn planned_node(p: ScryModelView, id: Seq<char>) -> NodeView {
    first::<Node>(p.nodes, id)->0
}

/// The way up, nearest first.
spec fn is_way_up(
    m: ScryModelView,
    p: ScryModelView,
    up: Option<Seq<char>>,
    r: Seq<Seq<char>>,
) -> bool {
    &&& forall|k: int|
        0 <= k < r.len() ==> node_among(p.nodes, #[trigger] r[k]) && !node_among(m.nodes, r[k])
    &&& forall|k: int, l: int|
        0 <= k && l == k + 1 && l < r.len() ==> planned_node(p, #[trigger] r[k]).parent_id == Some(
            #[trigger] r[l],
        )
    &&& r.len() == 0 ==> up is None || node_among(m.nodes, up->0)
    &&& r.len() > 0 ==> up == Some(r[0]) && stands_on(m, planned_node(p, r.last()))
}

proof fn lemma_way_up(
    m: ScryModelView,
    p: ScryModelView,
    id: Seq<char>,
    up: Option<Seq<char>>,
    seen: Seq<Seq<char>>,
)
    requires
        plan_only(m.nodes, p.nodes, id, up, seen) is Ok,
    ensures
        is_way_up(m, p, up, plan_only(m.nodes, p.nodes, id, up, seen)->Ok_0),
        plan_only(m.nodes, p.nodes, id, up, seen)->Ok_0.no_duplicates(),
        forall|k: int|
            0 <= k < plan_only(m.nodes, p.nodes, id, up, seen)->Ok_0.len() ==> !seen.contains(
                #[trigger] plan_only(m.nodes, p.nodes, id, up, seen)->Ok_0[k],
            ),
    decreases plan_only(m.nodes, p.nodes, id, up, seen)->Ok_0.len(),
{
    let r = plan_only(m.nodes, p.nodes, id, up, seen)->Ok_0;
    if up is Some {
        let pid = up->0;
        lemma_node_among(m.nodes, pid);
        if !has_named::<Node>(m.nodes, pid) {
            lemma_node_among(p.nodes, pid);
            lemma_place_of::<Node>(p.nodes, pid);
            let n = p.nodes[place_of::<Node>(p.nodes, pid)];
            assert(planned_node(p, pid) == n);
            let rest = plan_only(m.nodes, p.nodes, id, n.parent_id, seen.push(pid))->Ok_0;
            assert(r == seq![pid] + rest);
            lemma_way_up(m, p, id, n.parent_id, seen.push(pid));
            assert forall|k: int| 0 <= k < rest.len() implies #[trigger] rest[k] != pid
                && !seen.contains(rest[k]) by {
                let s = seen.push(pid);
                assert(!s.contains(rest[k]));
                assert(s[seen.len() as int] == pid);
                if seen.contains(rest[k]) {
                    let j = choose|j: int| 0 <= j < seen.len() && seen[j] == rest[k];
                    assert(s[j] == rest[k]);
                }
            }
            assert forall|k: int| 0 <= k < r.len() implies node_among(p.nodes, #[trigger] r[k])
                && !node_among(m.nodes, r[k]) && !seen.contains(r[k]) by {
                if k > 0 {
                    assert(r[k] == rest[k - 1]);
                }
            }
            assert forall|k: int, l: int| 0 <= k && l == k + 1 && l < r.len() implies planned_node(
                p,
                #[trigger] r[k],
            ).parent_id == Some(#[trigger] r[l]) by {
                assert(r[l] == rest[l - 1]);
                if k > 0 {
                    assert(r[k] == rest[k - 1]);
                    assert(planned_node(p, rest[k - 1]).parent_id == Some(rest[l - 1]));
                } else {
                    assert(n.parent_id == Some(rest[0]));
                }
            }
            assert forall|i: int, j: int| 0 <= i < j < r.len() implies r[i] != r[j] by {
                assert(r[j] == rest[j - 1]);
                if i > 0 {
                    assert(r[i] == rest[i - 1]);
                }
            }
            if rest.len() > 0 {
                assert(r.last() == rest.last());
            } else {
                assert(r.last() == pid);
            }
        }
    }
}

/// Scaffolding a node commits the ancestors that only the plan has, the topmost first: each is
/// the parent of the next, the first stands at the top or on a committed node, and the last is
/// the parent of the node. Where it is asked for, the node itself comes last, unless it is
/// committed. None comes twice.
pub proof fn law_whom_scaffolding_commits(
    m: ScryModelView,
    p: ScryModelView,
    id: Seq<char>,
    include_self: bool,
)
    requires
        scaffold(m, p, id, include_self) is Ok,
    ensures
        ({
            let ids = (scaffold(m, p, id, include_self)->Ok_0).0;
            let own = include_self && !node_among(m.nodes, id);
            let above = if own {
                ids.drop_last()
            } else {
                ids
            };
            &&& node_among(p.nodes, id)
            &&& ids.no_duplicates()
            &&& own ==> ids.len() > 0 && ids.last() == id
            &&& forall|k: int|
                0 <= k < ids.len() ==> node_among(p.nodes, #[trigger] ids[k]) && !node_among(
                    m.nodes,
                    ids[k],
                )
            &&& forall|k: int, l: int|
                0 <= k && l == k + 1 && l < above.len() ==> planned_node(
                    p,
                    #[trigger] above[l],
                ).parent_id == Some(#[trigger] above[k])
            &&& above.len() > 0 ==> stands_on(m, planned_node(p, above[0])) && planned_node(
                p,
                id,
            ).parent_id == Some(above.last())
            &&& above.len() == 0 ==> stands_on(m, planned_node(p, id))
        }),
{
    lemma_place_of::<Node>(p.nodes, id);
    lemma_node_among(p.nodes, id);
    lemma_node_among(m.nodes, id);
    let n = planned_node(p, id);
    let up = plan_only(m.nodes, p.nodes, id, n.parent_id, seq![id])->Ok_0;
    let ids = (scaffold(m, p, id, include_self)->Ok_0).0;
    let own = include_self && !node_among(m.nodes, id);
    lemma_way_up(m, p, id, n.parent_id, seq![id]);
    let back = up.reverse();
    assert forall|k: int| 0 <= k < up.len() implies #[trigger] up[k] != id by {
        let s = seq![id];
        assert(s[0] == id);
        assert(!s.contains(up[k]));
    }
    let above = if own {
        ids.drop_last()
    } else {
        ids
    };
    assert(above =~= back);
    assert forall|k: int| 0 <= k < ids.len() implies node_among(p.nodes, #[trigger] ids[k])
        && !node_among(m.nodes, ids[k]) by {
        if k < back.len() {
            assert(ids[k] == up[up.len() - 1 - k]);
        }
    }
    assert forall|k: int, l: int| 0 <= k && l == k + 1 && l < above.len() implies planned_node(
        p,
        #[trigger] above[l],
    ).parent_id == Some(#[trigger] above[k]) by {
        assert(above[l] == up[up.len() - 1 - l]);
        assert(above[k] == up[up.len() - 1 - k]);
    }
    assert forall|i: int, j: int| 0 <= i < j < ids.len() implies ids[i] != ids[j] by {
        assert(ids[i] == up[up.len() - 1 - i]);
        if j < back.len() {
            assert(ids[j] == up[up.len() - 1 - j]);
        }
    }
    if above.len() > 0 {
        assert(above[0] == up.last());
        assert(above.last() == up[0]);
    }
}

/// Where none goes by the id all remain.
pub proof fn lemma_none_gone(ns: Seq<NodeView>, id: Seq<char>)
    requires
        !node_among(ns, id),
    ensures
        others::<Node>(ns, id) == ns,
    decreases ns.len(),
{
    if ns.len() > 0 {
        let d = ns.drop_last();
        assert(ns[ns.len() - 1].id != id);
        assert(!node_among(d, id)) by {
            if node_among(d, id) {
                let i = choose|i: int| 0 <= i < d.len() && (#[trigger] d[i]).id == id;
                assert(ns[i].id == id);
            }
        }
        lemma_none_gone(d, id);
        assert(d.push(ns.last()) =~= ns);
    }
}

/// A planned node as scaffolding commits it: as it is planned, without its claims, its
/// properties and its marks.
pub open spec fn as_structure(n: NodeView) -> NodeView {
    NodeView {
        responsibilities: Seq::empty(),
        properties: Seq::empty(),
        vagrant: None,
        stale: None,
        ..n
    }
}

spec fn structures(p: ScryModelView, ids: Seq<Seq<char>>) -> Seq<NodeView> {
    ids.map_values(|x: Seq<char>| as_structure(planned_node(p, x)))
}

proof fn lemma_scaffolded(m: ScryModelView, p: ScryModelView, ids: Seq<Seq<char>>)
    requires
        ids.no_duplicates(),
        forall|k: int|
            0 <= k < ids.len() ==> node_among(p.nodes, #[trigger] ids[k]) && !node_among(
                m.nodes,
                ids[k],
            ),
    ensures
        ({
            let c = scaffolded(m, p, ids);
            &&& c.nodes == m.nodes + structures(p, ids)
            &&& c == (ScryModelView {
                nodes: c.nodes,
                source_map: c.source_map,
                boundaries: c.boundaries,
                ..m
            })
            &&& c.source_map == moved_in(m.source_map, p.source_map, ids)
            &&& c.boundaries == moved_in(m.boundaries, p.boundaries, ids)
        }),
    decreases ids.len(),
{
    let c = scaffolded(m, p, ids);
    if ids.len() == 0 {
        assert(structures(p, ids) =~= Seq::empty());
        assert(c.nodes =~= m.nodes + structures(p, ids));
        lemma_moved_on(m.source_map, p.source_map, ids);
        lemma_moved_on(m.boundaries, p.boundaries, ids);
    } else {
        let d = ids.drop_last();
        let n = ids.len() - 1;
        let id = ids.last();
        assert(ids[n] == id);
        assert forall|k: int| 0 <= k < d.len() implies node_among(p.nodes, #[trigger] d[k])
            && !node_among(m.nodes, d[k]) by {
            assert(d[k] == ids[k]);
        }
        assert(d.no_duplicates()) by {
            assert forall|i: int, j: int| 0 <= i < j < d.len() implies d[i] != d[j] by {
                assert(ids[i] != ids[j]);
            }
        }
        lemma_scaffolded(m, p, d);
        let before = scaffolded(m, p, d);
        assert(!node_among(before.nodes, id)) by {
            if node_among(before.nodes, id) {
                let i = choose|i: int|
                    0 <= i < before.nodes.len() && (#[trigger] before.nodes[i]).id == id;
                if i < m.nodes.len() {
                    assert(m.nodes[i].id == id);
                } else {
                    let j = i - m.nodes.len();
                    assert(before.nodes[i] == structures(p, d)[j]);
                    lemma_node_among(p.nodes, d[j]);
                    lemma_place_of::<Node>(p.nodes, d[j]);
                    assert(planned_node(p, d[j]).id == d[j]);
                    assert(d[j] == ids[j]);
                }
            }
        }
        lemma_none_gone(before.nodes, id);
        lemma_node_among(p.nodes, id);
        lemma_place_of::<Node>(p.nodes, id);
        assert(planned_node(p, id) == p.nodes[place_of::<Node>(p.nodes, id)]);
        assert(structures(p, ids) =~= structures(p, d).push(as_structure(planned_node(p, id))));
        assert(c.nodes =~= m.nodes + structures(p, ids));
        lemma_moved_on(m.source_map, p.source_map, ids);
        lemma_moved_on(m.boundaries, p.boundaries, ids);
    }
}

proof fn lemma_moved_on<A>(
    was: Map<Seq<char>, A>,
    plan: Map<Seq<char>, A>,
    ids: Seq<Seq<char>>,
)
    ensures
        ids.len() == 0 ==> moved_in(was, plan, ids) == was,
        ids.len() > 0 ==> moved_in(moved_in(was, plan, ids.drop_last()), plan, seq![ids.last()])
            == moved_in(was, plan, ids),
{
    if ids.len() == 0 {
        assert(moved_in(was, plan, ids) =~= was);
    } else {
        let d = ids.drop_last();
        let id = ids.last();
        let one = seq![id];
        assert forall|k: Seq<char>| #[trigger] ids.to_set().contains(k) <==> d.to_set().contains(k)
            || one.to_set().contains(k) by {
            assert(one[0] == id);
            assert(ids[ids.len() - 1] == id);
            if ids.contains(k) && k != id {
                let j = choose|j: int| 0 <= j < ids.len() && ids[j] == k;
                assert(d[j] == k);
            }
            if d.contains(k) {
                let j = choose|j: int| 0 <= j < d.len() && d[j] == k;
                assert(ids[j] == k);
            }
        }
        assert(moved_in(moved_in(was, plan, d), plan, one) =~= moved_in(was, plan, ids));
    }
}

/// Scaffolding puts the nodes it names behind the committed ones, as structure alone, and moves
/// their own anchors and boundaries over; nothing else of committed changes, and no test.
pub proof fn law_what_scaffolding_commits(
    m: ScryModelView,
    p: ScryModelView,
    id: Seq<char>,
    include_self: bool,
)
    requires
        scaffold(m, p, id, include_self) is Ok,
    ensures
        ({
            let ids = (scaffold(m, p, id, include_self)->Ok_0).0;
            let f = (scaffold(m, p, id, include_self)->Ok_0).1;
            let (c, q) = (f.committed, f.planned);
            let moves = |k: Seq<char>| ids.contains(k);
            &&& c.nodes == m.nodes + ids.map_values(
                |x: Seq<char>| as_structure(planned_node(p, x)),
            )
            &&& c == (ScryModelView {
                nodes: c.nodes,
                source_map: c.source_map,
                boundaries: c.boundaries,
                ..m
            })
            &&& anchors_moved(m.source_map, p.source_map, c.source_map, q.source_map, moves)
            &&& anchors_moved(m.boundaries, p.boundaries, c.boundaries, q.boundaries, moves)
            &&& q.test_map == p.test_map && q.links == p.links && q.groups == p.groups
            &&& f.rewrites == (q != p)
        }),
{
    law_whom_scaffolding_commits(m, p, id, include_self);
    let ids = (scaffold(m, p, id, include_self)->Ok_0).0;
    let f = (scaffold(m, p, id, include_self)->Ok_0).1;
    let moves = |k: Seq<char>| ids.contains(k);
    lemma_scaffolded(m, p, ids);
    assert(f.committed == scaffolded(m, p, ids));
    if ids.len() == 0 {
        assert(ids =~= Seq::empty());
    }
    lemma_moved_over(m.source_map, p.source_map, ids, f.planned.source_map);
    lemma_moved_over(m.boundaries, p.boundaries, ids, f.planned.boundaries);
}

proof fn lemma_moved_over<A>(
    was: Map<Seq<char>, A>,
    plan: Map<Seq<char>, A>,
    ids: Seq<Seq<char>>,
    left: Map<Seq<char>, A>,
)
    requires
        left == plan.remove_keys(ids.to_set()) || (ids.len() == 0 && left == plan),
    ensures
        anchors_moved(was, plan, moved_in(was, plan, ids), left, |k: Seq<char>| ids.contains(k)),
{
    let is_now = moved_in(was, plan, ids);
    let moves = |k: Seq<char>| ids.contains(k);
    assert forall|k: Seq<char>|
        #![trigger is_now.contains_key(k)]
        #![trigger left.contains_key(k)]
        {
            &&& left.contains_key(k) <==> plan.contains_key(k) && !moves(k)
            &&& left.contains_key(k) ==> left[k] == plan[k]
            &&& is_now.contains_key(k) <==> was.contains_key(k) || (plan.contains_key(k) && moves(
                k,
            ))
            &&& is_now.contains_key(k) ==> is_now[k] == if plan.contains_key(k) && moves(k) {
                plan[k]
            } else {
                was[k]
            }
        } by {
        assert(ids.to_set().contains(k) == ids.contains(k));
    }
}

/// The plan keeps its nodes through scaffolding; those that were committed lose their marks.
pub proof fn law_scaffolding_settles_the_marks(
    m: ScryModelView,
    p: ScryModelView,
    id: Seq<char>,
    include_self: bool,
)
    requires
        scaffold(m, p, id, include_self) is Ok,
    ensures
        ({
            let ids = (scaffold(m, p, id, include_self)->Ok_0).0;
            let q = (scaffold(m, p, id, include_self)->Ok_0).1.planned;
            &&& q.nodes.len() == p.nodes.len()
            &&& forall|i: int|
                0 <= i < p.nodes.len() ==> (#[trigger] q.nodes[i]) == if is_first_node(p.nodes, i)
                    && ids.contains(p.nodes[i].id) {
                    NodeView { vagrant: None, stale: None, ..p.nodes[i] }
                } else {
                    p.nodes[i]
                }
        }),
{
    let ids = (scaffold(m, p, id, include_self)->Ok_0).0;
    lemma_marks(p.nodes, ids);
}

proof fn lemma_marks(ns: Seq<NodeView>, ids: Seq<Seq<char>>)
    ensures
        marks_resolved(ns, ids).len() == ns.len(),
        forall|i: int|
            0 <= i < ns.len() ==> (#[trigger] marks_resolved(ns, ids)[i]) == if is_first_node(ns, i)
                && ids.contains(ns[i].id) {
                NodeView { vagrant: None, stale: None, ..ns[i] }
            } else {
                ns[i]
            },
    decreases ids.len(),
{
    if ids.len() > 0 {
        let d = ids.drop_last();
        let x = ids.last();
        lemma_marks(ns, d);
        let before = marks_resolved(ns, d);
        let all = marks_resolved(ns, ids);
        lemma_place_of::<Node>(before, x);
        let j = place_of::<Node>(before, x);
        assert(ids[ids.len() - 1] == x);
        assert forall|i: int| 0 <= i < ns.len() implies (#[trigger] all[i]) == if is_first_node(
            ns,
            i,
        ) && ids.contains(ns[i].id) {
            NodeView { vagrant: None, stale: None, ..ns[i] }
        } else {
            ns[i]
        } by {
            assert(before[i].id == ns[i].id);
            if d.contains(ns[i].id) {
                let k = choose|k: int| 0 <= k < d.len() && d[k] == ns[i].id;
                assert(ids[k] == ns[i].id);
            }
            if ids.contains(ns[i].id) && ns[i].id != x {
                let k = choose|k: int| 0 <= k < ids.len() && ids[k] == ns[i].id;
                assert(d[k] == ns[i].id);
            }
            if i == j {
                assert(ns[i].id == x);
                assert forall|k: int| 0 <= k < i implies (#[trigger] ns[k]).id != ns[i].id by {
                    assert(Node::name_of(before[k]) != x);
                    assert(before[k].id == ns[k].id);
                }
                assert(is_first_node(ns, i));
            } else if ns[i].id == x && is_first_node(ns, i) {
                assert forall|k: int| 0 <= k < i implies Node::name_of(#[trigger] before[k]) != x by {
                    assert(before[k].id == ns[k].id);
                }
                lemma_place_is::<Node>(before, x, i);
            }
        }
    }
}

// ---- dependents -------------------------------------------------------------------------

/// Is there an entry for the element of this kind and id that does not delete it?
pub open spec fn awaits(d: Seq<ElementChangeView>, kind: ElementKind, id: Seq<char>) -> bool {
    exists|i: int|
        0 <= i < d.len() && (#[trigger] d[i]).kind == kind && d[i].id == id
            && !d[i].changes.contains(ChangeView::Deleted)
}

/// Does the link end at the node, and are its two ends committed?
pub open spec fn can_follow(m: ScryModelView, l: LinkView, id: Seq<char>) -> bool {
    &&& l.src == id || l.dst == id
    &&& node_among(m.nodes, l.src)
    &&& node_among(m.nodes, l.dst)
}

/// Does the group hold the node, and is all that it needs committed?
pub open spec fn can_complete(m: ScryModelView, g: GroupView, id: Seq<char>) -> bool {
    &&& g.member_ids.contains(id)
    &&& forall|k: int|
        0 <= k < g.member_ids.len() ==> node_among(m.nodes, #[trigger] g.member_ids[k])
    &&& g.parent_node_id is Some ==> node_among(m.nodes, g.parent_node_id->0)
    &&& g.parent_group_id is Some ==> group_among(m.groups, g.parent_group_id->0)
}

proof fn lemma_some_awaits(d: Seq<ElementChangeView>, kind: ElementKind, id: Seq<char>)
    requires
        d.len() > 0,
    ensures
        awaits(d, kind, id) <==> awaits(d.drop_last(), kind, id) || (d.last().kind == kind
            && d.last().id == id && !d.last().changes.contains(ChangeView::Deleted)),
{
    let e = d.drop_last();
    let n = d.len() - 1;
    assert(d[n] == d.last());
    if awaits(e, kind, id) {
        let i = choose|i: int|
            0 <= i < e.len() && (#[trigger] e[i]).kind == kind && e[i].id == id
                && !e[i].changes.contains(ChangeView::Deleted);
        assert(d[i] == e[i]);
    }
    if awaits(d, kind, id) {
        let i = choose|i: int|
            0 <= i < d.len() && (#[trigger] d[i]).kind == kind && d[i].id == id
                && !d[i].changes.contains(ChangeView::Deleted);
        if i < n {
            assert(e[i] == d[i]);
        }
    }
}

proof fn lemma_pushed(s: Seq<Seq<char>>, x: Seq<char>, y: Seq<char>)
    ensures
        s.push(x).contains(y) <==> s.contains(y) || x == y,
{
    let t = s.push(x);
    assert(t[s.len() as int] == x);
    if s.contains(y) {
        let k = choose|k: int| 0 <= k < s.len() && s[k] == y;
        assert(t[k] == y);
    }
    if t.contains(y) && x != y {
        let k = choose|k: int| 0 <= k < t.len() && t[k] == y;
        assert(s[k] == y);
    }
}

/// The links that a node pulls in are those the plan has an entry for, that end at the node and
/// whose two ends are committed.
pub proof fn law_which_links_are_ready(
    m: ScryModelView,
    p: ScryModelView,
    id: Seq<char>,
    d: Seq<ElementChangeView>,
    x: Seq<char>,
)
    ensures
        ready_links(m, p, id, d).contains(x) <==> awaits(d, ElementKind::Link, x) && first::<Link>(
            p.links,
            x,
        ) is Some && can_follow(m, first::<Link>(p.links, x)->0, id),
    decreases d.len(),
{
    if d.len() > 0 {
        let e = d.drop_last();
        let c = d.last();
        law_which_links_are_ready(m, p, id, e, x);
        lemma_some_awaits(d, ElementKind::Link, x);
        let rest = ready_links(m, p, id, e);
        lemma_place_of::<Link>(p.links, c.id);
        lemma_place_of::<Link>(p.links, x);
        if first::<Link>(p.links, c.id) is Some {
            let l = first::<Link>(p.links, c.id)->0;
            assert(l.id == c.id);
            lemma_node_among(m.nodes, l.src);
            lemma_node_among(m.nodes, l.dst);
            lemma_pushed(rest, l.id, x);
        }
    }
}

proof fn lemma_none_absent(ms: Seq<Seq<char>>, ns: Seq<NodeView>)
    ensures
        first_absent(ms, ns) is None <==> forall|k: int|
            0 <= k < ms.len() ==> node_among(ns, #[trigger] ms[k]),
    decreases ms.len(),
{
    if ms.len() > 0 {
        let t = ms.drop_first();
        lemma_none_absent(t, ns);
        lemma_node_among(ns, ms[0]);
        if first_absent(ms, ns) is None {
            assert forall|k: int| 0 <= k < ms.len() implies node_among(ns, #[trigger] ms[k]) by {
                if k > 0 {
                    assert(t[k - 1] == ms[k]);
                }
            }
        }
        if forall|k: int| 0 <= k < ms.len() ==> node_among(ns, #[trigger] ms[k]) {
            assert forall|k: int| 0 <= k < t.len() implies node_among(ns, #[trigger] t[k]) by {
                assert(ms[k + 1] == t[k]);
            }
            assert(node_among(ns, ms[0]));
        }
    }
}

/// The groups that a node pulls in are those the plan has an entry for, that hold the node and
/// whose members, anchor and parent group are all committed.
pub proof fn law_which_groups_are_ready(
    m: ScryModelView,
    p: ScryModelView,
    id: Seq<char>,
    d: Seq<ElementChangeView>,
    x: Seq<char>,
)
    ensures
        ready_groups(m, p, id, d).contains(x) <==> awaits(d, ElementKind::Group, x)
            && first::<Group>(p.groups, x) is Some && can_complete(
            m,
            first::<Group>(p.groups, x)->0,
            id,
        ),
    decreases d.len(),
{
    if d.len() > 0 {
        let e = d.drop_last();
        let c = d.last();
        law_which_groups_are_ready(m, p, id, e, x);
        lemma_some_awaits(d, ElementKind::Group, x);
        let rest = ready_groups(m, p, id, e);
        lemma_place_of::<Group>(p.groups, c.id);
        lemma_place_of::<Group>(p.groups, x);
        if first::<Group>(p.groups, c.id) is Some {
            let g = first::<Group>(p.groups, c.id)->0;
            assert(g.id == c.id);
            lemma_none_absent(g.member_ids, m.nodes);
            if g.parent_node_id is Some {
                lemma_node_among(m.nodes, g.parent_node_id->0);
            }
            if g.parent_group_id is Some {
                lemma_group_among(m.groups, g.parent_group_id->0);
            }
            lemma_pushed(rest, g.id, x);
        }
    }
}

/// Does committed have the link as it is planned?
pub open spec fn linked_as_planned(c: ScryModelView, p: ScryModelView, x: Seq<char>) -> bool {
    &&& first::<Link>(p.links, x) is Some
    &&& c.links.contains(first::<Link>(p.links, x)->0)
}

proof fn lemma_links_swept(
    s: Sweep,
    m: ScryModelView,
    p: ScryModelView,
    ids: Seq<Seq<char>>,
)
    requires
        s.committed == m,
        s.planned == p,
        s.failed is None,
        forall|k: int|
            0 <= k < ids.len() ==> first::<Link>(p.links, #[trigger] ids[k]) is Some && node_among(
                m.nodes,
                first::<Link>(p.links, ids[k])->0.src,
            ) && node_among(m.nodes, first::<Link>(p.links, ids[k])->0.dst),
    ensures
        ({
            let t = swept(s, ElementKind::Link, ids);
            &&& t.failed is None
            &&& t.committed == (ScryModelView { links: t.committed.links, ..m })
            &&& t.planned.nodes == p.nodes && t.planned.links == p.links && t.planned.groups
                == p.groups
            &&& forall|k: int|
                0 <= k < ids.len() ==> linked_as_planned(t.committed, p, #[trigger] ids[k])
            &&& t.committed.links.filter(|l: LinkView| !ids.contains(l.id)) == m.links.filter(
                |l: LinkView| !ids.contains(l.id),
            )
        }),
    decreases ids.len(),
{
    let t = swept(s, ElementKind::Link, ids);
    if ids.len() > 0 {
        let d = ids.drop_last();
        let x = ids.last();
        let n = ids.len() - 1;
        assert(ids[n] == x);
        assert forall|k: int| 0 <= k < d.len() implies first::<Link>(p.links, #[trigger] d[k]) is Some
            && node_among(m.nodes, first::<Link>(p.links, d[k])->0.src) && node_among(
            m.nodes,
            first::<Link>(p.links, d[k])->0.dst,
        ) by {
            assert(d[k] == ids[k]);
        }
        lemma_links_swept(s, m, p, d);
        let b = swept(s, ElementKind::Link, d);
        let l = first::<Link>(p.links, x)->0;
        lemma_place_of::<Link>(p.links, x);
        assert(l.id == x);
        lemma_node_among(m.nodes, l.src);
        lemma_node_among(m.nodes, l.dst);
        let old_links = b.committed.links;
        lemma_other_links(old_links, x);
        let kept = old_links.filter(|y: LinkView| y.id != x);
        assert(t.committed.links == kept.push(l));
        assert(t.committed.links[kept.len() as int] == l);
        assert forall|k: int| 0 <= k < ids.len() implies linked_as_planned(
            t.committed,
            p,
            #[trigger] ids[k],
        ) by {
            if k < n {
                assert(d[k] == ids[k]);
                let y = first::<Link>(p.links, d[k])->0;
                lemma_place_of::<Link>(p.links, d[k]);
                assert(y.id == d[k]);
                assert(linked_as_planned(b.committed, p, d[k]));
                if d[k] != x {
                    let j = choose|j: int| 0 <= j < old_links.len() && old_links[j] == y;
                    old_links.lemma_filter_contains(|y: LinkView| y.id != x, j);
                    let q = choose|q: int| 0 <= q < kept.len() && kept[q] == y;
                    assert(t.committed.links[q] == y);
                }
            }
        }
        let f = |l: LinkView| !ids.contains(l.id);
        let g = |l: LinkView| !d.contains(l.id);
        let h = |y: LinkView| y.id != x;
        assert forall|y: LinkView| #[trigger] f(y) == (g(y) && h(y)) by {
            lemma_pushed(d, x, y.id);
            assert(d.push(x) =~= ids);
        }
        lemma_filter_both(old_links, f, g, h);
        lemma_filter_both(m.links, f, g, h);
        lemma_filter_both(old_links, f, h, g);
        lemma_filter_pushed(kept, l, f);
        lemma_filter_both(old_links, f, h, f);
    }
}

proof fn lemma_filter_pushed<A>(s: Seq<A>, x: A, f: spec_fn(A) -> bool)
    ensures
        s.push(x).filter(f) == if f(x) {
            s.filter(f).push(x)
        } else {
            s.filter(f)
        },
{
    reveal(Seq::filter);
    assert(s.push(x).drop_last() =~= s);
}

proof fn lemma_filter_both<A>(
    s: Seq<A>,
    f: spec_fn(A) -> bool,
    g: spec_fn(A) -> bool,
    h: spec_fn(A) -> bool,
)
    requires
        forall|x: A| #[trigger] f(x) == (g(x) && h(x)),
    ensures
        s.filter(f) == s.filter(g).filter(h),
    decreases s.len(),
{
    reveal(Seq::filter);
    if s.len() > 0 {
        let d = s.drop_last();
        let x = s.last();
        lemma_filter_both(d, f, g, h);
        assert(f(x) == (g(x) && h(x)));
        if g(x) {
            lemma_filter_pushed(d.filter(g), x, h);
        }
    }
}

proof fn lemma_groups_swept(s: Sweep, ids: Seq<Seq<char>>)
    requires
        s.failed is None,
    ensures
        ({
            let t = swept(s, ElementKind::Group, ids);
            &&& t.committed.links == s.committed.links
            &&& t.committed.nodes == s.committed.nodes
            &&& t.committed.boundaries == s.committed.boundaries
        }),
    decreases ids.len(),
{
    if ids.len() > 0 {
        lemma_groups_swept(s, ids.drop_last());
    }
}

/// Every link that is ready is committed as it is planned; the other links, and the nodes, stay
/// as they are.
pub proof fn law_ready_links_are_committed(
    m: ScryModelView,
    p: ScryModelView,
    id: Seq<char>,
    d: Seq<ElementChangeView>,
)
    requires
        node_among(m.nodes, id),
    ensures
        ({
            let c = dependents_among(m, p, id, d).committed;
            let ready = ready_links(m, p, id, d);
            &&& forall|x: Seq<char>| #[trigger]
                ready.contains(x) ==> linked_as_planned(c, p, x)
            &&& c.links.filter(|l: LinkView| !ready.contains(l.id)) == m.links.filter(
                |l: LinkView| !ready.contains(l.id),
            )
            &&& c.nodes == m.nodes && c.boundaries == m.boundaries
        }),
{
    let ready = ready_links(m, p, id, d);
    let start = Sweep {
        committed: m,
        planned: p,
        closed: Seq::empty(),
        rewrites: false,
        failed: None,
    };
    lemma_node_among(m.nodes, id);
    assert forall|k: int| 0 <= k < ready.len() implies first::<Link>(
        p.links,
        #[trigger] ready[k],
    ) is Some && node_among(m.nodes, first::<Link>(p.links, ready[k])->0.src) && node_among(
        m.nodes,
        first::<Link>(p.links, ready[k])->0.dst,
    ) by {
        assert(ready.contains(ready[k]));
        law_which_links_are_ready(m, p, id, d, ready[k]);
    }
    lemma_links_swept(start, m, p, ready);
    let mid = swept(start, ElementKind::Link, ready);
    lemma_groups_swept(mid, ready_groups(m, p, id, d));
    assert forall|x: Seq<char>| #[trigger] ready.contains(x) implies linked_as_planned(
        dependents_among(m, p, id, d).committed,
        p,
        x,
    ) by {
        let k = choose|k: int| 0 <= k < ready.len() && ready[k] == x;
        assert(linked_as_planned(mid.committed, p, ready[k]));
    }
}

proof fn lemma_groups_there(s: Sweep, ids: Seq<Seq<char>>)
    requires
        s.failed is None,
        swept(s, ElementKind::Group, ids).failed is None,
        forall|k: int|
            0 <= k < ids.len() ==> first::<Group>(s.planned.groups, #[trigger] ids[k]) is Some,
    ensures
        ({
            let t = swept(s, ElementKind::Group, ids);
            &&& forall|k: int|
                0 <= k < ids.len() ==> group_among(t.committed.groups, #[trigger] ids[k])
            &&& forall|x: Seq<char>|
                first::<Group>(s.planned.groups, x) is Some <==> #[trigger] first::<Group>(
                    t.planned.groups,
                    x,
                ) is Some
        }),
    decreases ids.len(),
{
    if ids.len() > 0 {
        let d = ids.drop_last();
        let x = ids.last();
        assert(ids[ids.len() - 1] == x);
        let b = swept(s, ElementKind::Group, d);
        let t = swept(s, ElementKind::Group, ids);
        assert forall|k: int| 0 <= k < d.len() implies first::<Group>(
            s.planned.groups,
            #[trigger] d[k],
        ) is Some by {
            assert(d[k] == ids[k]);
        }
        lemma_groups_there(s, d);
        assert(first::<Group>(s.planned.groups, x) is Some);
        assert(first::<Group>(b.planned.groups, x) is Some);
        lemma_place_of::<Group>(b.planned.groups, x);
        let i = place_of::<Group>(b.planned.groups, x);
        crate::commit_laws::law_a_folded_group_is_as_planned(
            b.committed,
            b.planned,
            i,
            Seq::empty(),
        );
        let kept = b.committed.groups.filter(|y: GroupView| y.id != x);
        let n = kept.len() as int;
        assert(t.committed.groups[n].id == x);
        assert forall|k: int| 0 <= k < ids.len() implies group_among(
            t.committed.groups,
            #[trigger] ids[k],
        ) by {
            if ids[k] != x {
                assert(d[k] == ids[k]);
                let j = choose|j: int|
                    0 <= j < b.committed.groups.len() && (#[trigger] b.committed.groups[j]).id
                        == d[k];
                let y = b.committed.groups[j];
                b.committed.groups.lemma_filter_contains(|y: GroupView| y.id != x, j);
                let q = choose|q: int| 0 <= q < kept.len() && kept[q] == y;
                assert(t.committed.groups[q] == y);
                assert(t.committed.groups[q].id == ids[k]);
            }
        }
        assert forall|y: Seq<char>|
            first::<Group>(s.planned.groups, y) is Some <==> #[trigger] first::<Group>(
                t.planned.groups,
                y,
            ) is Some by {
            assert(first::<Group>(s.planned.groups, y) is Some <==> first::<Group>(
                b.planned.groups,
                y,
            ) is Some);
            lemma_place_of::<Group>(b.planned.groups, y);
            lemma_place_of::<Group>(t.planned.groups, y);
            let (u, v) = (b.planned.groups, t.planned.groups);
            assert(v.len() == u.len());
            if has_named::<Group>(u, y) {
                let j = choose|j: int| 0 <= j < u.len() && Group::name_of(#[trigger] u[j]) == y;
                assert(Group::name_of(v[j]) == y);
            }
            if has_named::<Group>(v, y) {
                let j = choose|j: int| 0 <= j < v.len() && Group::name_of(#[trigger] v[j]) == y;
                assert(Group::name_of(u[j]) == y);
            }
        }
    }
}

/// Where nothing fails, every group that is ready is committed.
pub proof fn law_ready_groups_are_committed(
    m: ScryModelView,
    p: ScryModelView,
    id: Seq<char>,
    d: Seq<ElementChangeView>,
    x: Seq<char>,
)
    requires
        node_among(m.nodes, id),
        dependents_among(m, p, id, d).failed is None,
        ready_groups(m, p, id, d).contains(x),
    ensures
        group_among(dependents_among(m, p, id, d).committed.groups, x),
{
    let links = ready_links(m, p, id, d);
    let ready = ready_groups(m, p, id, d);
    let start = Sweep {
        committed: m,
        planned: p,
        closed: Seq::empty(),
        rewrites: false,
        failed: None,
    };
    lemma_node_among(m.nodes, id);
    assert forall|k: int| 0 <= k < links.len() implies first::<Link>(
        p.links,
        #[trigger] links[k],
    ) is Some && node_among(m.nodes, first::<Link>(p.links, links[k])->0.src) && node_among(
        m.nodes,
        first::<Link>(p.links, links[k])->0.dst,
    ) by {
        assert(links.contains(links[k]));
        law_which_links_are_ready(m, p, id, d, links[k]);
    }
    lemma_links_swept(start, m, p, links);
    let mid = swept(start, ElementKind::Link, links);
    assert forall|k: int| 0 <= k < ready.len() implies first::<Group>(
        mid.planned.groups,
        #[trigger] ready[k],
    ) is Some by {
        assert(ready.contains(ready[k]));
        law_which_groups_are_ready(m, p, id, d, ready[k]);
    }
    lemma_groups_there(mid, ready);
    let k = choose|k: int| 0 <= k < ready.len() && ready[k] == x;
    assert(group_among(swept(mid, ElementKind::Group, ready).committed.groups, ready[k]));
}

/// A node that is not committed pulls in nothing.
pub proof fn law_only_a_committed_node_pulls(
    m: ScryModelView,
    p: ScryModelView,
    id: Seq<char>,
    d: Seq<ElementChangeView>,
)
    requires
        !node_among(m.nodes, id),
    ensures
        ({
            let s = dependents_among(m, p, id, d);
            s.committed == m && s.planned == p && s.closed.len() == 0 && !s.rewrites && s.failed
                is None
        }),
{
    lemma_node_among(m.nodes, id);
}

} // verus!
