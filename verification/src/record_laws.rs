//! What has changed since a sign-off, what taking back a claim or a property leaves, and what the
//! events of a change tell.

use crate::changes::{ChangeMetaView, Classification, SignOffView, SignedEntryView};
use crate::commit_laws::{
    is_first_claim, is_first_group, is_first_group_claim, is_first_node, lemma_first_node,
    lemma_other_claims, lemma_other_props,
};
use crate::diff::{ChangeView, ElementChangeView, ElementKind};
use crate::history::{EventKind, EventRowView};
use crate::ledger::{
    abandon_rows, attributed, change_event, claims_back_on_groups, claims_back_on_nodes, opened,
    reverted, DroppedEntryView,
};
use crate::ledger_laws::law_what_is_filed_under_a_change;
use crate::model::{
    groups_without_claim, nodes_without_claim, Group, GroupView, Node, NodeView, Responsibility,
    ResponsibilityView, SchemaProperty, SchemaPropertyView, ScryModelView,
};
use crate::named::{first, has_named, lemma_place_is, lemma_place_of, place_of, Named};
use crate::signoff::{
    another_hand, entry, findings, keys_of, left_out, moved_on, signature, signers, FindingView,
};
use crate::text::{ascending, lemma_ascending_of, trimmed};
use vstd::prelude::*;

verus! {

// ---- since a sign-off -------------------------------------------------------------------

/// What an entry reads as now: by the digest of its text, or as deleted.
pub open spec fn reads_now(m: ScryModelView, k: Seq<char>) -> Seq<char> {
    match entry(m, k) {
        Some(e) => e.hash,
        None => "deleted"@,
    }
}

/// Is it right to say this of an entry: amended where it is filed and reads otherwise than it was
/// signed, added where it is filed and was not signed, dropped where it was signed and is not
/// filed any more?
pub open spec fn is_found(
    m: ScryModelView,
    cid: Seq<char>,
    was: Map<Seq<char>, SignedEntryView>,
    x: FindingView,
) -> bool {
    let filed = m.change_map.contains_key(x.0) && m.change_map[x.0] == cid;
    match x.1 {
        Classification::Amended => filed && was.contains_key(x.0) && was[x.0].hash != reads_now(
            m,
            x.0,
        ) && x.2 == Some(was[x.0]),
        Classification::Added => filed && !was.contains_key(x.0) && x.2 is None,
        Classification::Dropped => !filed && was.contains_key(x.0) && x.2 == Some(was[x.0]),
        _ => false,
    }
}

proof fn lemma_one_more(s: Seq<FindingView>, y: FindingView, x: FindingView)
    ensures
        s.push(y).contains(x) <==> s.contains(x) || y == x,
{
    let t = s.push(y);
    assert(t[s.len() as int] == y);
    if s.contains(x) {
        let k = choose|k: int| 0 <= k < s.len() && s[k] == x;
        assert(t[k] == x);
    }
    if t.contains(x) && x != y {
        let k = choose|k: int| 0 <= k < t.len() && t[k] == x;
        assert(s[k] == x);
    }
}

proof fn lemma_key_joins(ks: Seq<Seq<char>>, k: Seq<char>)
    requires
        ks.len() > 0,
    ensures
        ks.contains(k) <==> ks.drop_last().contains(k) || ks.last() == k,
{
    let d = ks.drop_last();
    assert(ks[ks.len() - 1] == ks.last());
    if d.contains(k) {
        let j = choose|j: int| 0 <= j < d.len() && d[j] == k;
        assert(ks[j] == k);
    }
    if ks.contains(k) && ks.last() != k {
        let j = choose|j: int| 0 <= j < ks.len() && ks[j] == k;
        assert(d[j] == k);
    }
}

proof fn lemma_moved_on(
    m: ScryModelView,
    was: Map<Seq<char>, SignedEntryView>,
    ks: Seq<Seq<char>>,
    x: FindingView,
)
    ensures
        moved_on(m, was, ks).contains(x) <==> ks.contains(x.0) && (x.1 == Classification::Amended
            && was.contains_key(x.0) && was[x.0].hash != reads_now(m, x.0) && x.2 == Some(was[x.0])
            || x.1 == Classification::Added && !was.contains_key(x.0) && x.2 is None),
    decreases ks.len(),
{
    if ks.len() > 0 {
        let d = ks.drop_last();
        let k = ks.last();
        lemma_moved_on(m, was, d, x);
        lemma_key_joins(ks, x.0);
        let rest = moved_on(m, was, d);
        if was.contains_key(k) {
            lemma_one_more(rest, (k, Classification::Amended, Some(was[k])), x);
        } else {
            lemma_one_more(rest, (k, Classification::Added, None), x);
        }
    }
}

proof fn lemma_left_out(
    was: Map<Seq<char>, SignedEntryView>,
    filed: Seq<Seq<char>>,
    ks: Seq<Seq<char>>,
    x: FindingView,
)
    ensures
        left_out(was, filed, ks).contains(x) <==> ks.contains(x.0) && x.1
            == Classification::Dropped && !filed.contains(x.0) && x.2 == Some(was[x.0]),
    decreases ks.len(),
{
    if ks.len() > 0 {
        let d = ks.drop_last();
        let k = ks.last();
        lemma_left_out(was, filed, d, x);
        lemma_key_joins(ks, x.0);
        lemma_one_more(left_out(was, filed, d), (k, Classification::Dropped, Some(was[k])), x);
    }
}

/// Against a sign-off exactly what has changed since is found, of every entry that is filed under
/// the change or was signed with it; without one nothing is.
pub proof fn law_what_is_found_since_a_sign_off(
    m: ScryModelView,
    meta: ChangeMetaView,
    x: FindingView,
)
    requires
        m.change_map.dom().finite(),
        meta.signed_off is Some ==> meta.signed_off->0.entries.dom().finite(),
    ensures
        meta.signed_off is None ==> findings(m, meta).len() == 0,
        meta.signed_off is Some ==> (findings(m, meta).contains(x) <==> is_found(
            m,
            meta.id,
            meta.signed_off->0.entries,
            x,
        )),
{
    if meta.signed_off is Some {
        let was = meta.signed_off->0.entries;
        let filed = keys_of(m.change_map, meta.id);
        let ks = ascending(was.dom());
        lemma_ascending_of(was.dom());
        law_what_is_filed_under_a_change(m.change_map, meta.id, x.0);
        lemma_moved_on(m, was, filed, x);
        lemma_left_out(was, filed, ks, x);
        assert(ks.to_set().contains(x.0) == ks.contains(x.0));
        let a = moved_on(m, was, filed);
        let b = left_out(was, filed, ks);
        let all = findings(m, meta);
        if a.contains(x) {
            let k = choose|k: int| 0 <= k < a.len() && a[k] == x;
            assert(all[k] == x);
        }
        if b.contains(x) {
            let k = choose|k: int| 0 <= k < b.len() && b[k] == x;
            assert(all[a.len() + k] == x);
        }
        if all.contains(x) {
            let k = choose|k: int| 0 <= k < all.len() && all[k] == x;
            if k < a.len() {
                assert(a[k] == x);
            } else {
                assert(b[k - a.len()] == x);
            }
        }
    }
}

/// Whose a signature is: of whoever signs by name, then for the person named with it and stale
/// no more; of whoever had signed, where no name is given; else of no one.
pub proof fn law_whose_a_signature_is(
    prev: Option<SignOffView>,
    entries: Map<Seq<char>, SignedEntryView>,
    now: u64,
    actor: Option<Seq<char>>,
    person: Option<Seq<char>>,
)
    ensures
        ({
            let s = signature(prev, entries, now, actor, person);
            &&& s.at == now && s.entries == entries
            &&& actor is Some && trimmed(actor->0).len() > 0 ==> {
                &&& s.by == Some(trimmed(actor->0))
                &&& s.staled_by is None
                &&& s.on_behalf_of == if person is Some && trimmed(person->0).len() > 0 {
                    Some(trimmed(person->0))
                } else {
                    None
                }
            }
            &&& !(actor is Some && trimmed(actor->0).len() > 0) ==> match prev {
                Some(p) => s.by == p.by && s.on_behalf_of == p.on_behalf_of && s.staled_by
                    == p.staled_by,
                None => s.by is None && s.on_behalf_of is None && s.staled_by is None,
            }
        }),
{
}

/// Another hand wrote it only where both are named, and by different names.
pub proof fn law_when_it_is_another_hand(writer: Option<Seq<char>>, signer: Option<Seq<char>>)
    ensures
        another_hand(writer, signer) <==> writer is Some && signer is Some && trimmed(
            writer->0,
        ).len() > 0 && trimmed(signer->0).len() > 0 && trimmed(writer->0) != trimmed(signer->0),
{
}

/// The changes that are signed off, each with its signer, in order.
pub proof fn law_who_has_signed(cs: Seq<ChangeMetaView>)
    ensures
        signers(cs) == cs.filter(|c: ChangeMetaView| c.signed_off is Some).map_values(
            |c: ChangeMetaView| (c.id, c.signed_off->0.by),
        ),
    decreases cs.len(),
{
    reveal(Seq::filter);
    let f = |c: ChangeMetaView| c.signed_off is Some;
    let g = |c: ChangeMetaView| (c.id, c.signed_off->0.by);
    if cs.len() > 0 {
        law_who_has_signed(cs.drop_last());
        let before = cs.drop_last().filter(f);
        if cs.last().signed_off is Some {
            assert(before.push(cs.last()).map_values(g) =~= before.map_values(g).push(
                g(cs.last()),
            ));
        }
    } else {
        assert(cs.filter(f).map_values(g) =~= Seq::empty());
    }
}

// ---- taking back a claim or a property --------------------------------------------------

proof fn lemma_no_claim_there(rs: Seq<ResponsibilityView>, id: Seq<char>)
    requires
        forall|j: int| 0 <= j < rs.len() ==> (#[trigger] rs[j]).id != id,
    ensures
        first::<Responsibility>(rs, id) is None,
{
    lemma_place_of::<Responsibility>(rs, id);
    if has_named::<Responsibility>(rs, id) {
        let j = choose|j: int| 0 <= j < rs.len() && Responsibility::name_of(#[trigger] rs[j]) == id;
        assert(rs[j].id != id);
    }
}

/// Does no node but the one at `h` make a claim of the id?
pub open spec fn claimed_only_at(ns: Seq<NodeView>, h: int, id: Seq<char>) -> bool {
    forall|q: int, j: int|
        #![trigger ns[q].responsibilities[j]]
        0 <= q < ns.len() && q != h && 0 <= j < ns[q].responsibilities.len()
            ==> ns[q].responsibilities[j].id != id
}

/// Does no group but the one at `h` make a claim of the id?
pub open spec fn group_claimed_only_at(gs: Seq<GroupView>, h: int, id: Seq<char>) -> bool {
    forall|q: int, j: int|
        #![trigger gs[q].responsibilities[j]]
        0 <= q < gs.len() && q != h && 0 <= j < gs[q].responsibilities.len()
            ==> gs[q].responsibilities[j].id != id
}

proof fn lemma_back_on_nodes(ns: Seq<NodeView>, from: Seq<NodeView>, h: int, id: Seq<char>)
    requires
        claimed_only_at(from, h, id),
    ensures
        !(0 <= h < from.len()) ==> claims_back_on_nodes(ns, from, id) == ns,
        0 <= h < from.len() ==> claims_back_on_nodes(ns, from, id) == match first::<Responsibility>(
            from[h].responsibilities,
            id,
        ) {
            Some(r) => {
                let i = place_of::<Node>(ns, from[h].id);
                if i < ns.len() {
                    ns.update(
                        i,
                        NodeView { responsibilities: ns[i].responsibilities.push(r), ..ns[i] },
                    )
                } else {
                    ns
                }
            },
            None => ns,
        },
    decreases from.len(),
{
    if from.len() > 0 {
        let d = from.drop_last();
        let n = from.len() - 1;
        assert forall|q: int, j: int|
            #![trigger d[q].responsibilities[j]]
            0 <= q < d.len() && q != h && 0 <= j < d[q].responsibilities.len() implies d[q].responsibilities[j].id
            != id by {
            assert(d[q] == from[q]);
            assert(from[q].responsibilities[j].id != id);
        }
        lemma_back_on_nodes(ns, d, h, id);
        assert(from[n] == from.last());
        if h != n {
            assert forall|j: int| 0 <= j < from.last().responsibilities.len() implies (
            #[trigger] from.last().responsibilities[j]).id != id by {
                assert(from[n].responsibilities[j].id != id);
            }
            lemma_no_claim_there(from.last().responsibilities, id);
            if 0 <= h < d.len() {
                assert(d[h] == from[h]);
            }
        }
    }
}

proof fn lemma_back_on_groups(gs: Seq<GroupView>, from: Seq<GroupView>, h: int, id: Seq<char>)
    requires
        group_claimed_only_at(from, h, id),
    ensures
        !(0 <= h < from.len()) ==> claims_back_on_groups(gs, from, id) == gs,
        0 <= h < from.len() ==> claims_back_on_groups(gs, from, id) == match first::<
            Responsibility,
        >(from[h].responsibilities, id) {
            Some(r) => {
                let i = place_of::<Group>(gs, from[h].id);
                if i < gs.len() {
                    gs.update(
                        i,
                        GroupView { responsibilities: gs[i].responsibilities.push(r), ..gs[i] },
                    )
                } else {
                    gs
                }
            },
            None => gs,
        },
    decreases from.len(),
{
    if from.len() > 0 {
        let d = from.drop_last();
        let n = from.len() - 1;
        assert forall|q: int, j: int|
            #![trigger d[q].responsibilities[j]]
            0 <= q < d.len() && q != h && 0 <= j < d[q].responsibilities.len() implies d[q].responsibilities[j].id
            != id by {
            assert(d[q] == from[q]);
            assert(from[q].responsibilities[j].id != id);
        }
        lemma_back_on_groups(gs, d, h, id);
        assert(from[n] == from.last());
        if h != n {
            assert forall|j: int| 0 <= j < from.last().responsibilities.len() implies (
            #[trigger] from.last().responsibilities[j]).id != id by {
                assert(from[n].responsibilities[j].id != id);
            }
            lemma_no_claim_there(from.last().responsibilities, id);
            if 0 <= h < d.len() {
                assert(d[h] == from[h]);
            }
        }
    }
}

/// The claims of a host after one was taken back: without the planned one, and behind them the
/// committed one where it is this host's.
pub open spec fn claims_restored(
    rs: Seq<ResponsibilityView>,
    r: ResponsibilityView,
    here: bool,
) -> Seq<ResponsibilityView> {
    let bare = rs.filter(|x: ResponsibilityView| x.id != r.id);
    if here {
        bare.push(r)
    } else {
        bare
    }
}

/// Taking back a change of a claim that one committed node makes puts the committed claim back on
/// that node of the plan, and nowhere else; taking back an addition only takes it out.
pub proof fn law_taking_back_a_claim(
    p: ScryModelView,
    c: ScryModelView,
    e: ElementChangeView,
    h: int,
    k: int,
)
    requires
        e.kind == ElementKind::Responsibility,
        is_first_claim(c.nodes, h, k),
        c.nodes[h].responsibilities[k].id == e.id,
        claimed_only_at(c.nodes, h, e.id),
        group_claimed_only_at(c.groups, -1, e.id),
    ensures
        ({
            let q = reverted(p, c, e);
            let r = c.nodes[h].responsibilities[k];
            let comes = !e.changes.contains(ChangeView::Added);
            &&& q == (ScryModelView { nodes: q.nodes, groups: q.groups, ..p })
            &&& q.nodes.len() == p.nodes.len()
            &&& forall|i: int|
                0 <= i < p.nodes.len() ==> #[trigger] q.nodes[i] == (NodeView {
                    responsibilities: claims_restored(
                        p.nodes[i].responsibilities,
                        r,
                        comes && is_first_node(p.nodes, i) && p.nodes[i].id == c.nodes[h].id,
                    ),
                    ..p.nodes[i]
                })
            &&& q.groups.len() == p.groups.len()
            &&& forall|i: int|
                0 <= i < p.groups.len() ==> #[trigger] q.groups[i] == (GroupView {
                    responsibilities: claims_restored(p.groups[i].responsibilities, r, false),
                    ..p.groups[i]
                })
        }),
{
    let q = reverted(p, c, e);
    let r = c.nodes[h].responsibilities[k];
    let ns = nodes_without_claim(p.nodes, e.id);
    let gs = groups_without_claim(p.groups, e.id);
    lemma_back_on_nodes(ns, c.nodes, h, e.id);
    lemma_back_on_groups(gs, c.groups, -1, e.id);
    lemma_first_claim(c.nodes[h].responsibilities, k);
    lemma_place_of::<Node>(ns, c.nodes[h].id);
    let at = place_of::<Node>(ns, c.nodes[h].id);
    assert forall|i: int| 0 <= i < p.nodes.len() implies #[trigger] q.nodes[i] == (NodeView {
        responsibilities: claims_restored(
            p.nodes[i].responsibilities,
            r,
            !e.changes.contains(ChangeView::Added) && is_first_node(p.nodes, i) && p.nodes[i].id
                == c.nodes[h].id,
        ),
        ..p.nodes[i]
    }) by {
        lemma_other_claims(p.nodes[i].responsibilities, e.id);
        lemma_where_it_stands(p.nodes, ns, c.nodes[h].id, i);
    }
    assert forall|i: int| 0 <= i < p.groups.len() implies #[trigger] q.groups[i] == (GroupView {
        responsibilities: claims_restored(p.groups[i].responsibilities, r, false),
        ..p.groups[i]
    }) by {
        lemma_other_claims(p.groups[i].responsibilities, e.id);
    }
}

proof fn lemma_first_claim(rs: Seq<ResponsibilityView>, k: int)
    requires
        0 <= k < rs.len(),
        forall|j: int| 0 <= j < k ==> (#[trigger] rs[j]).id != rs[k].id,
    ensures
        first::<Responsibility>(rs, rs[k].id) == Some(rs[k]),
{
    assert forall|j: int| 0 <= j < k implies Responsibility::name_of(#[trigger] rs[j]) != rs[k].id by {
        assert(rs[j].id != rs[k].id);
    }
    assert(Responsibility::name_of(rs[k]) == rs[k].id);
    lemma_place_is::<Responsibility>(rs, rs[k].id, k);
}

proof fn lemma_where_it_stands(ns: Seq<NodeView>, ms: Seq<NodeView>, id: Seq<char>, i: int)
    requires
        ms.len() == ns.len(),
        forall|q: int| 0 <= q < ns.len() ==> (#[trigger] ms[q]).id == ns[q].id,
        0 <= i < ns.len(),
    ensures
        place_of::<Node>(ms, id) == i <==> is_first_node(ns, i) && ns[i].id == id,
{
    lemma_place_of::<Node>(ms, id);
    let at = place_of::<Node>(ms, id);
    if at == i {
        assert(ms[i].id == id);
        assert forall|q: int| 0 <= q < i implies (#[trigger] ns[q]).id != ns[i].id by {
            assert(Node::name_of(ms[q]) != id);
            assert(ms[q].id == ns[q].id);
        }
    }
    if is_first_node(ns, i) && ns[i].id == id {
        assert forall|q: int| 0 <= q < i implies Node::name_of(#[trigger] ms[q]) != id by {
            assert(ns[q].id != ns[i].id);
        }
        assert(Node::name_of(ms[i]) == id);
        lemma_place_is::<Node>(ms, id, i);
    }
}

proof fn lemma_where_a_group_stands(gs: Seq<GroupView>, ms: Seq<GroupView>, id: Seq<char>, i: int)
    requires
        ms.len() == gs.len(),
        forall|q: int| 0 <= q < gs.len() ==> (#[trigger] ms[q]).id == gs[q].id,
        0 <= i < gs.len(),
    ensures
        place_of::<Group>(ms, id) == i <==> is_first_group(gs, i) && gs[i].id == id,
{
    lemma_place_of::<Group>(ms, id);
    let at = place_of::<Group>(ms, id);
    if at == i {
        assert(ms[i].id == id);
        assert forall|q: int| 0 <= q < i implies (#[trigger] gs[q]).id != gs[i].id by {
            assert(Group::name_of(ms[q]) != id);
            assert(ms[q].id == gs[q].id);
        }
    }
    if is_first_group(gs, i) && gs[i].id == id {
        assert forall|q: int| 0 <= q < i implies Group::name_of(#[trigger] ms[q]) != id by {
            assert(gs[q].id != gs[i].id);
        }
        assert(Group::name_of(ms[i]) == id);
        lemma_place_is::<Group>(ms, id, i);
    }
}

/// The same holds of a claim that one committed group makes.
pub proof fn law_taking_back_a_group_claim(
    p: ScryModelView,
    c: ScryModelView,
    e: ElementChangeView,
    h: int,
    k: int,
)
    requires
        e.kind == ElementKind::Responsibility,
        is_first_group_claim(c.groups, h, k),
        c.groups[h].responsibilities[k].id == e.id,
        claimed_only_at(c.nodes, -1, e.id),
        group_claimed_only_at(c.groups, h, e.id),
    ensures
        ({
            let q = reverted(p, c, e);
            let r = c.groups[h].responsibilities[k];
            let comes = !e.changes.contains(ChangeView::Added);
            &&& q == (ScryModelView { nodes: q.nodes, groups: q.groups, ..p })
            &&& q.nodes.len() == p.nodes.len()
            &&& forall|i: int|
                0 <= i < p.nodes.len() ==> #[trigger] q.nodes[i] == (NodeView {
                    responsibilities: claims_restored(p.nodes[i].responsibilities, r, false),
                    ..p.nodes[i]
                })
            &&& q.groups.len() == p.groups.len()
            &&& forall|i: int|
                0 <= i < p.groups.len() ==> #[trigger] q.groups[i] == (GroupView {
                    responsibilities: claims_restored(
                        p.groups[i].responsibilities,
                        r,
                        comes && is_first_group(p.groups, i) && p.groups[i].id == c.groups[h].id,
                    ),
                    ..p.groups[i]
                })
        }),
{
    let q = reverted(p, c, e);
    let r = c.groups[h].responsibilities[k];
    let ns = nodes_without_claim(p.nodes, e.id);
    let gs = groups_without_claim(p.groups, e.id);
    lemma_back_on_nodes(ns, c.nodes, -1, e.id);
    lemma_back_on_groups(gs, c.groups, h, e.id);
    lemma_first_claim(c.groups[h].responsibilities, k);
    lemma_place_of::<Group>(gs, c.groups[h].id);
    assert forall|i: int| 0 <= i < p.nodes.len() implies #[trigger] q.nodes[i] == (NodeView {
        responsibilities: claims_restored(p.nodes[i].responsibilities, r, false),
        ..p.nodes[i]
    }) by {
        lemma_other_claims(p.nodes[i].responsibilities, e.id);
    }
    assert forall|i: int| 0 <= i < p.groups.len() implies #[trigger] q.groups[i] == (GroupView {
        responsibilities: claims_restored(
            p.groups[i].responsibilities,
            r,
            !e.changes.contains(ChangeView::Added) && is_first_group(p.groups, i) && p.groups[i].id
                == c.groups[h].id,
        ),
        ..p.groups[i]
    }) by {
        lemma_other_claims(p.groups[i].responsibilities, e.id);
        lemma_where_a_group_stands(p.groups, gs, c.groups[h].id, i);
    }
}

/// Taking back a change of a property takes the planned one off its owner and, unless it was
/// added, puts the committed one there.
pub proof fn law_taking_back_a_property(
    p: ScryModelView,
    c: ScryModelView,
    e: ElementChangeView,
    i: int,
)
    requires
        e.kind == ElementKind::Property,
        is_first_node(p.nodes, i),
        e.owner_id == Some(p.nodes[i].id),
    ensures
        ({
            let was = match first::<Node>(c.nodes, p.nodes[i].id) {
                Some(n) => first::<SchemaProperty>(n.properties, e.id),
                None => None,
            };
            let bare = p.nodes[i].properties.filter(|x: SchemaPropertyView| x.label != e.id);
            reverted(p, c, e) == (ScryModelView {
                nodes: p.nodes.update(
                    i,
                    NodeView {
                        properties: if was is Some && !e.changes.contains(ChangeView::Added) {
                            bare.push(was->0)
                        } else {
                            bare
                        },
                        ..p.nodes[i]
                    },
                ),
                ..p
            })
        }),
{
    lemma_first_node(p.nodes, i);
    lemma_other_props(p.nodes[i].properties, e.id);
}

// ---- the events of a change -------------------------------------------------------------

/// An event of a change is told by its time, how it came about and its change; by the agent, and
/// about no node, until it is said otherwise.
pub proof fn law_what_an_event_of_a_change_tells(
    at: u64,
    driver: Seq<char>,
    cid: Seq<char>,
    title: Option<Seq<char>>,
    rows: Seq<EventRowView>,
    actor: Option<Seq<char>>,
    person: Option<Seq<char>>,
)
    ensures
        ({
            let e = attributed(change_event(at, driver, cid, title, rows), actor, person);
            &&& e.at == at && e.driver == driver && e.kind == EventKind::Change
            &&& e.node_id == ""@
            &&& e.change_id == Some(cid) && e.change_title == title && e.rows == rows
            &&& e.by == if actor is Some && trimmed(actor->0).len() > 0 {
                trimmed(actor->0)
            } else {
                "agent"@
            }
            &&& e.on_behalf_of == if person is Some && trimmed(person->0).len() > 0 {
                Some(trimmed(person->0))
            } else {
                None
            }
        }),
{
}

/// What is told of an entry that was dropped: its label and what it was.
pub open spec fn told_dropped(d: DroppedEntryView) -> EventRowView {
    EventRowView { marker: "−"@, text: d.label + " ("@ + d.what + ")"@, source: None }
}

/// An abandonment tells the rationale, then why where it is said, and then each entry that was
/// dropped, in order, with what it was.
pub proof fn law_what_an_abandonment_tells(
    m: ChangeMetaView,
    why: Option<Seq<char>>,
    dropped: Seq<DroppedEntryView>,
)
    ensures
        ({
            let head = EventRowView { marker: "✓"@, text: m.rationale, source: None };
            let heads = if why is Some && trimmed(why->0).len() > 0 {
                seq![
                    head,
                    EventRowView { marker: "✓"@, text: "why: "@ + trimmed(why->0), source: None },
                ]
            } else {
                seq![head]
            };
            abandon_rows(m, why, dropped) == heads + dropped.map_values(
                |d: DroppedEntryView| told_dropped(d),
            )
        }),
    decreases dropped.len(),
{
    let f = |d: DroppedEntryView| told_dropped(d);
    let rows = abandon_rows(m, why, dropped);
    if dropped.len() > 0 {
        let d = dropped.drop_last();
        law_what_an_abandonment_tells(m, why, d);
        assert(dropped.map_values(f) =~= d.map_values(f).push(told_dropped(dropped.last())));
        assert(rows == abandon_rows(m, why, d).push(told_dropped(dropped.last())));
    } else {
        assert(dropped.map_values(f) =~= Seq::empty());
        assert(rows + Seq::<EventRowView>::empty() =~= rows);
    }
}

/// A change is opened with its rationale trimmed, and with no signature.
pub proof fn law_how_a_change_is_opened(
    id: Seq<char>,
    rationale: Seq<char>,
    title: Option<Seq<char>>,
    now: u64,
)
    ensures
        ({
            let m = opened(id, rationale, title, now);
            m.id == id && m.rationale == trimmed(rationale) && m.title == title && m.created_at
                == now && m.signed_off is None
        }),
{
}

} // verus!
