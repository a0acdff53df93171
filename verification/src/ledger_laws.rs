//! What filing, cleaning up, re-filing and taking back do, entry by entry.

use crate::changes::{key_of, ChangeMeta, ChangeMetaView};
use crate::commit_laws::{
    is_first_group, is_first_node, lemma_first_group, lemma_first_node, lemma_other_groups,
    lemma_other_links, lemma_other_nodes, lemma_same_filter, lemma_without, node_among,
};
use crate::diff::{diff_of, lookup, ChangeView, ElementChangeView, ElementKind};
use crate::ledger::{
    cleaned, closed_by_cleaning, conflicts, dead, dead_of, dropped_entry, entries_under, entry_keys,
    finishes, finishing, hits, links_away_from, meant, member_gone, moves, newly_opened, refiled,
    refiled_all, retagged, reverted, seen_changes, stranded_by, strangers_under, tagged, values_of,
};
use crate::model::{Group, GroupView, Link, LinkView, Node, NodeView, ScryModelView};
use crate::named::{first, has_named, lemma_place_of, place_of, Named};
use crate::signoff::{keys_of, lemma_filed};
use crate::text::ascending;
use vstd::prelude::*;
use vstd::string::*;

verus! {

// ---- keys -------------------------------------------------------------------------------

/// An entry goes by its kind and its id; a property by its owner too.
pub proof fn law_entries_go_by_their_element(e: ElementChangeView)
    ensures
        e.kind == ElementKind::Node ==> key_of(e) == "node:"@ + e.id,
        e.kind == ElementKind::Link ==> key_of(e) == "link:"@ + e.id,
        e.kind == ElementKind::Group ==> key_of(e) == "group:"@ + e.id,
        e.kind == ElementKind::Responsibility ==> key_of(e) == "resp:"@ + e.id,
        e.kind == ElementKind::Property && e.owner_id is Some ==> key_of(e) == "prop:"@
            + e.owner_id->0 + ":"@ + e.id,
{
}

/// What is filed under a change is every key that the map files there, in ascending order.
pub proof fn law_what_is_filed_under_a_change(
    map: Map<Seq<char>, Seq<char>>,
    cid: Seq<char>,
    k: Seq<char>,
)
    requires
        map.dom().finite(),
    ensures
        keys_of(map, cid).contains(k) <==> map.contains_key(k) && map[k] == cid,
{
    crate::text::lemma_ascending_of(map.dom());
    let ks = ascending(map.dom());
    lemma_filed(ks, map, cid, k);
    assert(ks.to_set().contains(k) <==> map.contains_key(k));
    assert(ks.to_set().contains(k) == ks.contains(k));
}

/// A change id was seen exactly where a change has it or something is filed under it.
pub proof fn law_which_changes_were_seen(m: ScryModelView, id: Seq<char>)
    requires
        m.change_map.dom().finite(),
    ensures
        seen_changes(m).contains(id) <==> (exists|i: int|
            0 <= i < m.changes.len() && (#[trigger] m.changes[i]).id == id) || (exists|
            k: Seq<char>,
        | #[trigger]
            m.change_map.contains_key(k) && m.change_map[k] == id),
{
    let ns = crate::ids::names::<ChangeMeta>(m.changes);
    let vs = values_of(m.change_map);
    let ks = ascending(m.change_map.dom());
    let all = seen_changes(m);
    crate::text::lemma_ascending_of(m.change_map.dom());
    if all.contains(id) {
        let i = choose|i: int| 0 <= i < all.len() && all[i] == id;
        if i < ns.len() {
            assert(m.changes[i].id == id);
        } else {
            let k = ks[i - ns.len()];
            assert(ks.contains(k));
            assert(ks.to_set().contains(k));
            assert(m.change_map.contains_key(k));
            assert(m.change_map[k] == id);
        }
    }
    if exists|i: int| 0 <= i < m.changes.len() && (#[trigger] m.changes[i]).id == id {
        let i = choose|i: int| 0 <= i < m.changes.len() && (#[trigger] m.changes[i]).id == id;
        assert(all[i] == id);
    }
    if exists|k: Seq<char>| #[trigger] m.change_map.contains_key(k) && m.change_map[k] == id {
        let k = choose|k: Seq<char>| #[trigger]
            m.change_map.contains_key(k) && m.change_map[k] == id;
        assert(ks.to_set().contains(k));
        let i = choose|i: int| 0 <= i < ks.len() && ks[i] == k;
        assert(vs[i] == id);
        assert(all[ns.len() + i] == id);
    }
}

/// The changes that a write opened are those it has and its predecessor had not, in order.
pub proof fn law_what_a_write_opened(before: Seq<ChangeMetaView>, after: Seq<ChangeMetaView>)
    ensures
        newly_opened(before, after) == after.filter(
            |c: ChangeMetaView|
                !(exists|i: int| 0 <= i < before.len() && (#[trigger] before[i]).id == c.id),
        ),
    decreases after.len(),
{
    reveal(Seq::filter);
    if after.len() > 0 {
        law_what_a_write_opened(before, after.drop_last());
        let c = after.last();
        if has_named::<ChangeMeta>(before, c.id) {
            let i = choose|i: int|
                0 <= i < before.len() && ChangeMeta::name_of(#[trigger] before[i]) == c.id;
            assert(before[i].id == c.id);
        } else {
            assert forall|i: int| 0 <= i < before.len() implies (#[trigger] before[i]).id != c.id by {
                assert(ChangeMeta::name_of(before[i]) != c.id);
            }
        }
    }
}

// ---- filing -----------------------------------------------------------------------------

/// Filing puts every key under the change and leaves all others where they are.
pub proof fn law_filing_moves_the_keys(
    map: Map<Seq<char>, Seq<char>>,
    keys: Seq<Seq<char>>,
    cid: Seq<char>,
    k: Seq<char>,
)
    ensures
        lookup(tagged(map, keys, cid), k) == if keys.contains(k) {
            Some(cid)
        } else {
            lookup(map, k)
        },
    decreases keys.len(),
{
    if keys.len() > 0 {
        let d = keys.drop_last();
        law_filing_moves_the_keys(map, d, cid, k);
        assert(keys[keys.len() - 1] == keys.last());
        if d.contains(k) {
            let i = choose|i: int| 0 <= i < d.len() && d[i] == k;
            assert(keys[i] == k);
        }
        if keys.contains(k) && k != keys.last() {
            let i = choose|i: int| 0 <= i < keys.len() && keys[i] == k;
            assert(d[i] == k);
        }
    }
}

/// Filing reports exactly the keys that were filed under another change, with that change.
pub proof fn law_filing_reports_what_it_took(
    map: Map<Seq<char>, Seq<char>>,
    keys: Seq<Seq<char>>,
    cid: Seq<char>,
    k: Seq<char>,
    from: Seq<char>,
)
    ensures
        conflicts(map, keys, cid).contains((k, from)) <==> keys.contains(k) && lookup(map, k)
            == Some(from) && from != cid,
    decreases keys.len(),
{
    if keys.len() > 0 {
        let d = keys.drop_last();
        law_filing_reports_what_it_took(map, d, cid, k, from);
        let l = keys.last();
        law_filing_moves_the_keys(map, d, cid, l);
        let a = conflicts(map, d, cid);
        let b = conflicts(map, keys, cid);
        assert(keys[keys.len() - 1] == l);
        if d.contains(k) {
            let i = choose|i: int| 0 <= i < d.len() && d[i] == k;
            assert(keys[i] == k);
        }
        if keys.contains(k) && k != l {
            let i = choose|i: int| 0 <= i < keys.len() && keys[i] == k;
            assert(d[i] == k);
        }
        if a.contains((k, from)) {
            let i = choose|i: int| 0 <= i < a.len() && a[i] == (k, from);
            assert(b[i] == (k, from));
        }
        if b.len() > a.len() {
            assert(b[a.len() as int] == (l, lookup(tagged(map, d, cid), l)->0));
        }
        if b.contains((k, from)) && !a.contains((k, from)) {
            let i = choose|i: int| 0 <= i < b.len() && b[i] == (k, from);
            if i < a.len() {
                assert(a[i] == (k, from));
            }
        }
    }
}

// ---- cleaning up ------------------------------------------------------------------------

/// Does the plan hold an entry with the key?
pub open spec fn is_pending(c: ScryModelView, p: ScryModelView, k: Seq<char>) -> bool {
    exists|i: int| 0 <= i < diff_of(c, p).len() && key_of(#[trigger] diff_of(c, p)[i]) == k
}

/// Is the change done with: was something filed under it, and is none of it pending?
pub open spec fn is_done(c: ScryModelView, p: ScryModelView, cid: Seq<char>) -> bool {
    &&& exists|k: Seq<char>| #[trigger] p.change_map.contains_key(k) && p.change_map[k] == cid
    &&& forall|k: Seq<char>| #[trigger]
        p.change_map.contains_key(k) && p.change_map[k] == cid ==> !is_pending(c, p, k)
}

proof fn lemma_pending_keys(c: ScryModelView, p: ScryModelView, k: Seq<char>)
    ensures
        entry_keys(diff_of(c, p)).contains(k) <==> is_pending(c, p, k),
{
    let d = diff_of(c, p);
    let ks = entry_keys(d);
    if ks.contains(k) {
        let i = choose|i: int| 0 <= i < ks.len() && ks[i] == k;
        assert(key_of(d[i]) == k);
    }
    if is_pending(c, p, k) {
        let i = choose|i: int| 0 <= i < d.len() && key_of(#[trigger] d[i]) == k;
        assert(ks[i] == k);
    }
}

proof fn lemma_finishing(c: ScryModelView, p: ScryModelView, cs: Seq<ChangeMetaView>, yes: bool)
    ensures
        finishing(cs, p.change_map, entry_keys(diff_of(c, p)), yes) == cs.filter(
            |m: ChangeMetaView| is_done(c, p, m.id) == yes,
        ),
    decreases cs.len(),
{
    reveal(Seq::filter);
    if cs.len() > 0 {
        lemma_finishing(c, p, cs.drop_last(), yes);
        let valid = entry_keys(diff_of(c, p));
        let cid = cs.last().id;
        assert forall|k: Seq<char>| #[trigger] valid.contains(k) <==> is_pending(c, p, k) by {
            lemma_pending_keys(c, p, k);
        }
        if finishes(p.change_map, valid, cid) {
            let k = choose|k: Seq<char>| #[trigger]
                p.change_map.contains_key(k) && p.change_map[k] == cid && !valid.contains(k);
            assert(p.change_map.contains_key(k));
        }
        if is_done(c, p, cid) {
            let k = choose|k: Seq<char>| #[trigger]
                p.change_map.contains_key(k) && p.change_map[k] == cid;
            assert(!valid.contains(k));
        }
        assert(finishes(p.change_map, valid, cid) == is_done(c, p, cid));
    }
}

/// A clean-up keeps exactly the tags whose entry is pending, as they are filed, and closes
/// exactly the changes under which something was filed that is all done with; the rest of the
/// changes stay, in order, and so does everything else of the plan.
pub proof fn law_what_a_clean_up_keeps(c: ScryModelView, p: ScryModelView)
    ensures
        ({
            let q = cleaned(c, p);
            &&& q == (ScryModelView { changes: q.changes, change_map: q.change_map, ..p })
            &&& forall|k: Seq<char>| #[trigger]
                q.change_map.contains_key(k) <==> p.change_map.contains_key(k) && is_pending(
                    c,
                    p,
                    k,
                )
            &&& forall|k: Seq<char>| #[trigger]
                q.change_map.contains_key(k) ==> q.change_map[k] == p.change_map[k]
            &&& q.changes == p.changes.filter(|m: ChangeMetaView| !is_done(c, p, m.id))
            &&& closed_by_cleaning(c, p) == p.changes.filter(
                |m: ChangeMetaView| is_done(c, p, m.id),
            )
        }),
{
    let q = cleaned(c, p);
    let valid = entry_keys(diff_of(c, p));
    assert forall|k: Seq<char>| #[trigger] q.change_map.contains_key(k) <==> p.change_map.contains_key(
        k,
    ) && is_pending(c, p, k) by {
        lemma_pending_keys(c, p, k);
        assert(valid.to_set().contains(k) == valid.contains(k));
    }
    lemma_finishing(c, p, p.changes, false);
    lemma_finishing(c, p, p.changes, true);
    lemma_same_filter(
        p.changes,
        |m: ChangeMetaView| is_done(c, p, m.id) == false,
        |m: ChangeMetaView| !is_done(c, p, m.id),
    );
    lemma_same_filter(
        p.changes,
        |m: ChangeMetaView| is_done(c, p, m.id) == true,
        |m: ChangeMetaView| is_done(c, p, m.id),
    );
}

/// The dead tags of a change are those filed under it whose entry is not pending, in the order
/// of the tags.
pub proof fn law_which_tags_are_dead(c: ScryModelView, p: ScryModelView, cid: Seq<char>)
    ensures
        dead_of(c, p, cid) == keys_of(p.change_map, cid).filter(
            |k: Seq<char>| !is_pending(c, p, k),
        ),
{
    let ks = keys_of(p.change_map, cid);
    lemma_dead(c, p, ks);
}

proof fn lemma_dead(c: ScryModelView, p: ScryModelView, ks: Seq<Seq<char>>)
    ensures
        dead(ks, entry_keys(diff_of(c, p))) == ks.filter(|k: Seq<char>| !is_pending(c, p, k)),
    decreases ks.len(),
{
    reveal(Seq::filter);
    if ks.len() > 0 {
        lemma_dead(c, p, ks.drop_last());
        lemma_pending_keys(c, p, ks.last());
    }
}

// ---- re-filing --------------------------------------------------------------------------

/// Is the entry beneath the id: is it the node or group itself, a claim or property of it, or a
/// link whose source it is, as planned or else as committed?
pub open spec fn is_beneath(
    p: ScryModelView,
    c: ScryModelView,
    e: ElementChangeView,
    id: Seq<char>,
) -> bool {
    match e.kind {
        ElementKind::Node => e.id == id,
        ElementKind::Group => e.id == id,
        ElementKind::Responsibility => e.owner_id == Some(id),
        ElementKind::Property => e.owner_id == Some(id),
        ElementKind::Link => match first::<Link>(p.links, e.id) {
            Some(l) => l.src == id,
            None => match first::<Link>(c.links, e.id) {
                Some(l) => l.src == id,
                None => false,
            },
        },
    }
}

/// Does the target mean the entry, given what it is filed under?
pub open spec fn is_targeted(
    p: ScryModelView,
    c: ScryModelView,
    target: Seq<char>,
    e: ElementChangeView,
    filed: Option<Seq<char>>,
) -> bool {
    if target == "unfiled"@ {
        filed is None
    } else if target.len() >= 4 && target.take(4) == "chg-"@ {
        filed == Some(target)
    } else {
        is_beneath(p, c, e, target) || (e.kind != ElementKind::Property && e.id == target)
    }
}

proof fn lemma_targeted(
    p: ScryModelView,
    c: ScryModelView,
    target: Seq<char>,
    e: ElementChangeView,
    filed: Option<Seq<char>>,
)
    ensures
        meant(p, c, target, e, filed) == is_targeted(p, c, target, e, filed),
{
    reveal_strlit("chg-");
    if "chg-"@.is_prefix_of(target) {
        assert(target.take(4) =~= "chg-"@);
    }
    if target.len() >= 4 && target.take(4) == "chg-"@ {
        assert("chg-"@.is_prefix_of(target));
    }
}

/// Have the entries keys of their own?
pub open spec fn keys_differ(pend: Seq<ElementChangeView>) -> bool {
    forall|i: int, j: int|
        0 <= i < pend.len() && 0 <= j < pend.len() && i != j ==> key_of(#[trigger] pend[i])
            != key_of(#[trigger] pend[j])
}

proof fn lemma_refiled(
    p: ScryModelView,
    c: ScryModelView,
    map: Map<Seq<char>, Seq<char>>,
    target: Seq<char>,
    pend: Seq<ElementChangeView>,
    to: Option<Seq<char>>,
)
    requires
        keys_differ(pend),
    ensures
        ({
            let r = refiled(p, c, map, target, pend, to);
            &&& forall|k: Seq<char>|
                (forall|i: int| 0 <= i < pend.len() ==> key_of(#[trigger] pend[i]) != k)
                    ==> #[trigger] lookup(r, k) == lookup(map, k)
            &&& forall|i: int|
                0 <= i < pend.len() ==> lookup(r, key_of(#[trigger] pend[i])) == if is_targeted(
                    p,
                    c,
                    target,
                    pend[i],
                    lookup(map, key_of(pend[i])),
                ) {
                    to
                } else {
                    lookup(map, key_of(pend[i]))
                }
        }),
        forall|k: Seq<char>, from: Option<Seq<char>>| #[trigger]
            moves(p, c, map, target, pend, to).contains((k, from)) <==> from != to && from == lookup(
                map,
                k,
            ) && exists|i: int|
                0 <= i < pend.len() && key_of(#[trigger] pend[i]) == k && is_targeted(
                    p,
                    c,
                    target,
                    pend[i],
                    from,
                ),
        hits(p, c, map, target, pend, to) <==> exists|i: int|
            0 <= i < pend.len() && is_targeted(
                p,
                c,
                target,
                #[trigger] pend[i],
                lookup(map, key_of(pend[i])),
            ),
    decreases pend.len(),
{
    if pend.len() > 0 {
        let d = pend.drop_last();
        let e = pend.last();
        let n = pend.len() - 1;
        assert forall|i: int, j: int|
            0 <= i < d.len() && 0 <= j < d.len() && i != j implies key_of(#[trigger] d[i])
            != key_of(#[trigger] d[j]) by {
            assert(key_of(pend[i]) != key_of(pend[j]));
        }
        lemma_refiled(p, c, map, target, d, to);
        let before = refiled(p, c, map, target, d, to);
        let r = refiled(p, c, map, target, pend, to);
        assert(pend[n] == e);
        assert forall|i: int| 0 <= i < d.len() implies key_of(#[trigger] d[i]) != key_of(e) by {
            assert(key_of(pend[i]) != key_of(pend[n]));
        }
        assert(lookup(before, key_of(e)) == lookup(map, key_of(e)));
        lemma_targeted(p, c, target, e, lookup(map, key_of(e)));
        assert forall|k: Seq<char>|
            (forall|i: int| 0 <= i < pend.len() ==> key_of(#[trigger] pend[i]) != k) implies
            #[trigger] lookup(r, k) == lookup(map, k) by {
            assert(key_of(pend[n]) != k);
            assert forall|i: int| 0 <= i < d.len() implies key_of(#[trigger] d[i]) != k by {
                assert(key_of(pend[i]) != k);
            }
            assert(lookup(before, k) == lookup(map, k));
        }
        assert forall|i: int| 0 <= i < pend.len() implies lookup(r, key_of(#[trigger] pend[i]))
            == if is_targeted(p, c, target, pend[i], lookup(map, key_of(pend[i]))) {
            to
        } else {
            lookup(map, key_of(pend[i]))
        } by {
            if i < n {
                assert(key_of(d[i]) != key_of(e));
                assert(lookup(before, key_of(d[i])) == if is_targeted(
                    p,
                    c,
                    target,
                    d[i],
                    lookup(map, key_of(d[i])),
                ) {
                    to
                } else {
                    lookup(map, key_of(d[i]))
                });
            }
        }
        let a = moves(p, c, map, target, d, to);
        let b = moves(p, c, map, target, pend, to);
        assert forall|k: Seq<char>, from: Option<Seq<char>>| #[trigger]
            b.contains((k, from)) <==> from != to && from == lookup(map, k) && exists|i: int|
                0 <= i < pend.len() && key_of(#[trigger] pend[i]) == k && is_targeted(
                    p,
                    c,
                    target,
                    pend[i],
                    from,
                ) by {
            if a.contains((k, from)) {
                let i = choose|i: int| 0 <= i < a.len() && a[i] == (k, from);
                assert(b[i] == (k, from));
                let j = choose|j: int|
                    0 <= j < d.len() && key_of(#[trigger] d[j]) == k && is_targeted(
                        p,
                        c,
                        target,
                        d[j],
                        from,
                    );
                assert(pend[j] == d[j]);
            }
            if b.len() > a.len() {
                assert(b[a.len() as int] == (key_of(e), lookup(map, key_of(e))));
                assert(is_targeted(p, c, target, pend[n], lookup(map, key_of(e))));
            }
            if b.contains((k, from)) && !a.contains((k, from)) {
                let i = choose|i: int| 0 <= i < b.len() && b[i] == (k, from);
                if i < a.len() {
                    assert(a[i] == (k, from));
                }
            }
            if from != to && from == lookup(map, k) && exists|i: int|
                0 <= i < pend.len() && key_of(#[trigger] pend[i]) == k && is_targeted(
                    p,
                    c,
                    target,
                    pend[i],
                    from,
                ) {
                let i = choose|i: int|
                    0 <= i < pend.len() && key_of(#[trigger] pend[i]) == k && is_targeted(
                        p,
                        c,
                        target,
                        pend[i],
                        from,
                    );
                if i < n {
                    assert(d[i] == pend[i]);
                    assert(a.contains((k, from)));
                }
            }
        }
        if hits(p, c, map, target, d, to) {
            let i = choose|i: int|
                0 <= i < d.len() && is_targeted(
                    p,
                    c,
                    target,
                    #[trigger] d[i],
                    lookup(map, key_of(d[i])),
                );
            assert(pend[i] == d[i]);
        }
        if exists|i: int|
            0 <= i < pend.len() && is_targeted(
                p,
                c,
                target,
                #[trigger] pend[i],
                lookup(map, key_of(pend[i])),
            ) {
            let i = choose|i: int|
                0 <= i < pend.len() && is_targeted(
                    p,
                    c,
                    target,
                    #[trigger] pend[i],
                    lookup(map, key_of(pend[i])),
                );
            if i < n {
                assert(d[i] == pend[i]);
            }
        }
    }
}

/// Re-filing one target more moves exactly the pending entries it means, given how they were
/// filed then, to where they are sent and nothing else; what moved is reported with where it
/// came from, and a target that means nothing is reported as such.
pub proof fn law_refiling_moves_what_is_meant(
    p: ScryModelView,
    c: ScryModelView,
    targets: Seq<Seq<char>>,
    target: Seq<char>,
    pend: Seq<ElementChangeView>,
    to: Option<Seq<char>>,
)
    requires
        keys_differ(pend),
    ensures
        ({
            let was = refiled_all(p, c, targets, pend, to);
            let is_now = refiled_all(p, c, targets.push(target), pend, to);
            let said = retagged(p, c, targets, pend, to);
            let says = retagged(p, c, targets.push(target), pend, to);
            let meant = |i: int|
                is_targeted(p, c, target, pend[i], lookup(was, key_of(pend[i])));
            &&& forall|k: Seq<char>|
                (forall|i: int| 0 <= i < pend.len() ==> key_of(#[trigger] pend[i]) != k)
                    ==> #[trigger] lookup(is_now, k) == lookup(was, k)
            &&& forall|i: int|
                0 <= i < pend.len() ==> lookup(is_now, key_of(#[trigger] pend[i])) == if meant(i) {
                    to
                } else {
                    lookup(was, key_of(pend[i]))
                }
            &&& said.moved.is_prefix_of(says.moved)
            &&& forall|k: Seq<char>, from: Option<Seq<char>>| #[trigger]
                says.moved.skip(said.moved.len() as int).contains((k, from)) <==> from != to && from
                    == lookup(was, k) && exists|i: int|
                    0 <= i < pend.len() && key_of(#[trigger] pend[i]) == k && meant(i)
            &&& says.unmatched == if exists|i: int| 0 <= i < pend.len() && #[trigger] meant(i) {
                said.unmatched
            } else {
                said.unmatched.push(target)
            }
        }),
        refiled_all(p, c, Seq::empty(), pend, to) == p.change_map,
        retagged(p, c, Seq::empty(), pend, to).moved.len() == 0,
        retagged(p, c, Seq::empty(), pend, to).unmatched.len() == 0,
{
    let was = refiled_all(p, c, targets, pend, to);
    let ts = targets.push(target);
    assert(ts.drop_last() =~= targets);
    assert(ts.last() == target);
    lemma_refiled(p, c, was, target, pend, to);
    let said = retagged(p, c, targets, pend, to);
    let says = retagged(p, c, ts, pend, to);
    let ms = moves(p, c, was, target, pend, to);
    assert(says.moved.skip(said.moved.len() as int) =~= ms);
    let meant = |i: int| is_targeted(p, c, target, pend[i], lookup(was, key_of(pend[i])));
    assert forall|k: Seq<char>, from: Option<Seq<char>>| #[trigger]
        says.moved.skip(said.moved.len() as int).contains((k, from)) <==> from != to && from
            == lookup(was, k) && exists|i: int|
            0 <= i < pend.len() && key_of(#[trigger] pend[i]) == k && meant(i) by {
        assert(ms.contains((k, from)) <==> from != to && from == lookup(was, k) && exists|i: int|
            0 <= i < pend.len() && key_of(#[trigger] pend[i]) == k && is_targeted(
                p,
                c,
                target,
                pend[i],
                from,
            ));
        if exists|i: int|
            0 <= i < pend.len() && key_of(#[trigger] pend[i]) == k && is_targeted(
                p,
                c,
                target,
                pend[i],
                from,
            ) && from == lookup(was, k) {
            let i = choose|i: int|
                0 <= i < pend.len() && key_of(#[trigger] pend[i]) == k && is_targeted(
                    p,
                    c,
                    target,
                    pend[i],
                    from,
                ) && from == lookup(was, k);
            assert(meant(i));
        }
        if exists|i: int| 0 <= i < pend.len() && key_of(#[trigger] pend[i]) == k && meant(i) {
            let i = choose|i: int|
                0 <= i < pend.len() && key_of(#[trigger] pend[i]) == k && meant(i);
            assert(key_of(pend[i]) == k);
        }
    }
    if hits(p, c, was, target, pend, to) {
        let i = choose|i: int|
            0 <= i < pend.len() && is_targeted(
                p,
                c,
                target,
                #[trigger] pend[i],
                lookup(was, key_of(pend[i])),
            );
        assert(meant(i));
    }
    if exists|i: int| 0 <= i < pend.len() && #[trigger] meant(i) {
        let i = choose|i: int| 0 <= i < pend.len() && #[trigger] meant(i);
        assert(is_targeted(p, c, target, pend[i], lookup(was, key_of(pend[i]))));
    }
}

// ---- abandoning -------------------------------------------------------------------------

/// The entries of a change are those of the plan that are filed under it, in order.
pub proof fn law_the_entries_of_a_change(c: ScryModelView, p: ScryModelView, cid: Seq<char>)
    requires
        p.change_map.dom().finite(),
    ensures
        entries_under(diff_of(c, p), keys_of(p.change_map, cid)) == diff_of(c, p).filter(
            |e: ElementChangeView|
                p.change_map.contains_key(key_of(e)) && p.change_map[key_of(e)] == cid,
        ),
{
    lemma_entries_under(diff_of(c, p), p.change_map, cid);
}

proof fn lemma_entries_under(
    d: Seq<ElementChangeView>,
    map: Map<Seq<char>, Seq<char>>,
    cid: Seq<char>,
)
    requires
        map.dom().finite(),
    ensures
        entries_under(d, keys_of(map, cid)) == d.filter(
            |e: ElementChangeView| map.contains_key(key_of(e)) && map[key_of(e)] == cid,
        ),
    decreases d.len(),
{
    reveal(Seq::filter);
    if d.len() > 0 {
        lemma_entries_under(d.drop_last(), map, cid);
        law_what_is_filed_under_a_change(map, cid, key_of(d.last()));
    }
}

/// Dropping an entry strands somebody exactly where it adds a node and the plan has a node right
/// under it that is not filed under the change; they are told by name, in order.
pub proof fn law_whom_dropping_strands(
    p: ScryModelView,
    e: ElementChangeView,
    cid: Seq<char>,
)
    requires
        p.change_map.dom().finite(),
    ensures
        stranded_by(p, e, keys_of(p.change_map, cid)) == if e.kind == ElementKind::Node
            && e.changes.contains(ChangeView::Added) {
            p.nodes.filter(
                |n: NodeView|
                    n.parent_id == Some(e.id) && !(p.change_map.contains_key("node:"@ + n.id)
                        && p.change_map["node:"@ + n.id] == cid),
            ).map_values(|n: NodeView| n.name)
        } else {
            Seq::empty()
        },
{
    lemma_strangers(p.nodes, p.change_map, e.id, cid);
}

proof fn lemma_strangers(
    ns: Seq<NodeView>,
    map: Map<Seq<char>, Seq<char>>,
    id: Seq<char>,
    cid: Seq<char>,
)
    requires
        map.dom().finite(),
    ensures
        strangers_under(ns, id, keys_of(map, cid)) == ns.filter(
            |n: NodeView|
                n.parent_id == Some(id) && !(map.contains_key("node:"@ + n.id) && map["node:"@
                    + n.id] == cid),
        ).map_values(|n: NodeView| n.name),
    decreases ns.len(),
{
    reveal(Seq::filter);
    let f = |n: NodeView|
        n.parent_id == Some(id) && !(map.contains_key("node:"@ + n.id) && map["node:"@ + n.id]
            == cid);
    let g = |n: NodeView| n.name;
    if ns.len() > 0 {
        let d = ns.drop_last();
        lemma_strangers(d, map, id, cid);
        let n = ns.last();
        law_what_is_filed_under_a_change(map, cid, "node:"@ + n.id);
        if f(n) {
            assert(d.filter(f).push(n).map_values(g) =~= d.filter(f).map_values(g).push(g(n)));
        }
    } else {
        assert(ns.filter(f).map_values(g) =~= Seq::empty());
    }
}

/// A dropped entry is reported with its key, its label and one word for what it did: that it
/// added, else that it deleted, else that it moved, else that it reworded its element.
pub proof fn law_a_dropped_entry_is_reported(e: ElementChangeView)
    ensures
        ({
            let d = dropped_entry(e);
            let moved = exists|i: int| 0 <= i < e.changes.len() && (#[trigger] e.changes[i]) is Moved;
            &&& d.key == key_of(e)
            &&& d.label == e.label
            &&& d.what == if e.changes.contains(ChangeView::Added) {
                "added"@
            } else if e.changes.contains(ChangeView::Deleted) {
                "deleted"@
            } else if moved {
                "moved"@
            } else {
                "reworded"@
            }
        }),
{
}

// ---- taking back ------------------------------------------------------------------------

/// A node's entry that is taken back: what it added is gone, with the links that touch it, its
/// membership in groups and its boundaries. Anything else gives the node back what committed
/// says of it; where the plan still has it, it keeps its marks, claims and properties.
pub proof fn law_taking_back_a_node(
    p: ScryModelView,
    c: ScryModelView,
    e: ElementChangeView,
)
    requires
        e.kind == ElementKind::Node,
    ensures
        ({
            let q = reverted(p, c, e);
            &&& e.changes.contains(ChangeView::Added) ==> q == (ScryModelView {
                nodes: p.nodes.filter(|n: NodeView| n.id != e.id),
                links: p.links.filter(|l: LinkView| l.src != e.id && l.dst != e.id),
                groups: p.groups.map_values(
                    |g: GroupView|
                        GroupView {
                            member_ids: g.member_ids.filter(|x: Seq<char>| x != e.id),
                            ..g
                        },
                ),
                boundaries: p.boundaries.remove(e.id),
                ..p
            })
            &&& !e.changes.contains(ChangeView::Added) ==> q == (ScryModelView {
                nodes: q.nodes,
                ..p
            })
            &&& !e.changes.contains(ChangeView::Added) ==> forall|i: int, k: int|
                #![trigger p.nodes[i], c.nodes[k]]
                is_first_node(p.nodes, i) && is_first_node(c.nodes, k) && p.nodes[i].id == e.id
                    && c.nodes[k].id == e.id ==> q.nodes == p.nodes.update(
                    i,
                    NodeView {
                        vagrant: p.nodes[i].vagrant,
                        stale: p.nodes[i].stale,
                        responsibilities: p.nodes[i].responsibilities,
                        properties: p.nodes[i].properties,
                        ..c.nodes[k]
                    },
                )
            &&& !e.changes.contains(ChangeView::Added) ==> forall|k: int|
                #![trigger c.nodes[k]]
                is_first_node(c.nodes, k) && c.nodes[k].id == e.id && !node_among(p.nodes, e.id)
                    ==> q.nodes == p.nodes.push(c.nodes[k])
        }),
{
    let q = reverted(p, c, e);
    if e.changes.contains(ChangeView::Added) {
        lemma_other_nodes(p.nodes, e.id);
        lemma_links_away(p.links, e.id);
        let f = |g: GroupView|
            GroupView { member_ids: g.member_ids.filter(|x: Seq<char>| x != e.id), ..g };
        assert forall|i: int| 0 <= i < p.groups.len() implies member_gone(p.groups, e.id)[i] == f(
            p.groups[i],
        ) by {
            lemma_without(p.groups[i].member_ids, seq![e.id]);
            assert forall|x: Seq<char>| seq![e.id].contains(x) == (x == e.id) by {
                assert(seq![e.id][0] == e.id);
            }
            lemma_same_filter(
                p.groups[i].member_ids,
                |x: Seq<char>| !seq![e.id].contains(x),
                |x: Seq<char>| x != e.id,
            );
        }
        assert(member_gone(p.groups, e.id) =~= p.groups.map_values(f));
    } else {
        lemma_place_of::<Node>(p.nodes, e.id);
        assert forall|i: int, k: int|
            #![trigger p.nodes[i], c.nodes[k]]
            is_first_node(p.nodes, i) && is_first_node(c.nodes, k) && p.nodes[i].id == e.id
                && c.nodes[k].id == e.id implies q.nodes == p.nodes.update(
            i,
            NodeView {
                vagrant: p.nodes[i].vagrant,
                stale: p.nodes[i].stale,
                responsibilities: p.nodes[i].responsibilities,
                properties: p.nodes[i].properties,
                ..c.nodes[k]
            },
        ) by {
            lemma_first_node(p.nodes, i);
            lemma_first_node(c.nodes, k);
        }
        assert forall|k: int|
            #![trigger c.nodes[k]]
            is_first_node(c.nodes, k) && c.nodes[k].id == e.id && !node_among(p.nodes, e.id) implies
            q.nodes == p.nodes.push(c.nodes[k]) by {
            lemma_first_node(c.nodes, k);
            let i = place_of::<Node>(p.nodes, e.id);
            if i < p.nodes.len() {
                assert(Node::name_of(p.nodes[i]) == e.id);
                assert(p.nodes[i].id == e.id);
            }
        }
    }
}

proof fn lemma_links_away(ls: Seq<LinkView>, id: Seq<char>)
    ensures
        links_away_from(ls, id) == ls.filter(|l: LinkView| l.src != id && l.dst != id),
    decreases ls.len(),
{
    reveal(Seq::filter);
    if ls.len() > 0 {
        lemma_links_away(ls.drop_last(), id);
    }
}

/// A link's entry that is taken back: what it added is gone; anything else gives the link back
/// as committed has it, once.
pub proof fn law_taking_back_a_link(p: ScryModelView, c: ScryModelView, e: ElementChangeView)
    requires
        e.kind == ElementKind::Link,
    ensures
        ({
            let bare = p.links.filter(|l: LinkView| l.id != e.id);
            reverted(p, c, e) == (ScryModelView {
                links: match first::<Link>(c.links, e.id) {
                    Some(l) => if e.changes.contains(ChangeView::Added) {
                        bare
                    } else {
                        bare.push(l)
                    },
                    None => bare,
                },
                ..p
            })
        }),
{
    lemma_other_links(p.links, e.id);
}

/// A group's entry that is taken back: what it added is gone; anything else gives the group back
/// what committed says of it; where the plan still has it, it keeps its claims.
pub proof fn law_taking_back_a_group(p: ScryModelView, c: ScryModelView, e: ElementChangeView)
    requires
        e.kind == ElementKind::Group,
    ensures
        ({
            let q = reverted(p, c, e);
            &&& q == (ScryModelView { groups: q.groups, ..p })
            &&& e.changes.contains(ChangeView::Added) ==> q.groups == p.groups.filter(
                |g: GroupView| g.id != e.id,
            )
            &&& !e.changes.contains(ChangeView::Added) ==> forall|i: int, k: int|
                #![trigger p.groups[i], c.groups[k]]
                is_first_group(p.groups, i) && is_first_group(c.groups, k) && p.groups[i].id == e.id
                    && c.groups[k].id == e.id ==> q.groups == p.groups.update(
                    i,
                    GroupView { responsibilities: p.groups[i].responsibilities, ..c.groups[k] },
                )
        }),
{
    let q = reverted(p, c, e);
    lemma_other_groups(p.groups, e.id);
    if !e.changes.contains(ChangeView::Added) {
        assert forall|i: int, k: int|
            #![trigger p.groups[i], c.groups[k]]
            is_first_group(p.groups, i) && is_first_group(c.groups, k) && p.groups[i].id == e.id
                && c.groups[k].id == e.id implies q.groups == p.groups.update(
            i,
            GroupView { responsibilities: p.groups[i].responsibilities, ..c.groups[k] },
        ) by {
            lemma_first_group(p.groups, i);
            lemma_first_group(c.groups, k);
        }
    }
}

} // verus!
