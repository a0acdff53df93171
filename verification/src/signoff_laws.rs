//! What a sign-off covers, and what becomes of it when the plan is written again.

use crate::changes::{
    key, law_key_round_trip, ChangeMeta, ChangeMetaView, Classification, SignOffView,
    SignedEntryView,
};
use crate::diff::ElementKind;
use crate::diff_laws::{read_as, told_mark};
use crate::fold_laws::names_differ;
use crate::history::named;
use crate::json::{all_escaped, escaped, json_list, json_text, json_texts};
use crate::model::{
    claim_of, group_claim, node_claim, Group, GroupView, Kind, Link, LinkView, Node, NodeView,
    Responsibility, ResponsibilityView, SchemaProperty, SchemaPropertyView, ScryModelView,
};
use crate::modelled::or_empty;
use crate::named::{first, has_named, lemma_place_of, place_of, Named};
use crate::signoff::{
    annotated, another_hand, claim_text, digest, entry, entry_or_deleted, findings, group_text,
    ids_where, keys_of, kind_word, law_signed_reads_untouched, lemma_named_twice, link_text,
    moved_on, node_text, restamped_by, signature, signed, signers, snapshot, standing,
};
use crate::text::{hex_digits, joined, sorted_list};
use crate::text_laws::{law_a_join_grows, law_a_join_tells_each_part, lemma_between};
use vstd::prelude::*;
use vstd::string::*;

verus! {

// ---- re-stamping ------------------------------------------------------------------------

/// A change after a write by `writer`: unsigned it stays as it is; signed by another hand
/// its signature is marked stale, and nothing else; else it is signed anew, over the plan
/// as it stands.
pub open spec fn written_over(
    m: ScryModelView,
    c: ChangeMetaView,
    now: u64,
    writer: Option<Seq<char>>,
) -> ChangeMetaView {
    match c.signed_off {
        None => c,
        Some(s) => ChangeMetaView {
            signed_off: Some(
                if another_hand(writer, s.by) {
                    SignOffView { staled_by: named(writer), ..s }
                } else {
                    signature(Some(s), snapshot(m, c.id), now, writer, None)
                },
            ),
            ..c
        },
    }
}

/// The changes after the first `n` of them were seen to.
spec fn seen_to(m: ScryModelView, now: u64, writer: Option<Seq<char>>, n: int) -> Seq<
    ChangeMetaView,
> {
    Seq::new(
        m.changes.len(),
        |j: int|
            if j < n {
                written_over(m, m.changes[j], now, writer)
            } else {
                m.changes[j]
            },
    )
}

/// The changes of a plan are no part of what is signed.
proof fn lemma_same_content(m: ScryModelView, w: ScryModelView)
    requires
        w == (ScryModelView { changes: w.changes, ..m }),
    ensures
        forall|k: Seq<char>| #[trigger] entry_or_deleted(w, k) == entry_or_deleted(m, k),
        forall|cid: Seq<char>| #[trigger] snapshot(w, cid) == snapshot(m, cid),
{
    assert forall|k: Seq<char>| #[trigger] entry_or_deleted(w, k) == entry_or_deleted(m, k) by {
        assert(entry(w, k) == entry(m, k));
    }
    assert forall|cid: Seq<char>| #[trigger] snapshot(w, cid) == snapshot(m, cid) by {
        assert(snapshot(w, cid) =~= snapshot(m, cid));
    }
}

proof fn lemma_place_kept(m: ScryModelView, now: u64, writer: Option<Seq<char>>, n: int)
    requires
        names_differ::<ChangeMeta>(m.changes),
        0 <= n < m.changes.len(),
    ensures
        place_of::<ChangeMeta>(seen_to(m, now, writer, n), m.changes[n].id) == n,
        has_named::<ChangeMeta>(seen_to(m, now, writer, n), m.changes[n].id),
{
    let cs = seen_to(m, now, writer, n);
    let id = m.changes[n].id;
    lemma_place_of::<ChangeMeta>(cs, id);
    let k = place_of::<ChangeMeta>(cs, id);
    assert(ChangeMeta::name_of(cs[n]) == id);
    assert(has_named::<ChangeMeta>(cs, id));
    if k != n {
        assert(ChangeMeta::name_of(cs[k]) == id);
        assert(ChangeMeta::name_of(m.changes[k]) != ChangeMeta::name_of(m.changes[n]));
    }
}

proof fn lemma_seen_to(m: ScryModelView, now: u64, writer: Option<Seq<char>>, n: int)
    requires
        names_differ::<ChangeMeta>(m.changes),
        0 <= n <= m.changes.len(),
    ensures
        restamped_by(m, signers(m.changes.take(n)), now, writer) == (ScryModelView {
            changes: seen_to(m, now, writer, n),
            ..m
        }),
    decreases n,
{
    if n == 0 {
        assert(m.changes.take(0) =~= Seq::<ChangeMetaView>::empty());
        assert(seen_to(m, now, writer, 0) =~= m.changes);
    } else {
        lemma_seen_to(m, now, writer, n - 1);
        let c = m.changes[n - 1];
        let before = ScryModelView { changes: seen_to(m, now, writer, n - 1), ..m };
        let list = signers(m.changes.take(n - 1));
        assert(m.changes.take(n).drop_last() =~= m.changes.take(n - 1));
        assert(m.changes.take(n).last() == c);
        lemma_place_kept(m, now, writer, n - 1);
        lemma_named_twice(writer);
        lemma_same_content(m, before);
        if c.signed_off is Some {
            let all = signers(m.changes.take(n));
            assert(all.drop_last() =~= list);
            assert(all.last() == (c.id, c.signed_off->0.by));
        }
        assert(restamped_by(m, signers(m.changes.take(n)), now, writer).changes =~= seen_to(
            m,
            now,
            writer,
            n,
        ));
    }
}

proof fn lemma_listed(
    cs: Seq<ChangeMetaView>,
    writer: Option<Seq<char>>,
    other: bool,
    id: Seq<char>,
)
    ensures
        ids_where(signers(cs), writer, other).contains(id) <==> exists|i: int|
            0 <= i < cs.len() && (#[trigger] cs[i]).id == id && cs[i].signed_off is Some
                && another_hand(writer, cs[i].signed_off->0.by) == other,
    decreases cs.len(),
{
    if cs.len() > 0 {
        let d = cs.drop_last();
        let c = cs.last();
        lemma_listed(d, writer, other, id);
        let old_ids = ids_where(signers(d), writer, other);
        let ids = ids_where(signers(cs), writer, other);
        if c.signed_off is Some {
            assert(signers(cs).drop_last() =~= signers(d));
            assert(signers(cs).last() == (c.id, c.signed_off->0.by));
        }
        assert(cs[cs.len() - 1] == c);
        if old_ids.contains(id) {
            let k = choose|k: int| 0 <= k < old_ids.len() && old_ids[k] == id;
            assert(ids[k] == id);
            let i = choose|i: int|
                0 <= i < d.len() && (#[trigger] d[i]).id == id && d[i].signed_off is Some
                    && another_hand(writer, d[i].signed_off->0.by) == other;
            assert(cs[i].id == id);
        }
        if ids.contains(id) && !old_ids.contains(id) {
            let k = choose|k: int| 0 <= k < ids.len() && ids[k] == id;
            if k < old_ids.len() {
                assert(old_ids[k] == id);
            }
            assert(ids.len() > old_ids.len());
            assert(cs[cs.len() - 1].id == id);
        }
        if exists|i: int|
            0 <= i < cs.len() && (#[trigger] cs[i]).id == id && cs[i].signed_off is Some
                && another_hand(writer, cs[i].signed_off->0.by) == other {
            let i = choose|i: int|
                0 <= i < cs.len() && (#[trigger] cs[i]).id == id && cs[i].signed_off is Some
                    && another_hand(writer, cs[i].signed_off->0.by) == other;
            if i < d.len() {
                assert(d[i].id == id);
            } else {
                assert(ids.last() == id);
                assert(ids[ids.len() - 1] == id);
            }
        }
    }
}

proof fn lemma_same_findings(m: ScryModelView, w: ScryModelView, meta: ChangeMetaView)
    requires
        w == (ScryModelView { changes: w.changes, ..m }),
    ensures
        findings(w, meta) == findings(m, meta),
{
    if meta.signed_off is Some {
        lemma_same_content(m, w);
        lemma_same_moves(m, w, meta.signed_off->0.entries, keys_of(m.change_map, meta.id));
    }
}

proof fn lemma_same_moves(
    m: ScryModelView,
    w: ScryModelView,
    entries: Map<Seq<char>, SignedEntryView>,
    ks: Seq<Seq<char>>,
)
    requires
        forall|k: Seq<char>| #[trigger] entry_or_deleted(w, k) == entry_or_deleted(m, k),
    ensures
        moved_on(w, entries, ks) == moved_on(m, entries, ks),
    decreases ks.len(),
{
    if ks.len() > 0 {
        lemma_same_moves(m, w, entries, ks.drop_last());
        assert(entry_or_deleted(w, ks.last()) == entry_or_deleted(m, ks.last()));
    }
}

/// A write sees to each change on its own, as long as no two share an id. An unsigned one
/// stays as it is and is not listed. One that another named hand signed is listed as staled
/// only, and only its `staled_by` changes. Any other is listed as re-stamped only: it is
/// signed as of now over the plan as it stands, so that nothing in it reads as amended, and
/// a write by the signer, by a blank name or by none leaves the signer's name.
pub proof fn law_a_write_sees_to_each_change(
    m: ScryModelView,
    now: u64,
    writer: Option<Seq<char>>,
    i: int,
)
    requires
        names_differ::<ChangeMeta>(m.changes),
        0 <= i < m.changes.len(),
        m.change_map.dom().finite(),
    ensures
        ({
            let list = signers(m.changes);
            let w = restamped_by(m, list, now, writer);
            let c = m.changes[i];
            let staled = ids_where(list, writer, true);
            let again = ids_where(list, writer, false);
            &&& w == (ScryModelView { changes: w.changes, ..m })
            &&& w.changes.len() == m.changes.len()
            &&& w.changes[i] == written_over(m, c, now, writer)
            &&& match c.signed_off {
                None => w.changes[i] == c && !staled.contains(c.id) && !again.contains(c.id),
                Some(s) => if another_hand(writer, s.by) {
                    &&& staled.contains(c.id)
                    &&& !again.contains(c.id)
                    &&& w.changes[i].signed_off == Some(
                        SignOffView { staled_by: named(writer), ..s },
                    )
                } else {
                    &&& again.contains(c.id)
                    &&& !staled.contains(c.id)
                    &&& w.changes[i].signed_off is Some
                    &&& w.changes[i].signed_off->0.at == now
                    &&& named(writer) is None || s.by == named(writer)
                        ==> w.changes[i].signed_off->0.by == s.by
                    &&& findings(w, w.changes[i]).len() == 0
                },
            }
        }),
{
    let list = signers(m.changes);
    let w = restamped_by(m, list, now, writer);
    let c = m.changes[i];
    assert(m.changes.take(m.changes.len() as int) =~= m.changes);
    lemma_seen_to(m, now, writer, m.changes.len() as int);
    lemma_listed(m.changes, writer, true, c.id);
    lemma_listed(m.changes, writer, false, c.id);
    assert forall|j: int| 0 <= j < m.changes.len() && (#[trigger] m.changes[j]).id == c.id implies j
        == i by {
        if j != i {
            assert(ChangeMeta::name_of(m.changes[j]) != ChangeMeta::name_of(m.changes[i]));
        }
    }
    if c.signed_off is Some && !another_hand(writer, c.signed_off->0.by) {
        lemma_place_of::<ChangeMeta>(m.changes, c.id);
        assert(ChangeMeta::name_of(m.changes[i]) == c.id);
        assert(has_named::<ChangeMeta>(m.changes, c.id));
        let k = place_of::<ChangeMeta>(m.changes, c.id);
        assert(m.changes[k].id == c.id);
        law_signed_reads_untouched(m, c.id, now, writer, None);
        let s = signed(m, c.id, now, writer, None);
        assert(s.changes[i] == w.changes[i]);
        lemma_same_findings(m, s, w.changes[i]);
        lemma_same_findings(m, w, w.changes[i]);
    }
}

// ---- what a claim's signature leaves out ------------------------------------------------

/// Do two claims say the same: id, statement, name and citations?
pub open spec fn says_the_same(a: ResponsibilityView, b: ResponsibilityView) -> bool {
    a.id == b.id && a.statement == b.statement && or_empty(a.title) == or_empty(b.title) && a.cites
        == b.cites
}

/// Do two lists of claims say the same, one by one?
pub open spec fn claims_alike(a: Seq<ResponsibilityView>, b: Seq<ResponsibilityView>) -> bool {
    a.len() == b.len() && forall|i: int| 0 <= i < a.len() ==> says_the_same(#[trigger] a[i], b[i])
}

/// Do the two models have the same hosts, in the same order, with claims that say the same?
pub open spec fn same_claims(m: ScryModelView, w: ScryModelView) -> bool {
    &&& m.nodes.len() == w.nodes.len()
    &&& forall|i: int|
        0 <= i < m.nodes.len() ==> (#[trigger] m.nodes[i]).id == w.nodes[i].id && claims_alike(
            m.nodes[i].responsibilities,
            w.nodes[i].responsibilities,
        )
    &&& m.groups.len() == w.groups.len()
    &&& forall|i: int|
        0 <= i < m.groups.len() ==> (#[trigger] m.groups[i]).id == w.groups[i].id && claims_alike(
            m.groups[i].responsibilities,
            w.groups[i].responsibilities,
        )
}

proof fn lemma_first_alike(a: Seq<ResponsibilityView>, b: Seq<ResponsibilityView>, id: Seq<char>)
    requires
        claims_alike(a, b),
    ensures
        first::<Responsibility>(a, id) is Some <==> first::<Responsibility>(b, id) is Some,
        first::<Responsibility>(a, id) is Some ==> says_the_same(
            first::<Responsibility>(a, id)->0,
            first::<Responsibility>(b, id)->0,
        ),
{
    lemma_place_of::<Responsibility>(a, id);
    lemma_place_of::<Responsibility>(b, id);
    let i = place_of::<Responsibility>(a, id);
    let j = place_of::<Responsibility>(b, id);
    if i < j {
        assert(says_the_same(a[i], b[i]));
        assert(Responsibility::name_of(b[i]) == id);
    }
    if j < i {
        assert(says_the_same(a[j], b[j]));
        assert(Responsibility::name_of(a[j]) == id);
    }
    if i == j && i < a.len() {
        assert(says_the_same(a[i], b[i]));
    }
}

spec fn found_alike(
    a: Option<(Seq<char>, ResponsibilityView)>,
    b: Option<(Seq<char>, ResponsibilityView)>,
) -> bool {
    match (a, b) {
        (Some(x), Some(y)) => x.0 == y.0 && says_the_same(x.1, y.1),
        (None, None) => true,
        _ => false,
    }
}

proof fn lemma_node_claims_alike(a: Seq<NodeView>, b: Seq<NodeView>, id: Seq<char>)
    requires
        a.len() == b.len(),
        forall|i: int|
            0 <= i < a.len() ==> (#[trigger] a[i]).id == b[i].id && claims_alike(
                a[i].responsibilities,
                b[i].responsibilities,
            ),
    ensures
        found_alike(node_claim(a, id), node_claim(b, id)),
    decreases a.len(),
{
    if a.len() > 0 {
        assert(a[0].id == b[0].id);
        lemma_first_alike(a[0].responsibilities, b[0].responsibilities, id);
        let c = a.drop_first();
        let d = b.drop_first();
        assert forall|i: int| 0 <= i < c.len() implies (#[trigger] c[i]).id == d[i].id
            && claims_alike(c[i].responsibilities, d[i].responsibilities) by {
            assert(a[i + 1].id == b[i + 1].id);
        }
        lemma_node_claims_alike(c, d, id);
    }
}

proof fn lemma_group_claims_alike(a: Seq<GroupView>, b: Seq<GroupView>, id: Seq<char>)
    requires
        a.len() == b.len(),
        forall|i: int|
            0 <= i < a.len() ==> (#[trigger] a[i]).id == b[i].id && claims_alike(
                a[i].responsibilities,
                b[i].responsibilities,
            ),
    ensures
        found_alike(group_claim(a, id), group_claim(b, id)),
    decreases a.len(),
{
    if a.len() > 0 {
        assert(a[0].id == b[0].id);
        lemma_first_alike(a[0].responsibilities, b[0].responsibilities, id);
        let c = a.drop_first();
        let d = b.drop_first();
        assert forall|i: int| 0 <= i < c.len() implies (#[trigger] c[i]).id == d[i].id
            && claims_alike(c[i].responsibilities, d[i].responsibilities) by {
            assert(a[i + 1].id == b[i + 1].id);
        }
        lemma_group_claims_alike(c, d, id);
    }
}

/// Cosmetics do not count: two claims with the same statement, name and citations have the
/// same signed text on one host, whatever their concern, directives, flags and time.
pub proof fn law_claim_cosmetics_are_unsigned(
    host: Seq<char>,
    a: ResponsibilityView,
    b: ResponsibilityView,
)
    requires
        a.statement == b.statement,
        or_empty(a.title) == or_empty(b.title),
        a.cites == b.cites,
    ensures
        claim_text(host, a) == claim_text(host, b),
{
}

/// Two models whose claims say the same on the same hosts sign every claim alike, whatever
/// else they hold: no place, icon, concern, directive, flag or time of the nodes, the groups
/// or the claims counts.
pub proof fn law_claims_are_signed_for_what_they_say(
    m: ScryModelView,
    w: ScryModelView,
    id: Seq<char>,
)
    requires
        same_claims(m, w),
    ensures
        entry(m, key(ElementKind::Responsibility, None, id)) == entry(
            w,
            key(ElementKind::Responsibility, None, id),
        ),
{
    law_key_round_trip(ElementKind::Responsibility, None, id);
    lemma_node_claims_alike(m.nodes, w.nodes, id);
    lemma_group_claims_alike(m.groups, w.groups, id);
}

/// A claim is signed with its host, so that a move shows; one that no node or group makes is
/// not signed at all.
pub proof fn law_claims_are_signed_with_their_host(m: ScryModelView, id: Seq<char>)
    ensures
        ({
            let e = entry(m, key(ElementKind::Responsibility, None, id));
            match claim_of(m, id) {
                Some((host, c)) => e is Some && e->0.host == Some(host) && e->0.statement == Some(
                    c.statement,
                ),
                None => e is None,
            }
        }),
{
    law_key_round_trip(ElementKind::Responsibility, None, id);
}

// ---- what a claim's signature covers ----------------------------------------------------

proof fn lemma_hex_two(n: nat)
    requires
        n < 256,
    ensures
        hex_digits(n, 2) == seq![
            crate::text::digit_char((n / 16) as int),
            crate::text::digit_char((n % 16) as int),
        ],
{
    reveal_with_fuel(hex_digits, 3);
    assert((n / 16) % 16 == n / 16);
    assert(hex_digits(n, 2) =~= seq![
        crate::text::digit_char((n / 16) as int),
        crate::text::digit_char((n % 16) as int),
    ]);
}

/// An escaped character is written in characters that can be shown, and is never taken for
/// a quote.
proof fn lemma_escaped(c: char)
    ensures
        escaped(c).len() > 0,
        escaped(c)[0] != '"',
        !escaped(c).contains('\u{1}'),
{
    if (c as u32) < 0x20 {
        lemma_hex_two(c as nat);
    }
}

/// Characters are told apart by how they are escaped.
proof fn lemma_escaped_apart(a: char, r: Seq<char>, b: char, s: Seq<char>)
    requires
        escaped(a) + r == escaped(b) + s,
    ensures
        a == b,
        r == s,
{
    let x = escaped(a) + r;
    let y = escaped(b) + s;
    lemma_escaped(a);
    lemma_escaped(b);
    if (a as u32) < 0x20 {
        lemma_hex_two(a as nat);
    }
    if (b as u32) < 0x20 {
        lemma_hex_two(b as nat);
    }
    assert(x[0] == escaped(a)[0]);
    assert(y[0] == escaped(b)[0]);
    if escaped(a).len() > 1 && escaped(b).len() > 1 {
        assert(x[1] == escaped(a)[1]);
        assert(y[1] == escaped(b)[1]);
        if escaped(a).len() == 6 && escaped(b).len() == 6 {
            assert(x[4] == escaped(a)[4]);
            assert(y[4] == escaped(b)[4]);
            assert(x[5] == escaped(a)[5]);
            assert(y[5] == escaped(b)[5]);
        }
    }
    assert(a == b);
    assert(r =~= x.skip(escaped(a).len() as int));
    assert(s =~= y.skip(escaped(b).len() as int));
}

proof fn lemma_escaped_front(s: Seq<char>)
    requires
        s.len() > 0,
    ensures
        all_escaped(s) == escaped(s[0]) + all_escaped(s.drop_first()),
    decreases s.len(),
{
    let t = s.drop_first();
    if s.len() == 1 {
        assert(s.drop_last() =~= Seq::<char>::empty());
        assert(t =~= Seq::<char>::empty());
        assert(all_escaped(s) =~= escaped(s[0]) + all_escaped(t));
    } else {
        lemma_escaped_front(s.drop_last());
        assert(s.drop_last().drop_first() =~= t.drop_last());
        assert(all_escaped(s) =~= escaped(s[0]) + all_escaped(t));
    }
}

proof fn lemma_shown(s: Seq<char>)
    ensures
        !all_escaped(s).contains('\u{1}'),
    decreases s.len(),
{
    if s.len() > 0 {
        lemma_shown(s.drop_last());
        lemma_escaped(s.last());
        let a = all_escaped(s.drop_last());
        let b = escaped(s.last());
        assert forall|i: int| 0 <= i < (a + b).len() implies (a + b)[i] != '\u{1}' by {
            if i < a.len() {
                assert(a.contains(a[i]));
            } else {
                assert(b.contains(b[i - a.len()]));
            }
        }
    }
}

/// A text in quotes ends where its quote does.
proof fn lemma_quote_ends(a: Seq<char>, r: Seq<char>, b: Seq<char>, s: Seq<char>)
    requires
        all_escaped(a) + seq!['"'] + r == all_escaped(b) + seq!['"'] + s,
    ensures
        a == b,
        r == s,
    decreases a.len(),
{
    let x = all_escaped(a) + seq!['"'] + r;
    let y = all_escaped(b) + seq!['"'] + s;
    if a.len() == 0 {
        assert(x[0] == '"');
        if b.len() > 0 {
            lemma_escaped_front(b);
            lemma_escaped(b[0]);
            assert(y[0] == escaped(b[0])[0]);
        } else {
            assert(r =~= x.skip(1));
            assert(s =~= y.skip(1));
            assert(a =~= b);
        }
    } else {
        lemma_escaped_front(a);
        lemma_escaped(a[0]);
        assert(x[0] == escaped(a[0])[0]);
        if b.len() == 0 {
            assert(y[0] == '"');
        } else {
            lemma_escaped_front(b);
            let c = a.drop_first();
            let d = b.drop_first();
            assert(x =~= escaped(a[0]) + (all_escaped(c) + seq!['"'] + r));
            assert(y =~= escaped(b[0]) + (all_escaped(d) + seq!['"'] + s));
            lemma_escaped_apart(
                a[0],
                all_escaped(c) + seq!['"'] + r,
                b[0],
                all_escaped(d) + seq!['"'] + s,
            );
            lemma_quote_ends(c, r, d, s);
            assert(a =~= seq![a[0]] + c);
            assert(b =~= seq![b[0]] + d);
        }
    }
}

proof fn lemma_text_ends(a: Seq<char>, r: Seq<char>, b: Seq<char>, s: Seq<char>)
    requires
        json_text(a) + r == json_text(b) + s,
    ensures
        a == b,
        r == s,
{
    let x = json_text(a) + r;
    let y = json_text(b) + s;
    assert(x.skip(1) =~= all_escaped(a) + seq!['"'] + r);
    assert(y.skip(1) =~= all_escaped(b) + seq!['"'] + s);
    lemma_quote_ends(a, r, b, s);
}

proof fn lemma_joined_front(ps: Seq<Seq<char>>, sep: Seq<char>)
    requires
        ps.len() > 1,
    ensures
        joined(ps, sep) == ps[0] + sep + joined(ps.drop_first(), sep),
    decreases ps.len(),
{
    let t = ps.drop_first();
    let d = ps.drop_last();
    if ps.len() == 2 {
        assert(joined(d, sep) == ps[0]);
        assert(joined(t, sep) == ps[1]);
    } else {
        lemma_joined_front(d, sep);
        assert(d.drop_first() =~= t.drop_last());
        assert(joined(ps, sep) =~= ps[0] + sep + joined(t, sep));
    }
}

/// What follows the first of a list.
spec fn after_first(xs: Seq<Seq<char>>) -> Seq<char> {
    if xs.len() <= 1 {
        Seq::empty()
    } else {
        ","@ + joined(json_texts(xs.drop_first()), ","@)
    }
}

proof fn lemma_listed_front(xs: Seq<Seq<char>>)
    requires
        xs.len() > 0,
    ensures
        joined(json_texts(xs), ","@) == json_text(xs[0]) + after_first(xs),
{
    if xs.len() == 1 {
        assert(joined(json_texts(xs), ","@) =~= json_text(xs[0]) + after_first(xs));
    } else {
        lemma_joined_front(json_texts(xs), ","@);
        assert(json_texts(xs).drop_first() =~= json_texts(xs.drop_first()));
        assert(joined(json_texts(xs), ","@) =~= json_text(xs[0]) + after_first(xs));
    }
}

/// Lists are told apart by how they are written.
pub proof fn lemma_lists_apart(xs: Seq<Seq<char>>, ys: Seq<Seq<char>>)
    requires
        joined(json_texts(xs), ","@) == joined(json_texts(ys), ","@),
    ensures
        xs == ys,
    decreases xs.len(),
{
    reveal_strlit(",");
    if xs.len() == 0 {
        if ys.len() > 0 {
            lemma_listed_front(ys);
            assert(joined(json_texts(ys), ","@).len() > 0);
        }
        assert(xs =~= ys);
    } else {
        lemma_listed_front(xs);
        if ys.len() == 0 {
            assert(joined(json_texts(xs), ","@).len() > 0);
        } else {
            lemma_listed_front(ys);
            lemma_text_ends(xs[0], after_first(xs), ys[0], after_first(ys));
            let c = xs.drop_first();
            let d = ys.drop_first();
            if xs.len() > 1 {
                assert(after_first(xs).len() > 0);
            }
            if ys.len() > 1 {
                assert(after_first(ys).len() > 0);
            }
            if xs.len() > 1 {
                assert(after_first(xs).skip(1) =~= joined(json_texts(c), ","@));
                assert(after_first(ys).skip(1) =~= joined(json_texts(d), ","@));
                lemma_lists_apart(c, d);
                assert(xs =~= seq![xs[0]] + c);
                assert(ys =~= seq![ys[0]] + d);
            } else {
                assert(xs =~= ys);
            }
        }
    }
}

proof fn lemma_list_shown(xs: Seq<Seq<char>>)
    ensures
        !joined(json_texts(xs), ","@).contains('\u{1}'),
    decreases xs.len(),
{
    reveal_strlit(",");
    if xs.len() > 0 {
        lemma_listed_front(xs);
        lemma_shown(xs[0]);
        lemma_list_shown(xs.drop_first());
        let e = all_escaped(xs[0]);
        let a = json_text(xs[0]);
        let b = after_first(xs);
        let j = joined(json_texts(xs.drop_first()), ","@);
        assert forall|i: int| 0 <= i < (a + b).len() implies (a + b)[i] != '\u{1}' by {
            if i < a.len() {
                if 0 < i < a.len() - 1 {
                    assert(e.contains(e[i - 1]));
                }
            } else if i > a.len() {
                assert(j.contains(j[i - a.len() - 1]));
            }
        }
    }
}

/// What stands behind the statement of an annotated claim.
spec fn annotation(c: ResponsibilityView) -> Seq<char> {
    json_text(or_empty(c.title)) + json_list(c.cites)
}

proof fn lemma_annotation_shown(c: ResponsibilityView)
    ensures
        !annotation(c).contains('\u{1}'),
{
    reveal_strlit("[");
    reveal_strlit("]");
    let t = or_empty(c.title);
    lemma_shown(t);
    lemma_list_shown(c.cites);
    let e = all_escaped(t);
    let a = json_text(t);
    let j = joined(json_texts(c.cites), ","@);
    let s = annotation(c);
    assert forall|i: int| 0 <= i < s.len() implies s[i] != '\u{1}' by {
        if i < a.len() {
            if 0 < i < a.len() - 1 {
                assert(e.contains(e[i - 1]));
            }
        } else if a.len() < i < s.len() - 1 {
            assert(j.contains(j[i - a.len() - 1]));
        }
    }
}

proof fn lemma_annotations_apart(a: ResponsibilityView, b: ResponsibilityView)
    requires
        annotation(a) == annotation(b),
    ensures
        or_empty(a.title) == or_empty(b.title),
        a.cites == b.cites,
{
    reveal_strlit("[");
    reveal_strlit("]");
    lemma_text_ends(or_empty(a.title), json_list(a.cites), or_empty(b.title), json_list(b.cites));
    let x = json_list(a.cites);
    let y = json_list(b.cites);
    assert(x.subrange(1, x.len() - 1) =~= joined(json_texts(a.cites), ","@));
    assert(y.subrange(1, y.len() - 1) =~= joined(json_texts(b.cites), ","@));
    lemma_lists_apart(a.cites, b.cites);
}

/// Two texts split at a mark that does not stand behind it are split alike.
proof fn lemma_split_alike(a: Seq<char>, r: Seq<char>, b: Seq<char>, s: Seq<char>)
    requires
        a + "\u{1}"@ + r == b + "\u{1}"@ + s,
        !r.contains('\u{1}'),
        !s.contains('\u{1}'),
    ensures
        a == b,
        r == s,
{
    reveal_strlit("\u{1}");
    let x = a + "\u{1}"@ + r;
    let y = b + "\u{1}"@ + s;
    assert(x.len() == a.len() + 1 + r.len());
    assert(y.len() == b.len() + 1 + s.len());
    assert(x[a.len() as int] == '\u{1}');
    assert(y[b.len() as int] == '\u{1}');
    if a.len() < b.len() {
        assert(x[b.len() as int] == r[b.len() - a.len() - 1]);
        assert(r.contains(r[b.len() - a.len() - 1]));
    }
    if b.len() < a.len() {
        assert(y[a.len() as int] == s[a.len() - b.len() - 1]);
        assert(s.contains(s[a.len() - b.len() - 1]));
    }
    assert(a =~= x.take(a.len() as int));
    assert(b =~= y.take(b.len() as int));
    assert(r =~= x.skip((a.len() + 1) as int));
    assert(s =~= y.skip((b.len() + 1) as int));
}

/// Does one id begin with the other and a bar?
pub open spec fn runs_into(g: Seq<char>, h: Seq<char>) -> bool {
    (g + "|"@).is_prefix_of(h) || (h + "|"@).is_prefix_of(g)
}

proof fn lemma_hosts_apart(g: Seq<char>, r: Seq<char>, h: Seq<char>, s: Seq<char>)
    requires
        g + "|"@ + r == h + "|"@ + s,
        !runs_into(g, h),
    ensures
        g == h,
        r == s,
{
    reveal_strlit("|");
    let x = g + "|"@ + r;
    let y = h + "|"@ + s;
    if g.len() < h.len() {
        assert(h.take((g.len() + 1) as int) =~= y.take((g.len() + 1) as int));
        assert(x.take((g.len() + 1) as int) =~= g + "|"@);
        assert((g + "|"@).is_prefix_of(h));
    }
    if h.len() < g.len() {
        assert(g.take((h.len() + 1) as int) =~= x.take((h.len() + 1) as int));
        assert(y.take((h.len() + 1) as int) =~= h + "|"@);
        assert((h + "|"@).is_prefix_of(g));
    }
    assert(g =~= x.take(g.len() as int));
    assert(h =~= y.take(h.len() as int));
    assert(r =~= x.skip((g.len() + 1) as int));
    assert(s =~= y.skip((h.len() + 1) as int));
}

proof fn lemma_kinds_apart(
    g: Seq<char>,
    a: ResponsibilityView,
    h: Seq<char>,
    b: ResponsibilityView,
)
    requires
        annotated(a),
        !annotated(b),
    ensures
        claim_text(g, a) != claim_text(h, b),
{
    reveal_strlit("claim|");
    reveal_strlit("resp|");
    assert(claim_text(g, a)[0] == 'c');
    assert(claim_text(h, b)[0] == 'r');
}

proof fn lemma_plain_apart(
    g: Seq<char>,
    a: ResponsibilityView,
    h: Seq<char>,
    b: ResponsibilityView,
)
    requires
        !runs_into(g, h),
        !annotated(a),
        !annotated(b),
        claim_text(g, a) == claim_text(h, b),
    ensures
        g == h,
        a.statement == b.statement,
{
    reveal_strlit("resp|");
    let x = claim_text(g, a);
    let y = claim_text(h, b);
    assert(x.skip(5) =~= g + "|"@ + a.statement);
    assert(y.skip(5) =~= h + "|"@ + b.statement);
    lemma_hosts_apart(g, a.statement, h, b.statement);
}

proof fn lemma_annotated_apart(
    g: Seq<char>,
    a: ResponsibilityView,
    h: Seq<char>,
    b: ResponsibilityView,
)
    requires
        !runs_into(g, h),
        annotated(a),
        annotated(b),
        claim_text(g, a) == claim_text(h, b),
    ensures
        g == h,
        a.statement == b.statement,
        annotation(a) == annotation(b),
{
    reveal_strlit("claim|");
    let x = claim_text(g, a);
    let y = claim_text(h, b);
    let r = a.statement + "\u{1}"@ + annotation(a);
    let s = b.statement + "\u{1}"@ + annotation(b);
    assert(x =~= "claim|"@ + (g + "|"@ + r));
    assert(y =~= "claim|"@ + (h + "|"@ + s));
    assert(x.skip(6) =~= g + "|"@ + r);
    assert(y.skip(6) =~= h + "|"@ + s);
    lemma_hosts_apart(g, r, h, s);
    lemma_annotation_shown(a);
    lemma_annotation_shown(b);
    lemma_split_alike(a.statement, annotation(a), b.statement, annotation(b));
}

/// Everything that a claim says counts: on another host, or with another statement, name or
/// list of citations, the signed text is another, as long as neither host's id begins with
/// the other's and a bar.
pub proof fn law_claims_are_signed_whole(
    g: Seq<char>,
    a: ResponsibilityView,
    h: Seq<char>,
    b: ResponsibilityView,
)
    requires
        g != h ==> !runs_into(g, h),
    ensures
        claim_text(g, a) == claim_text(h, b) <==> g == h && a.statement == b.statement && or_empty(
            a.title,
        ) == or_empty(b.title) && a.cites == b.cites,
{
    if claim_text(g, a) == claim_text(h, b) {
        lemma_no_run(g);
        if annotated(a) && annotated(b) {
            lemma_annotated_apart(g, a, h, b);
            lemma_annotations_apart(a, b);
        } else if annotated(a) {
            lemma_kinds_apart(g, a, h, b);
        } else if annotated(b) {
            lemma_kinds_apart(h, b, g, a);
        } else {
            lemma_plain_apart(g, a, h, b);
            assert(or_empty(a.title) =~= or_empty(b.title));
            assert(a.cites =~= b.cites);
        }
    }
}

proof fn lemma_no_run(g: Seq<char>)
    ensures
        !runs_into(g, g),
{
    reveal_strlit("|");
    if (g + "|"@).is_prefix_of(g) {
        assert((g + "|"@).len() <= g.len());
    }
}

/// Texts are told apart by how they are written in JSON.
pub proof fn lemma_texts_apart(a: Seq<char>, b: Seq<char>)
    ensures
        json_text(a) == json_text(b) <==> a == b,
{
    let none = Seq::<char>::empty();
    if json_text(a) == json_text(b) {
        assert(json_text(a) + none == json_text(b) + none);
        lemma_text_ends(a, none, b, none);
    }
}

// ---- what the other signatures cover ----------------------------------------------------

/// Kinds are signed under different words.
pub proof fn law_kinds_are_signed_apart(a: Kind, b: Kind)
    ensures
        kind_word(a) == kind_word(b) <==> a == b,
{
    reveal_strlit("Person");
    reveal_strlit("System");
    reveal_strlit("Container");
    reveal_strlit("Component");
    reveal_strlit("Symbol");
    assert("Person"@[0] == 'P');
    assert("System"@[0] == 'S');
    assert("Symbol"@[0] == 'S');
    assert("System"@[2] == 's');
    assert("Symbol"@[2] == 'm');
    assert("Container"@[0] == 'C');
    assert("Component"@[0] == 'C');
    assert("Container"@[3] == 't');
    assert("Component"@[3] == 'p');
}

proof fn lemma_bars_tell(ps: Seq<Seq<char>>, qs: Seq<Seq<char>>)
    requires
        ps.len() == qs.len(),
    ensures
        forall|k: int|
            #![trigger ps[k]]
            0 <= k < ps.len() && (forall|i: int| 0 <= i < ps.len() && i != k ==> ps[i] == qs[i])
                ==> (joined(ps, "|"@) == joined(qs, "|"@) <==> ps[k] == qs[k]),
{
    assert forall|k: int|
        #![trigger ps[k]]
        0 <= k < ps.len() && (forall|i: int| 0 <= i < ps.len() && i != k ==> ps[i] == qs[i]) implies (
    joined(ps, "|"@) == joined(qs, "|"@) <==> ps[k] == qs[k]) by {
        law_a_join_tells_each_part(ps, qs, "|"@, k);
    }
}

proof fn lemma_joined_step(ps: Seq<Seq<char>>, x: Seq<char>)
    requires
        ps.len() > 0,
    ensures
        joined(ps.push(x), "|"@) == joined(ps, "|"@) + "|"@ + x,
{
    law_a_join_grows(ps, x, "|"@);
}

spec fn node_parts(n: NodeView) -> Seq<Seq<char>> {
    seq!["node"@].push(kind_word(n.kind)).push(n.name).push(read_as(n.parent_id)).push(
        read_as(n.description),
    ).push(read_as(n.technology)).push(told_mark(n.external))
}

proof fn lemma_node_parts(n: NodeView)
    ensures
        node_text(n) == joined(node_parts(n), "|"@),
{
    reveal_strlit("node|");
    reveal_strlit("node");
    reveal_strlit("|");
    let p0 = seq!["node"@];
    let p1 = p0.push(kind_word(n.kind));
    let p2 = p1.push(n.name);
    let p3 = p2.push(read_as(n.parent_id));
    let p4 = p3.push(read_as(n.description));
    let p5 = p4.push(read_as(n.technology));
    lemma_joined_step(p0, kind_word(n.kind));
    lemma_joined_step(p1, n.name);
    lemma_joined_step(p2, read_as(n.parent_id));
    lemma_joined_step(p3, read_as(n.description));
    lemma_joined_step(p4, read_as(n.technology));
    lemma_joined_step(p5, told_mark(n.external));
    assert(joined(p0, "|"@) == "node"@);
    assert("node|"@ =~= "node"@ + "|"@);
}

/// What is signed of a node is a digest of its kind, name, parent, description, technology and
/// external mark. Of two nodes that differ in one of these at most, the texts are the same
/// exactly where that one is.
pub proof fn law_nodes_are_signed_whole(a: NodeView, b: NodeView)
    ensures
        ({
            let same = node_text(a) == node_text(b);
            let kind = a.kind == b.kind;
            let name = a.name == b.name;
            let parent = read_as(a.parent_id) == read_as(b.parent_id);
            let description = read_as(a.description) == read_as(b.description);
            let technology = read_as(a.technology) == read_as(b.technology);
            let external = (a.external == Some(true)) == (b.external == Some(true));
            &&& kind && name && parent && description && technology && external ==> same
            &&& name && parent && description && technology && external ==> (same <==> kind)
            &&& kind && parent && description && technology && external ==> (same <==> name)
            &&& kind && name && description && technology && external ==> (same <==> parent)
            &&& kind && name && parent && technology && external ==> (same <==> description)
            &&& kind && name && parent && description && external ==> (same <==> technology)
            &&& kind && name && parent && description && technology ==> (same <==> external)
        }),
{
    let ps = node_parts(a);
    let qs = node_parts(b);
    lemma_node_parts(a);
    lemma_node_parts(b);
    lemma_bars_tell(ps, qs);
    law_kinds_are_signed_apart(a.kind, b.kind);
    reveal_strlit("true");
    reveal_strlit("false");
    assert("true"@.len() != "false"@.len());
    assert(ps[0] == qs[0]);
    assert(ps[1] == kind_word(a.kind) && qs[1] == kind_word(b.kind));
    assert(ps[2] == a.name && qs[2] == b.name);
    assert(ps[3] == read_as(a.parent_id) && qs[3] == read_as(b.parent_id));
    assert(ps[4] == read_as(a.description) && qs[4] == read_as(b.description));
    assert(ps[5] == read_as(a.technology) && qs[5] == read_as(b.technology));
    assert(ps[6] == told_mark(a.external) && qs[6] == told_mark(b.external));
}

spec fn link_parts(l: LinkView) -> Seq<Seq<char>> {
    seq!["link"@].push(l.src).push(l.dst).push(l.label).push(read_as(l.method))
}

proof fn lemma_link_parts(l: LinkView)
    ensures
        link_text(l) == joined(link_parts(l), "|"@),
{
    reveal_strlit("link|");
    reveal_strlit("link");
    reveal_strlit("|");
    let p0 = seq!["link"@];
    let p1 = p0.push(l.src);
    let p2 = p1.push(l.dst);
    let p3 = p2.push(l.label);
    lemma_joined_step(p0, l.src);
    lemma_joined_step(p1, l.dst);
    lemma_joined_step(p2, l.label);
    lemma_joined_step(p3, read_as(l.method));
    assert(joined(p0, "|"@) == "link"@);
    assert("link|"@ =~= "link"@ + "|"@);
}

/// What is signed of a link is a digest of its ends, label and method. Of two links that differ
/// in one of these at most, the texts are the same exactly where that one is.
pub proof fn law_links_are_signed_whole(a: LinkView, b: LinkView)
    ensures
        ({
            let same = link_text(a) == link_text(b);
            let src = a.src == b.src;
            let dst = a.dst == b.dst;
            let label = a.label == b.label;
            let method = read_as(a.method) == read_as(b.method);
            &&& src && dst && label && method ==> same
            &&& dst && label && method ==> (same <==> src)
            &&& src && label && method ==> (same <==> dst)
            &&& src && dst && method ==> (same <==> label)
            &&& src && dst && label ==> (same <==> method)
        }),
{
    let ps = link_parts(a);
    let qs = link_parts(b);
    lemma_link_parts(a);
    lemma_link_parts(b);
    lemma_bars_tell(ps, qs);
    assert(ps[0] == qs[0]);
    assert(ps[1] == a.src && qs[1] == b.src);
    assert(ps[2] == a.dst && qs[2] == b.dst);
    assert(ps[3] == a.label && qs[3] == b.label);
    assert(ps[4] == read_as(a.method) && qs[4] == read_as(b.method));
}

spec fn group_parts(g: GroupView) -> Seq<Seq<char>> {
    seq!["group"@].push(g.name).push(read_as(g.description)).push(
        joined(sorted_list(g.member_ids), ","@),
    ).push(read_as(g.parent_group_id)).push(read_as(g.parent_node_id))
}

proof fn lemma_group_parts(g: GroupView)
    ensures
        group_text(g) == joined(group_parts(g), "|"@),
{
    reveal_strlit("group|");
    reveal_strlit("group");
    reveal_strlit("|");
    let p0 = seq!["group"@];
    let p1 = p0.push(g.name);
    let p2 = p1.push(read_as(g.description));
    let p3 = p2.push(joined(sorted_list(g.member_ids), ","@));
    let p4 = p3.push(read_as(g.parent_group_id));
    lemma_joined_step(p0, g.name);
    lemma_joined_step(p1, read_as(g.description));
    lemma_joined_step(p2, joined(sorted_list(g.member_ids), ","@));
    lemma_joined_step(p3, read_as(g.parent_group_id));
    lemma_joined_step(p4, read_as(g.parent_node_id));
    assert(joined(p0, "|"@) == "group"@);
    assert("group|"@ =~= "group"@ + "|"@);
}

/// What is signed of a group is a digest of its name, description, members in order of their
/// ids, parent group and node. Of two groups that differ in one of these at most, the texts are
/// the same exactly where that one is.
pub proof fn law_groups_are_signed_whole(a: GroupView, b: GroupView)
    ensures
        ({
            let same = group_text(a) == group_text(b);
            let name = a.name == b.name;
            let description = read_as(a.description) == read_as(b.description);
            let members = joined(sorted_list(a.member_ids), ","@) == joined(
                sorted_list(b.member_ids),
                ","@,
            );
            let parent = read_as(a.parent_group_id) == read_as(b.parent_group_id);
            let node = read_as(a.parent_node_id) == read_as(b.parent_node_id);
            &&& name && description && members && parent && node ==> same
            &&& description && members && parent && node ==> (same <==> name)
            &&& name && members && parent && node ==> (same <==> description)
            &&& name && description && parent && node ==> (same <==> members)
            &&& name && description && members && node ==> (same <==> parent)
            &&& name && description && members && parent ==> (same <==> node)
        }),
{
    let ps = group_parts(a);
    let qs = group_parts(b);
    lemma_group_parts(a);
    lemma_group_parts(b);
    lemma_bars_tell(ps, qs);
    assert(ps[0] == qs[0]);
    assert(ps[1] == a.name && qs[1] == b.name);
    assert(ps[2] == read_as(a.description) && qs[2] == read_as(b.description));
    assert(ps[3] == joined(sorted_list(a.member_ids), ","@) && qs[3] == joined(
        sorted_list(b.member_ids),
        ","@,
    ));
    assert(ps[4] == read_as(a.parent_group_id) && qs[4] == read_as(b.parent_group_id));
    assert(ps[5] == read_as(a.parent_node_id) && qs[5] == read_as(b.parent_node_id));
}

/// The text that is signed of a property.
pub open spec fn property_text(owner: Seq<char>, q: SchemaPropertyView) -> Seq<char> {
    "prop|"@ + owner + "|"@ + q.label + "|"@ + q.description
}

/// What is signed of an entry is the digest of its element's text: of the first node, link or
/// group with the id, of the first property with the label on the first node that is its owner.
/// An entry whose element the plan does not have is not signed.
pub proof fn law_entries_are_digests_of_their_texts(
    m: ScryModelView,
    id: Seq<char>,
    owner: Seq<char>,
)
    ensures
        entry(m, "node:"@ + id) == match first::<Node>(m.nodes, id) {
            Some(n) => Some(
                SignedEntryView { hash: digest(node_text(n)), statement: None, host: None },
            ),
            None => None,
        },
        entry(m, "link:"@ + id) == match first::<Link>(m.links, id) {
            Some(l) => Some(
                SignedEntryView { hash: digest(link_text(l)), statement: None, host: None },
            ),
            None => None,
        },
        entry(m, "group:"@ + id) == match first::<Group>(m.groups, id) {
            Some(g) => Some(
                SignedEntryView { hash: digest(group_text(g)), statement: None, host: None },
            ),
            None => None,
        },
        entry(m, "resp:"@ + id) == match claim_of(m, id) {
            Some((host, c)) => Some(
                SignedEntryView {
                    hash: digest(claim_text(host, c)),
                    statement: Some(c.statement),
                    host: Some(host),
                },
            ),
            None => None,
        },
        !owner.contains(':') ==> entry(m, "prop:"@ + owner + ":"@ + id) == match first::<Node>(
            m.nodes,
            owner,
        ) {
            Some(n) => match first::<SchemaProperty>(n.properties, id) {
                Some(q) => Some(
                    SignedEntryView {
                        hash: digest(property_text(owner, q)),
                        statement: None,
                        host: Some(owner),
                    },
                ),
                None => None,
            },
            None => None,
        },
{
    law_key_round_trip(ElementKind::Node, None, id);
    law_key_round_trip(ElementKind::Link, None, id);
    law_key_round_trip(ElementKind::Group, None, id);
    law_key_round_trip(ElementKind::Responsibility, None, id);
    if !owner.contains(':') {
        law_key_round_trip(ElementKind::Property, Some(owner), id);
    }
}

/// Of two properties on one node with one label, the texts are the same exactly where the
/// descriptions are.
pub proof fn law_properties_are_signed_whole(
    owner: Seq<char>,
    a: SchemaPropertyView,
    b: SchemaPropertyView,
)
    requires
        a.label == b.label,
    ensures
        property_text(owner, a) == property_text(owner, b) <==> a.description == b.description,
{
    let none = Seq::<char>::empty();
    let head = "prop|"@ + owner + "|"@ + a.label + "|"@;
    lemma_between(head, a.description, b.description, none);
    assert(property_text(owner, a) =~= head + a.description + none);
    assert(property_text(owner, b) =~= head + b.description + none);
}

/// An entry of a signed change that is still filed under it reads as amended exactly where the
/// digest of its element is another than the one that was signed; one that was not signed reads
/// as added.
pub proof fn law_an_entry_is_held_against_what_was_signed(
    m: ScryModelView,
    k: Seq<char>,
    meta: ChangeMetaView,
    i: int,
)
    requires
        names_differ::<ChangeMeta>(m.changes),
        0 <= i < m.changes.len(),
        m.changes[i] == meta,
        m.change_map.contains_key(k),
        m.change_map[k] == meta.id,
        meta.signed_off is Some,
    ensures
        ({
            let was = meta.signed_off->0.entries;
            let is_now = match entry(m, k) {
                Some(e) => e.hash,
                None => "deleted"@,
            };
            &&& was.contains_key(k) && was[k].hash == is_now ==> standing(m, k) is None
            &&& was.contains_key(k) && was[k].hash != is_now ==> standing(m, k) == Some(
                (meta.id, Classification::Amended, Some(was[k])),
            )
            &&& !was.contains_key(k) ==> standing(m, k) == Some(
                (meta.id, Classification::Added, None::<SignedEntryView>),
            )
        }),
{
    lemma_place_of::<ChangeMeta>(m.changes, meta.id);
    assert(ChangeMeta::name_of(m.changes[i]) == meta.id);
    let q = place_of::<ChangeMeta>(m.changes, meta.id);
    if q != i {
        assert(ChangeMeta::name_of(m.changes[q]) == meta.id);
        assert(ChangeMeta::name_of(m.changes[q]) != ChangeMeta::name_of(m.changes[i]));
    }
}

/// Signing a change remembers every entry that is filed under it, and no other, as it stands;
/// it touches no other change and nothing else of the plan.
pub proof fn law_signing_remembers_what_is_filed(
    m: ScryModelView,
    i: int,
    now: u64,
    actor: Option<Seq<char>>,
    person: Option<Seq<char>>,
)
    requires
        0 <= i < m.changes.len(),
        forall|k: int| 0 <= k < i ==> (#[trigger] m.changes[k]).id != m.changes[i].id,
    ensures
        ({
            let w = signed(m, m.changes[i].id, now, actor, person);
            &&& w == (ScryModelView { changes: w.changes, ..m })
            &&& w.changes.len() == m.changes.len()
            &&& forall|k: int|
                0 <= k < m.changes.len() && k != i ==> #[trigger] w.changes[k] == m.changes[k]
            &&& w.changes[i] == (ChangeMetaView {
                signed_off: w.changes[i].signed_off,
                ..m.changes[i]
            })
            &&& w.changes[i].signed_off is Some
            &&& {
                let s = w.changes[i].signed_off->0;
                &&& s.at == now
                &&& forall|k: Seq<char>| #[trigger]
                    s.entries.contains_key(k) <==> m.change_map.contains_key(k)
                        && m.change_map[k] == m.changes[i].id
                &&& forall|k: Seq<char>| #[trigger]
                    s.entries.contains_key(k) ==> s.entries[k] == match entry(m, k) {
                        Some(e) => e,
                        None => SignedEntryView { hash: "deleted"@, statement: None, host: None },
                    }
                &&& named(actor) is Some ==> s.by == named(actor) && s.on_behalf_of == named(person)
                    && s.staled_by is None
            }
        }),
{
    lemma_place_of::<ChangeMeta>(m.changes, m.changes[i].id);
    assert(ChangeMeta::name_of(m.changes[i]) == m.changes[i].id);
    let q = place_of::<ChangeMeta>(m.changes, m.changes[i].id);
    if q < i {
        assert(ChangeMeta::name_of(m.changes[q]) == m.changes[i].id);
    }
}

} // verus!
