//! What the fingerprints of a basis cover.

use crate::basis::{
    binding_text, change_json, changes_json, claim_facts, claim_print, directive_print,
    inherited_text, outline_facts, outline_print, pending_print, sep,
};
use crate::changes::key_of;
use crate::diff::{ChangeView, ElementChangeView};
use crate::diff_laws::{read_as, told_mark};
use crate::model::{directive_lines, NodeView, ResponsibilityView, ScryModelView};
use crate::json::json_text;
use crate::signoff::digest;
use crate::signoff_laws::lemma_texts_apart;
use crate::text::{decimal, joined};
use crate::text_laws::{law_a_join_tells_each_part, lemma_between};
use vstd::prelude::*;
use vstd::string::*;

verus! {

// ---- claims -----------------------------------------------------------------------------

/// The text that a claim's fingerprint is taken of.
pub open spec fn claim_written(host: Seq<char>, r: ResponsibilityView) -> Seq<char> {
    joined(claim_facts(host, r), sep())
}

proof fn lemma_facts_tell(ps: Seq<Seq<char>>, qs: Seq<Seq<char>>, sep: Seq<char>)
    requires
        ps.len() == qs.len(),
    ensures
        forall|k: int|
            #![trigger ps[k]]
            0 <= k < ps.len() && (forall|i: int| 0 <= i < ps.len() && i != k ==> ps[i] == qs[i])
                ==> (joined(ps, sep) == joined(qs, sep) <==> ps[k] == qs[k]),
{
    assert forall|k: int|
        #![trigger ps[k]]
        0 <= k < ps.len() && (forall|i: int| 0 <= i < ps.len() && i != k ==> ps[i] == qs[i]) implies (
    joined(ps, sep) == joined(qs, sep) <==> ps[k] == qs[k]) by {
        law_a_join_tells_each_part(ps, qs, sep, k);
    }
}

/// A claim's fingerprint is a digest of what it says and how it is marked. Of two claims that
/// differ in one of these at most, the texts it is taken of are the same exactly where that
/// one is: the host, the title, the statement, the concern, whether it is vagrant, where a
/// vagrant came from, the statement that was approved, whether it is stale, what is proposed
/// then, its directives as they read, its citations.
pub proof fn law_a_claims_print_covers_it(
    g: Seq<char>,
    a: ResponsibilityView,
    h: Seq<char>,
    b: ResponsibilityView,
)
    ensures
        claim_print(g, a) == digest(claim_written(g, a)).take(8),
        ({
            let same = claim_written(g, a) == claim_written(h, b);
            let host = g == h;
            let title = read_as(a.title) == read_as(b.title);
            let statement = a.statement == b.statement;
            let concern = read_as(a.concern) == read_as(b.concern);
            let vagrant = (a.vagrant == Some(true)) == (b.vagrant == Some(true));
            let origin = read_as(a.vagrant_origin) == read_as(b.vagrant_origin);
            let approved = read_as(a.approved_statement) == read_as(b.approved_statement);
            let stale = (a.stale == Some(true)) == (b.stale == Some(true));
            let proposal = read_as(a.stale_proposal) == read_as(b.stale_proposal);
            let directives = directive_lines(a.directives) == directive_lines(b.directives);
            let cites = joined(a.cites, "\u{2}"@) == joined(b.cites, "\u{2}"@);
            let marks = vagrant && origin && approved && stale && proposal;
            let words = host && title && statement && concern && directives && cites;
            &&& words && marks ==> same
            &&& title && statement && concern && directives && cites && marks ==> (same <==> host)
            &&& host && statement && concern && directives && cites && marks ==> (same <==> title)
            &&& host && title && concern && directives && cites && marks ==> (same <==> statement)
            &&& host && title && statement && directives && cites && marks ==> (same <==> concern)
            &&& host && title && statement && concern && cites && marks ==> (same <==> directives)
            &&& host && title && statement && concern && directives && marks ==> (same <==> cites)
            &&& words && origin && approved && stale && proposal ==> (same <==> vagrant)
            &&& words && vagrant && approved && stale && proposal ==> (same <==> origin)
            &&& words && vagrant && origin && stale && proposal ==> (same <==> approved)
            &&& words && vagrant && origin && approved && proposal ==> (same <==> stale)
            &&& words && vagrant && origin && approved && stale ==> (same <==> proposal)
        }),
{
    let ps = claim_facts(g, a);
    let qs = claim_facts(h, b);
    lemma_words_apart();
    lemma_facts_tell(ps, qs, sep());
    assert(ps[0] == g && qs[0] == h);
    assert(ps[1] == read_as(a.title) && qs[1] == read_as(b.title));
    assert(ps[2] == a.statement && qs[2] == b.statement);
    assert(ps[3] == read_as(a.concern) && qs[3] == read_as(b.concern));
    assert(ps[4] == told_mark(a.vagrant) && qs[4] == told_mark(b.vagrant));
    assert(ps[5] == read_as(a.vagrant_origin) && qs[5] == read_as(b.vagrant_origin));
    assert(ps[6] == read_as(a.approved_statement) && qs[6] == read_as(b.approved_statement));
    assert(ps[7] == told_mark(a.stale) && qs[7] == told_mark(b.stale));
    assert(ps[8] == read_as(a.stale_proposal) && qs[8] == read_as(b.stale_proposal));
    assert(ps[9] == directive_lines(a.directives) && qs[9] == directive_lines(b.directives));
    assert(ps[10] == joined(a.cites, "\u{2}"@) && qs[10] == joined(b.cites, "\u{2}"@));
}

proof fn lemma_words_apart()
    ensures
        "true"@ != "false"@,
{
    reveal_strlit("true");
    reveal_strlit("false");
    assert("true"@.len() != "false"@.len());
}

// ---- outlines ---------------------------------------------------------------------------

/// The text that the fingerprint of an outline is taken of.
pub open spec fn outline_written(n: NodeView) -> Seq<char> {
    joined(outline_facts(n), sep())
}

/// A node's outline is a digest of what an overview shows. Of two nodes that differ in one of
/// these at most, the texts it is taken of are the same exactly where that one is: the name,
/// the kind, the parent, the description, how many claims and how many properties there are.
pub proof fn law_an_outline_covers_what_is_shown(a: NodeView, b: NodeView)
    ensures
        outline_print(a) == digest(outline_written(a)).take(8),
        ({
            let same = outline_written(a) == outline_written(b);
            let name = a.name == b.name;
            let kind = a.kind == b.kind;
            let parent = read_as(a.parent_id) == read_as(b.parent_id);
            let description = read_as(a.description) == read_as(b.description);
            let claims = a.responsibilities.len() == b.responsibilities.len();
            let properties = a.properties.len() == b.properties.len();
            &&& name && kind && parent && description && claims && properties ==> same
            &&& kind && parent && description && claims && properties ==> (same <==> name)
            &&& name && parent && description && claims && properties ==> (same <==> kind)
            &&& name && kind && description && claims && properties ==> (same <==> parent)
            &&& name && kind && parent && claims && properties ==> (same <==> description)
            &&& name && kind && parent && description && properties ==> (same <==> claims)
            &&& name && kind && parent && description && claims ==> (same <==> properties)
        }),
{
    let ps = outline_facts(a);
    let qs = outline_facts(b);
    lemma_facts_tell(ps, qs, sep());
    crate::signoff_laws::law_kinds_are_signed_apart(a.kind, b.kind);
    crate::rules::lemma_decimals_apart(a.responsibilities.len(), b.responsibilities.len());
    crate::rules::lemma_decimals_apart(a.properties.len(), b.properties.len());
    assert(ps[0] == a.name && qs[0] == b.name);
    assert(ps[1] == crate::signoff::kind_word(a.kind) && qs[1] == crate::signoff::kind_word(b.kind));
    assert(ps[2] == read_as(a.parent_id) && qs[2] == read_as(b.parent_id));
    assert(ps[3] == read_as(a.description) && qs[3] == read_as(b.description));
    assert(ps[4] == decimal(a.responsibilities.len()) && qs[4] == decimal(
        b.responsibilities.len(),
    ));
    assert(ps[5] == decimal(a.properties.len()) && qs[5] == decimal(b.properties.len()));
}

// ---- pending entries --------------------------------------------------------------------

/// The text that the fingerprint of a pending entry is taken of.
pub open spec fn pending_written(p: ScryModelView, e: ElementChangeView) -> Seq<char> {
    read_as(
        if p.change_map.contains_key(key_of(e)) {
            Some(p.change_map[key_of(e)])
        } else {
            None
        },
    ) + "\u{1}"@ + changes_json(e.changes)
}

/// A pending entry's fingerprint is a digest of the change it is filed under and of what is
/// planned. Of two entries filed alike, with lists of changes that differ in one at most, the
/// texts are the same exactly where that one reads the same; filed under other changes the same
/// entry gives another text.
pub proof fn law_a_pending_print_covers_the_plan(
    p: ScryModelView,
    q: ScryModelView,
    e: ElementChangeView,
    f: ElementChangeView,
    k: int,
)
    requires
        e.changes.len() == f.changes.len(),
        0 <= k < e.changes.len(),
        forall|i: int| 0 <= i < e.changes.len() && i != k ==> e.changes[i] == f.changes[i],
    ensures
        pending_print(p, e) == digest(pending_written(p, e)).take(8),
        ({
            let same = pending_written(p, e) == pending_written(q, f);
            let filed_e = if p.change_map.contains_key(key_of(e)) {
                Some(p.change_map[key_of(e)])
            } else {
                None
            };
            let filed_f = if q.change_map.contains_key(key_of(f)) {
                Some(q.change_map[key_of(f)])
            } else {
                None
            };
            &&& read_as(filed_e) == read_as(filed_f) ==> (same <==> change_json(e.changes[k])
                == change_json(f.changes[k]))
            &&& e.changes[k] == f.changes[k] ==> (same <==> read_as(filed_e) == read_as(filed_f))
        }),
{
    let ps = crate::basis::change_texts(e.changes);
    let qs = crate::basis::change_texts(f.changes);
    law_a_join_tells_each_part(ps, qs, ","@, k);
    let (s, t) = (joined(ps, ","@), joined(qs, ","@));
    lemma_between("["@, s, t, "]"@);
    let filed_e = if p.change_map.contains_key(key_of(e)) {
        Some(p.change_map[key_of(e)])
    } else {
        None
    };
    let filed_f = if q.change_map.contains_key(key_of(f)) {
        Some(q.change_map[key_of(f)])
    } else {
        None
    };
    let (x, y) = (read_as(filed_e), read_as(filed_f));
    let (u, v) = (changes_json(e.changes), changes_json(f.changes));
    let none = Seq::<char>::empty();
    if x == y {
        lemma_between(x + "\u{1}"@, u, v, none);
        assert(pending_written(p, e) =~= (x + "\u{1}"@) + u + none);
        assert(pending_written(q, f) =~= (x + "\u{1}"@) + v + none);
    }
    if e.changes[k] == f.changes[k] {
        assert(e.changes =~= f.changes);
        lemma_between(none, x, y, "\u{1}"@ + u);
        assert(pending_written(p, e) =~= none + x + ("\u{1}"@ + u));
        assert(pending_written(q, f) =~= none + y + ("\u{1}"@ + u));
    }
}

proof fn lemma_field_told(a: Seq<char>, b: Seq<char>, x: Seq<char>, y: Seq<char>, z: Seq<char>)
    requires
        a != b,
    ensures
        change_json(ChangeView::Reworded { field: a, from: x, to: y }) != change_json(ChangeView::Reworded { field: b, from: x, to: y }),
{
    lemma_texts_apart(a, b);
    let (s, t) = (json_text(a), json_text(b));
    let (u, v, w) = (json_text(x), json_text(y), json_text(z));
    let p = "{\"type\":\"reworded\",\"field\":"@;
    let q = ",\"from\":"@ + u + ",\"to\":"@ + v + "}"@;
    lemma_between(p, s, t, q);
    assert(change_json(ChangeView::Reworded { field: a, from: x, to: y }) =~= p + s + q);
    assert(change_json(ChangeView::Reworded { field: b, from: x, to: y }) =~= p + t + q);
}

proof fn lemma_from_told(a: Seq<char>, b: Seq<char>, x: Seq<char>, y: Seq<char>, z: Seq<char>)
    requires
        a != b,
    ensures
        change_json(ChangeView::Reworded { field: x, from: a, to: y }) != change_json(ChangeView::Reworded { field: x, from: b, to: y }),
{
    lemma_texts_apart(a, b);
    let (s, t) = (json_text(a), json_text(b));
    let (u, v, w) = (json_text(x), json_text(y), json_text(z));
    let p = "{\"type\":\"reworded\",\"field\":"@ + u + ",\"from\":"@;
    let q = ",\"to\":"@ + v + "}"@;
    lemma_between(p, s, t, q);
    assert(change_json(ChangeView::Reworded { field: x, from: a, to: y }) =~= p + s + q);
    assert(change_json(ChangeView::Reworded { field: x, from: b, to: y }) =~= p + t + q);
}

proof fn lemma_to_told(a: Seq<char>, b: Seq<char>, x: Seq<char>, y: Seq<char>, z: Seq<char>)
    requires
        a != b,
    ensures
        change_json(ChangeView::Reworded { field: x, from: y, to: a }) != change_json(ChangeView::Reworded { field: x, from: y, to: b }),
{
    lemma_texts_apart(a, b);
    let (s, t) = (json_text(a), json_text(b));
    let (u, v, w) = (json_text(x), json_text(y), json_text(z));
    let p = "{\"type\":\"reworded\",\"field\":"@ + u + ",\"from\":"@ + v + ",\"to\":"@;
    let q = "}"@;
    lemma_between(p, s, t, q);
    assert(change_json(ChangeView::Reworded { field: x, from: y, to: a }) =~= p + s + q);
    assert(change_json(ChangeView::Reworded { field: x, from: y, to: b }) =~= p + t + q);
}

proof fn lemma_moved_from_told(a: Seq<char>, b: Seq<char>, x: Seq<char>, y: Seq<char>, z: Seq<char>)
    requires
        a != b,
    ensures
        change_json(ChangeView::Moved { from: Some(a), to: Some(x) }) != change_json(ChangeView::Moved { from: Some(b), to: Some(x) }),
{
    lemma_texts_apart(a, b);
    let (s, t) = (json_text(a), json_text(b));
    let (u, v, w) = (json_text(x), json_text(y), json_text(z));
    let p = "{\"type\":\"moved\",\"from\":"@;
    let q = ",\"to\":"@ + u + "}"@;
    lemma_between(p, s, t, q);
    assert(change_json(ChangeView::Moved { from: Some(a), to: Some(x) }) =~= p + s + q);
    assert(change_json(ChangeView::Moved { from: Some(b), to: Some(x) }) =~= p + t + q);
}

proof fn lemma_moved_to_told(a: Seq<char>, b: Seq<char>, x: Seq<char>, y: Seq<char>, z: Seq<char>)
    requires
        a != b,
    ensures
        change_json(ChangeView::Moved { from: Some(x), to: Some(a) }) != change_json(ChangeView::Moved { from: Some(x), to: Some(b) }),
{
    lemma_texts_apart(a, b);
    let (s, t) = (json_text(a), json_text(b));
    let (u, v, w) = (json_text(x), json_text(y), json_text(z));
    let p = "{\"type\":\"moved\",\"from\":"@ + u + ",\"to\":"@;
    let q = "}"@;
    lemma_between(p, s, t, q);
    assert(change_json(ChangeView::Moved { from: Some(x), to: Some(a) }) =~= p + s + q);
    assert(change_json(ChangeView::Moved { from: Some(x), to: Some(b) }) =~= p + t + q);
}

proof fn lemma_src_from_told(a: Seq<char>, b: Seq<char>, x: Seq<char>, y: Seq<char>, z: Seq<char>)
    requires
        a != b,
    ensures
        change_json(ChangeView::Repointed { src_from: a, src_to: x, dst_from: y, dst_to: z }) != change_json(ChangeView::Repointed { src_from: b, src_to: x, dst_from: y, dst_to: z }),
{
    lemma_texts_apart(a, b);
    let (s, t) = (json_text(a), json_text(b));
    let (u, v, w) = (json_text(x), json_text(y), json_text(z));
    let p = "{\"type\":\"repointed\",\"srcFrom\":"@;
    let q = ",\"srcTo\":"@ + u + ",\"dstFrom\":"@ + v + ",\"dstTo\":"@ + w + "}"@;
    lemma_between(p, s, t, q);
    assert(change_json(ChangeView::Repointed { src_from: a, src_to: x, dst_from: y, dst_to: z }) =~= p + s + q);
    assert(change_json(ChangeView::Repointed { src_from: b, src_to: x, dst_from: y, dst_to: z }) =~= p + t + q);
}

proof fn lemma_src_to_told(a: Seq<char>, b: Seq<char>, x: Seq<char>, y: Seq<char>, z: Seq<char>)
    requires
        a != b,
    ensures
        change_json(ChangeView::Repointed { src_from: x, src_to: a, dst_from: y, dst_to: z }) != change_json(ChangeView::Repointed { src_from: x, src_to: b, dst_from: y, dst_to: z }),
{
    lemma_texts_apart(a, b);
    let (s, t) = (json_text(a), json_text(b));
    let (u, v, w) = (json_text(x), json_text(y), json_text(z));
    let p = "{\"type\":\"repointed\",\"srcFrom\":"@ + u + ",\"srcTo\":"@;
    let q = ",\"dstFrom\":"@ + v + ",\"dstTo\":"@ + w + "}"@;
    lemma_between(p, s, t, q);
    assert(change_json(ChangeView::Repointed { src_from: x, src_to: a, dst_from: y, dst_to: z }) =~= p + s + q);
    assert(change_json(ChangeView::Repointed { src_from: x, src_to: b, dst_from: y, dst_to: z }) =~= p + t + q);
}

proof fn lemma_dst_from_told(a: Seq<char>, b: Seq<char>, x: Seq<char>, y: Seq<char>, z: Seq<char>)
    requires
        a != b,
    ensures
        change_json(ChangeView::Repointed { src_from: x, src_to: y, dst_from: a, dst_to: z }) != change_json(ChangeView::Repointed { src_from: x, src_to: y, dst_from: b, dst_to: z }),
{
    lemma_texts_apart(a, b);
    let (s, t) = (json_text(a), json_text(b));
    let (u, v, w) = (json_text(x), json_text(y), json_text(z));
    let p = "{\"type\":\"repointed\",\"srcFrom\":"@ + u + ",\"srcTo\":"@ + v + ",\"dstFrom\":"@;
    let q = ",\"dstTo\":"@ + w + "}"@;
    lemma_between(p, s, t, q);
    assert(change_json(ChangeView::Repointed { src_from: x, src_to: y, dst_from: a, dst_to: z }) =~= p + s + q);
    assert(change_json(ChangeView::Repointed { src_from: x, src_to: y, dst_from: b, dst_to: z }) =~= p + t + q);
}

proof fn lemma_dst_to_told(a: Seq<char>, b: Seq<char>, x: Seq<char>, y: Seq<char>, z: Seq<char>)
    requires
        a != b,
    ensures
        change_json(ChangeView::Repointed { src_from: x, src_to: y, dst_from: z, dst_to: a }) != change_json(ChangeView::Repointed { src_from: x, src_to: y, dst_from: z, dst_to: b }),
{
    lemma_texts_apart(a, b);
    let (s, t) = (json_text(a), json_text(b));
    let (u, v, w) = (json_text(x), json_text(y), json_text(z));
    let p = "{\"type\":\"repointed\",\"srcFrom\":"@ + u + ",\"srcTo\":"@ + v + ",\"dstFrom\":"@ + w + ",\"dstTo\":"@;
    let q = "}"@;
    lemma_between(p, s, t, q);
    assert(change_json(ChangeView::Repointed { src_from: x, src_to: y, dst_from: z, dst_to: a }) =~= p + s + q);
    assert(change_json(ChangeView::Repointed { src_from: x, src_to: y, dst_from: z, dst_to: b }) =~= p + t + q);
}

/// What a change says, its text says: a rewording with another field or other texts, a move
/// between other owners, other ends of a link read differently, one difference at a time.
pub proof fn law_changes_read_as_they_are(
    a: Seq<char>,
    b: Seq<char>,
    x: Seq<char>,
    y: Seq<char>,
    z: Seq<char>,
)
    requires
        a != b,
    ensures
        ({
            &&& change_json(
                ChangeView::Reworded { field: a, from: x, to: y },
            ) != change_json(ChangeView::Reworded { field: b, from: x, to: y })
            &&& change_json(
                ChangeView::Reworded { field: x, from: a, to: y },
            ) != change_json(ChangeView::Reworded { field: x, from: b, to: y })
            &&& change_json(
                ChangeView::Reworded { field: x, from: y, to: a },
            ) != change_json(ChangeView::Reworded { field: x, from: y, to: b })
            &&& change_json(
                ChangeView::Moved { from: Some(a), to: Some(x) },
            ) != change_json(ChangeView::Moved { from: Some(b), to: Some(x) })
            &&& change_json(
                ChangeView::Moved { from: Some(x), to: Some(a) },
            ) != change_json(ChangeView::Moved { from: Some(x), to: Some(b) })
            &&& change_json(
                ChangeView::Repointed { src_from: a, src_to: x, dst_from: y, dst_to: z },
            ) != change_json(ChangeView::Repointed { src_from: b, src_to: x, dst_from: y, dst_to: z })
            &&& change_json(
                ChangeView::Repointed { src_from: x, src_to: a, dst_from: y, dst_to: z },
            ) != change_json(ChangeView::Repointed { src_from: x, src_to: b, dst_from: y, dst_to: z })
            &&& change_json(
                ChangeView::Repointed { src_from: x, src_to: y, dst_from: a, dst_to: z },
            ) != change_json(ChangeView::Repointed { src_from: x, src_to: y, dst_from: b, dst_to: z })
            &&& change_json(
                ChangeView::Repointed { src_from: x, src_to: y, dst_from: z, dst_to: a },
            ) != change_json(ChangeView::Repointed { src_from: x, src_to: y, dst_from: z, dst_to: b })
        }),
{
    lemma_field_told(a, b, x, y, z);
    lemma_from_told(a, b, x, y, z);
    lemma_to_told(a, b, x, y, z);
    lemma_moved_from_told(a, b, x, y, z);
    lemma_moved_to_told(a, b, x, y, z);
    lemma_src_from_told(a, b, x, y, z);
    lemma_src_to_told(a, b, x, y, z);
    lemma_dst_from_told(a, b, x, y, z);
    lemma_dst_to_told(a, b, x, y, z);
}

// ---- binding directives -----------------------------------------------------------------

/// A node's binding directives are a digest of those of both layers: where one layer's read
/// the same, the whole is the same exactly where the other's do.
pub proof fn law_both_layers_bind(
    c: ScryModelView,
    p: ScryModelView,
    d: ScryModelView,
    q: ScryModelView,
    id: Seq<char>,
)
    ensures
        directive_print(c, p, id) == digest(binding_text(c, id) + binding_text(p, id)).take(8),
        binding_text(c, id) == binding_text(d, id) ==> (binding_text(c, id) + binding_text(p, id)
            == binding_text(d, id) + binding_text(q, id) <==> binding_text(p, id) == binding_text(
            q,
            id,
        )),
        binding_text(p, id) == binding_text(q, id) ==> (binding_text(c, id) + binding_text(p, id)
            == binding_text(d, id) + binding_text(q, id) <==> binding_text(c, id) == binding_text(
            d,
            id,
        )),
{
    let none = Seq::<char>::empty();
    let (a, b, e, f) = (
        binding_text(c, id),
        binding_text(p, id),
        binding_text(d, id),
        binding_text(q, id),
    );
    lemma_between(a, b, f, none);
    assert(a + b + none =~= a + b);
    assert(a + f + none =~= a + f);
    lemma_between(none, a, e, b);
    assert(none + a + b =~= a + b);
    assert(none + e + b =~= e + b);
}

/// A node is bound by its own directives and by those that every node above it has, each as
/// it reads: of two models with the same ancestry of a node, in which the directives of one of
/// them at most differ, the texts are the same exactly where those read the same.
pub proof fn law_own_directives_bind(
    m: ScryModelView,
    w: ScryModelView,
    i: int,
    j: int,
)
    requires
        crate::commit_laws::is_first_node(m.nodes, i),
        crate::commit_laws::is_first_node(w.nodes, j),
        m.nodes[i].id == w.nodes[j].id,
        crate::model::ancestors(m.nodes, m.nodes[i].id) == crate::model::ancestors(
            w.nodes,
            w.nodes[j].id,
        ),
    ensures
        binding_text(m, m.nodes[i].id) == binding_text(w, m.nodes[i].id) <==> directive_lines(
            m.nodes[i].directives,
        ) == directive_lines(w.nodes[j].directives),
{
    crate::commit_laws::lemma_first_node(m.nodes, i);
    crate::commit_laws::lemma_first_node(w.nodes, j);
    let id = m.nodes[i].id;
    let up = inherited_text(
        crate::model::all_handed_down(crate::model::ancestors(m.nodes, id)),
    );
    let none = Seq::<char>::empty();
    let (a, b) = (directive_lines(m.nodes[i].directives), directive_lines(w.nodes[j].directives));
    lemma_between(none, a, b, sep() + up);
    assert(binding_text(m, id) =~= none + a + (sep() + up));
    assert(binding_text(w, id) =~= none + b + (sep() + up));
}

} // verus!
