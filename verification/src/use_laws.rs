//! What is reported as a use of a term.

use crate::bytes::{byte_len, offset};
use crate::model::{
    last_node, DirectiveView, GroupView, NodeView, ResponsibilityView, SchemaPropertyView,
    ScryModelView,
};
use crate::occurrences::{
    as_found, backwards, ceil_from, claim_prose_of, directive_prose_of, group_place, group_prose_of,
    in_all_groups, in_all_nodes, in_claims, in_description, in_directives, in_group, in_layer,
    in_layers, in_node, in_properties, is_word, lowered_chars, names_up, node_prose_of, occurrences,
    origins, place_named, property_prose_of, prose, sentence_end, sentence_of, sentence_start,
    used_at, uses, uses_before, uses_in, words_in, OccurrenceView,
};
use crate::text::{decimal, joined, trimmed};
use vstd::prelude::*;
use vstd::string::*;

verus! {

// ---- where a term is used ---------------------------------------------------------------

proof fn lemma_use_from(
    low: Seq<char>,
    words: Seq<bool>,
    org: Seq<int>,
    needle: Seq<char>,
    whole: bool,
    p: int,
    at: int,
) -> (q: int)
    requires
        uses_before(low, words, org, needle, whole, p).contains(at),
    ensures
        0 <= q < p,
        used_at(low, words, needle, whole, q),
        org[q] == at,
    decreases p,
{
    let all = uses_before(low, words, org, needle, whole, p);
    if p <= 0 {
        assert(false);
        0
    } else {
        let earlier = uses_before(low, words, org, needle, whole, p - 1);
        let i = choose|i: int| 0 <= i < all.len() && all[i] == at;
        if i < earlier.len() {
            assert(earlier[i] == at);
            lemma_use_from(low, words, org, needle, whole, p - 1, at)
        } else {
            p - 1
        }
    }
}

/// Where a use is reported the text reads so, in whatever case: at a place of its lower case that
/// stems from there. Where whole words are asked for, no character of a word stands right before
/// or right behind it.
pub proof fn law_a_use_reads_so(s: Seq<char>, needle: Seq<char>, whole: bool, at: int) -> (q: int)
    requires
        uses(s, needle, whole).contains(at),
    ensures
        0 <= q,
        q + needle.len() <= lowered_chars(s).len(),
        lowered_chars(s).subrange(q, q + needle.len()) == needle,
        origins(s)[q] == at,
        whole && q > 0 ==> !is_word(lowered_chars(s)[q - 1]),
        whole && q + needle.len() < lowered_chars(s).len() ==> !is_word(
            lowered_chars(s)[q + needle.len()],
        ),
{
    let low = lowered_chars(s);
    lemma_use_from(low, words_in(low), origins(s), needle, whole, low.len() as int, at)
}

// ---- sentences --------------------------------------------------------------------------

/// Does a sentence end behind the character: at a new line, or at one of `.`, `!` and `?` before
/// white space or the end of the text?
pub open spec fn ends_sentence(s: Seq<char>, i: int) -> bool {
    ||| s[i] == '\n'
    ||| (s[i] == '.' || s[i] == '!' || s[i] == '?') && (i + 1 >= s.len() || s[i + 1] == ' ' || s[i
        + 1] == '\t' || s[i + 1] == '\n' || s[i + 1] == '\r' || s[i + 1] == '\x0c')
}

/// A sentence begins right behind the last character before it that ends one, or with the text.
pub proof fn law_where_a_sentence_begins(s: Seq<char>, at: int)
    requires
        0 <= at <= s.len(),
    ensures
        0 <= sentence_start(s, at) <= at,
        sentence_start(s, at) > 0 ==> ends_sentence(s, sentence_start(s, at) - 1),
        forall|k: int| sentence_start(s, at) <= k < at ==> !#[trigger] ends_sentence(s, k),
    decreases at,
{
    if at > 0 && !ends_sentence(s, at - 1) {
        law_where_a_sentence_begins(s, at - 1);
    }
}

/// A sentence ends at the next character that ends one, before a new line and behind a mark, or
/// with the text.
pub proof fn law_where_a_sentence_ends(s: Seq<char>, at: int)
    requires
        0 <= at <= s.len(),
    ensures
        at <= sentence_end(s, at) <= s.len(),
        ({
            let e = sentence_end(s, at);
            ||| e == s.len() && forall|k: int| at <= k < e ==> !#[trigger] ends_sentence(s, k)
            ||| s[e] == '\n' && forall|k: int| at <= k < e ==> !#[trigger] ends_sentence(s, k)
            ||| e > at && s[e - 1] != '\n' && ends_sentence(s, e - 1) && forall|k: int|
                at <= k < e - 1 ==> !#[trigger] ends_sentence(s, k)
        }),
    decreases s.len() - at,
{
    if at < s.len() && !ends_sentence(s, at) {
        law_where_a_sentence_ends(s, at + 1);
        let e = sentence_end(s, at);
        assert(e == sentence_end(s, at + 1));
    }
}

// ---- nothing else is reported -----------------------------------------------------------

proof fn lemma_either(a: Seq<OccurrenceView>, b: Seq<OccurrenceView>, o: OccurrenceView)
    ensures
        (a + b).contains(o) ==> a.contains(o) || b.contains(o),
{
    let s = a + b;
    if s.contains(o) {
        let i = choose|i: int| 0 <= i < s.len() && s[i] == o;
        if i < a.len() {
            assert(a[i] == o);
        } else {
            assert(b[i - a.len()] == o);
        }
    }
}

proof fn lemma_of_directives(
    ds: Seq<DirectiveView>,
    needle: Seq<char>,
    whole: bool,
    layer: Seq<char>,
    id: Seq<char>,
    host: Option<Seq<char>>,
    path: Option<Seq<char>>,
    o: OccurrenceView,
) -> (r: (Seq<char>, OccurrenceView))
    requires
        in_directives(ds, needle, whole, layer, id, host, path).contains(o),
    ensures
        directive_prose_of(ds, layer, id, host, path, r.0, r.1),
        uses_in(r.0, needle, whole, r.1).contains(o),
    decreases ds.len(),
{
    if ds.len() == 0 {
        assert(false);
        (Seq::empty(), o)
    } else {
        let d = ds.drop_last();
        let text = ds.last().text;
        let like = as_found("directive"@, layer, id, host, path, "directive "@ + decimal(ds.len()));
        let a = in_directives(d, needle, whole, layer, id, host, path);
        lemma_either(a, uses_in(text, needle, whole, like), o);
        if a.contains(o) {
            let r = lemma_of_directives(d, needle, whole, layer, id, host, path, o);
            let j = choose|j: int|
                0 <= j < d.len() && (#[trigger] d[j]).text == r.0 && r.1 == as_found(
                    "directive"@,
                    layer,
                    id,
                    host,
                    path,
                    "directive "@ + decimal((j + 1) as nat),
                );
            assert(ds[j] == d[j]);
            r
        } else {
            let j = ds.len() - 1;
            assert(ds[j].text == text);
            (text, like)
        }
    }
}

proof fn lemma_of_properties(
    ps: Seq<SchemaPropertyView>,
    needle: Seq<char>,
    whole: bool,
    layer: Seq<char>,
    owner: Seq<char>,
    path: Option<Seq<char>>,
    o: OccurrenceView,
) -> (r: (Seq<char>, OccurrenceView))
    requires
        in_properties(ps, needle, whole, layer, owner, path).contains(o),
    ensures
        property_prose_of(ps, layer, owner, path, r.0, r.1),
        uses_in(r.0, needle, whole, r.1).contains(o),
    decreases ps.len(),
{
    if ps.len() == 0 {
        assert(false);
        (Seq::empty(), o)
    } else {
        let d = ps.drop_last();
        let text = ps.last().description;
        let like = as_found(
            "description"@,
            layer,
            owner + ":"@ + ps.last().label,
            Some(owner),
            path,
            "description"@,
        );
        let a = in_properties(d, needle, whole, layer, owner, path);
        lemma_either(a, uses_in(text, needle, whole, like), o);
        if a.contains(o) {
            let r = lemma_of_properties(d, needle, whole, layer, owner, path, o);
            let j = choose|j: int|
                0 <= j < d.len() && (#[trigger] d[j]).description == r.0 && r.1 == as_found(
                    "description"@,
                    layer,
                    owner + ":"@ + d[j].label,
                    Some(owner),
                    path,
                    "description"@,
                );
            assert(ps[j] == d[j]);
            r
        } else {
            let j = ps.len() - 1;
            assert(ps[j].description == text);
            (text, like)
        }
    }
}

proof fn lemma_of_claims(
    rs: Seq<ResponsibilityView>,
    needle: Seq<char>,
    whole: bool,
    layer: Seq<char>,
    host: Seq<char>,
    path: Option<Seq<char>>,
    o: OccurrenceView,
) -> (r: (Seq<char>, OccurrenceView))
    requires
        in_claims(rs, needle, whole, layer, host, path).contains(o),
    ensures
        claim_prose_of(rs, layer, host, path, r.0, r.1),
        uses_in(r.0, needle, whole, r.1).contains(o),
    decreases rs.len(),
{
    if rs.len() == 0 {
        assert(false);
        (Seq::empty(), o)
    } else {
        let d = rs.drop_last();
        let c = rs.last();
        let like = as_found("claim"@, layer, c.id, Some(host), path, "statement"@);
        let a = in_claims(d, needle, whole, layer, host, path);
        let b = uses_in(c.statement, needle, whole, like);
        let e = in_directives(c.directives, needle, whole, layer, c.id, Some(host), path);
        lemma_either(a + b, e, o);
        lemma_either(a, b, o);
        let n = rs.len() - 1;
        assert(rs[n] == c);
        if a.contains(o) {
            let r = lemma_of_claims(d, needle, whole, layer, host, path, o);
            let j = choose|j: int|
                0 <= j < d.len() && ((#[trigger] d[j]).statement == r.0 && r.1 == as_found(
                    "claim"@,
                    layer,
                    d[j].id,
                    Some(host),
                    path,
                    "statement"@,
                ) || directive_prose_of(
                    d[j].directives,
                    layer,
                    d[j].id,
                    Some(host),
                    path,
                    r.0,
                    r.1,
                ));
            assert(rs[j] == d[j]);
            r
        } else if b.contains(o) {
            assert(rs[n].statement == c.statement);
            (c.statement, like)
        } else {
            let r = lemma_of_directives(
                c.directives,
                needle,
                whole,
                layer,
                c.id,
                Some(host),
                path,
                o,
            );
            assert(directive_prose_of(
                rs[n].directives,
                layer,
                rs[n].id,
                Some(host),
                path,
                r.0,
                r.1,
            ));
            r
        }
    }
}

proof fn lemma_of_node(
    n: NodeView,
    needle: Seq<char>,
    whole: bool,
    layer: Seq<char>,
    path: Option<Seq<char>>,
    o: OccurrenceView,
) -> (r: (Seq<char>, OccurrenceView))
    requires
        in_node(n, needle, whole, layer, path).contains(o),
    ensures
        node_prose_of(n, layer, path, r.0, r.1),
        uses_in(r.0, needle, whole, r.1).contains(o),
{
    let a = in_description(n.description, needle, whole, layer, n.id, path);
    let b = in_directives(n.directives, needle, whole, layer, n.id, None, path);
    let c = in_properties(n.properties, needle, whole, layer, n.id, path);
    let d = in_claims(n.responsibilities, needle, whole, layer, n.id, path);
    lemma_either(a + b + c, d, o);
    lemma_either(a + b, c, o);
    lemma_either(a, b, o);
    if a.contains(o) {
        (
            n.description->0,
            as_found("description"@, layer, n.id, None, path, "description"@),
        )
    } else if b.contains(o) {
        lemma_of_directives(n.directives, needle, whole, layer, n.id, None, path, o)
    } else if c.contains(o) {
        lemma_of_properties(n.properties, needle, whole, layer, n.id, path, o)
    } else {
        lemma_of_claims(n.responsibilities, needle, whole, layer, n.id, path, o)
    }
}

proof fn lemma_of_group(
    g: GroupView,
    needle: Seq<char>,
    whole: bool,
    layer: Seq<char>,
    path: Option<Seq<char>>,
    o: OccurrenceView,
) -> (r: (Seq<char>, OccurrenceView))
    requires
        in_group(g, needle, whole, layer, path).contains(o),
    ensures
        group_prose_of(g, layer, path, r.0, r.1),
        uses_in(r.0, needle, whole, r.1).contains(o),
{
    let a = in_description(g.description, needle, whole, layer, g.id, path);
    let d = in_claims(g.responsibilities, needle, whole, layer, g.id, path);
    lemma_either(a, d, o);
    if a.contains(o) {
        (
            g.description->0,
            as_found("description"@, layer, g.id, None, path, "description"@),
        )
    } else {
        lemma_of_claims(g.responsibilities, needle, whole, layer, g.id, path, o)
    }
}

proof fn lemma_of_nodes(
    all: Seq<NodeView>,
    ns: Seq<NodeView>,
    needle: Seq<char>,
    whole: bool,
    layer: Seq<char>,
    o: OccurrenceView,
) -> (i: int)
    requires
        in_all_nodes(all, ns, needle, whole, layer).contains(o),
    ensures
        0 <= i < ns.len(),
        in_node(ns[i], needle, whole, layer, place_named(all, ns[i].id)).contains(o),
    decreases ns.len(),
{
    if ns.len() == 0 {
        assert(false);
        0
    } else {
        let d = ns.drop_last();
        let a = in_all_nodes(all, d, needle, whole, layer);
        let b = in_node(ns.last(), needle, whole, layer, place_named(all, ns.last().id));
        lemma_either(a, b, o);
        if a.contains(o) {
            lemma_of_nodes(all, d, needle, whole, layer, o)
        } else {
            ns.len() - 1
        }
    }
}

proof fn lemma_of_groups(
    all: Seq<NodeView>,
    gs: Seq<GroupView>,
    needle: Seq<char>,
    whole: bool,
    layer: Seq<char>,
    o: OccurrenceView,
) -> (i: int)
    requires
        in_all_groups(all, gs, needle, whole, layer).contains(o),
    ensures
        0 <= i < gs.len(),
        in_group(gs[i], needle, whole, layer, group_place(all, gs[i])).contains(o),
    decreases gs.len(),
{
    if gs.len() == 0 {
        assert(false);
        0
    } else {
        let d = gs.drop_last();
        let a = in_all_groups(all, d, needle, whole, layer);
        let b = in_group(gs.last(), needle, whole, layer, group_place(all, gs.last()));
        lemma_either(a, b, o);
        if a.contains(o) {
            lemma_of_groups(all, d, needle, whole, layer, o)
        } else {
            gs.len() - 1
        }
    }
}

proof fn lemma_of_layers(
    layers: Seq<(Seq<char>, ScryModelView)>,
    needle: Seq<char>,
    whole: bool,
    o: OccurrenceView,
) -> (l: int)
    requires
        in_layers(layers, needle, whole).contains(o),
    ensures
        0 <= l < layers.len(),
        in_layer(layers[l].0, layers[l].1, needle, whole).contains(o),
    decreases layers.len(),
{
    if layers.len() == 0 {
        assert(false);
        0
    } else {
        let d = layers.drop_last();
        let (name, m) = layers.last();
        let a = in_layers(d, needle, whole);
        lemma_either(a, in_layer(name, m, needle, whole), o);
        if a.contains(o) {
            lemma_of_layers(d, needle, whole, o)
        } else {
            layers.len() - 1
        }
    }
}

/// Everything that is reported is a use: in a text of the prose of one of the layers, told by its
/// layer, its element and its field, the term stands where the text reads so.
pub proof fn law_everything_reported_is_a_use(
    layers: Seq<(Seq<char>, ScryModelView)>,
    term: Seq<char>,
    whole: bool,
    o: OccurrenceView,
) -> (r: (int, Seq<char>, OccurrenceView, int))
    requires
        occurrences(layers, term, whole).contains(o),
    ensures
        0 <= r.0 < layers.len(),
        prose(layers[r.0].0, layers[r.0].1, r.1, r.2),
        o == (OccurrenceView { sentence: o.sentence, ..r.2 }),
        uses(r.1, lowered_chars(trimmed(term)), whole).contains(r.3),
        o.sentence == sentence_of(r.1, r.3, byte_len(lowered_chars(trimmed(term)))),
{
    let needle = lowered_chars(trimmed(term));
    let l = lemma_of_layers(layers, needle, whole, o);
    let (layer, m) = layers[l];
    reveal(in_layer);
    let a = in_all_nodes(m.nodes, m.nodes, needle, whole, layer);
    let b = in_all_groups(m.nodes, m.groups, needle, whole, layer);
    lemma_either(a, b, o);
    let r = if a.contains(o) {
        let i = lemma_of_nodes(m.nodes, m.nodes, needle, whole, layer, o);
        let path = place_named(m.nodes, m.nodes[i].id);
        let r = lemma_of_node(m.nodes[i], needle, whole, layer, path, o);
        assert(node_prose_of(m.nodes[i], layer, path, r.0, r.1));
        r
    } else {
        let i = lemma_of_groups(m.nodes, m.groups, needle, whole, layer, o);
        let path = group_place(m.nodes, m.groups[i]);
        let r = lemma_of_group(m.groups[i], needle, whole, layer, path, o);
        assert(group_prose_of(m.groups[i], layer, path, r.0, r.1));
        r
    };
    let found = uses_in(r.0, needle, whole, r.1);
    let us = uses(r.0, needle, whole);
    let k = choose|k: int| 0 <= k < found.len() && found[k] == o;
    assert(us.contains(us[k]));
    (l, r.0, r.1, us[k])
}

/// How a use is told: by what kind of text it is in, in which layer, by the id of the element and
/// that of its host, by the field, and by where its node is.
pub proof fn law_a_use_is_told_by_its_place(
    kind: Seq<char>,
    layer: Seq<char>,
    id: Seq<char>,
    host: Option<Seq<char>>,
    path: Option<Seq<char>>,
    field: Seq<char>,
)
    ensures
        ({
            let o = as_found(kind, layer, id, host, path, field);
            &&& o.kind == kind
            &&& o.layer == layer
            &&& o.id == id
            &&& o.host_id == host
            &&& o.path == path
            &&& o.field == field
        }),
{
}

/// A node's place is told by the names of the nodes above it, from the top down, and its own.
pub proof fn law_a_place_is_told_from_the_top(ns: Seq<NodeView>, id: Seq<char>)
    requires
        last_node(ns, id) is Some,
    ensures
        place_named(ns, id) is Some,
        ({
            let n = last_node(ns, id)->0;
            n.parent_id is None || last_node(ns, n.parent_id->0) is None ==> place_named(ns, id)
                == Some(n.name)
        }),
        ({
            let n = last_node(ns, id)->0;
            n.parent_id is Some && last_node(ns, n.parent_id->0) is Some ==> ({
                let p = last_node(ns, n.parent_id->0)->0;
                p.parent_id is None || last_node(ns, p.parent_id->0) is None ==> place_named(ns, id)
                    == Some(p.name + " / "@ + n.name)
            })
        }),
{
    reveal_with_fuel(names_up, 4);
    let n = last_node(ns, id)->0;
    let ups = names_up(ns, Some(id), 65);
    let back = backwards(ups);
    if n.parent_id is None || last_node(ns, n.parent_id->0) is None {
        assert(ups =~= seq![n.name]);
        assert(back =~= seq![n.name]);
        assert(joined(back, " / "@) == n.name);
    } else {
        let p = last_node(ns, n.parent_id->0)->0;
        if p.parent_id is None || last_node(ns, p.parent_id->0) is None {
            assert(ups =~= seq![n.name, p.name]);
            assert(back =~= seq![p.name, n.name]);
            assert(back.drop_last() =~= seq![p.name]);
            assert(joined(back.drop_last(), " / "@) == p.name);
            assert(joined(back, " / "@) == p.name + " / "@ + n.name);
        }
    }
}

// ---- what is searched -------------------------------------------------------------------

/// What is told of a use beside its sentence.
pub open spec fn told_at(
    kind: Seq<char>,
    layer: Seq<char>,
    id: Seq<char>,
    host: Option<Seq<char>>,
    path: Option<Seq<char>>,
    field: Seq<char>,
) -> OccurrenceView {
    OccurrenceView { kind, layer, id, host_id: host, path, field, sentence: Seq::empty() }
}

proof fn lemma_directive_is_prose(
    ds: Seq<DirectiveView>,
    layer: Seq<char>,
    id: Seq<char>,
    host: Option<Seq<char>>,
    path: Option<Seq<char>>,
    j: int,
)
    requires
        0 <= j < ds.len(),
    ensures
        directive_prose_of(
            ds,
            layer,
            id,
            host,
            path,
            ds[j].text,
            told_at("directive"@, layer, id, host, path, "directive "@ + decimal((j + 1) as nat)),
        ),
{
    assert(ds[j].text == ds[j].text);
}

/// Everything that a node says is searched: its description, its directives by their numbers, the
/// descriptions of its properties, and the statements and directives of its claims.
pub proof fn law_what_a_node_says_is_searched(
    layer: Seq<char>,
    m: ScryModelView,
    i: int,
    j: int,
    k: int,
)
    requires
        0 <= i < m.nodes.len(),
    ensures
        ({
            let n = m.nodes[i];
            let path = place_named(m.nodes, n.id);
            &&& n.description is Some ==> prose(
                layer,
                m,
                n.description->0,
                told_at("description"@, layer, n.id, None, path, "description"@),
            )
            &&& 0 <= j < n.directives.len() ==> prose(
                layer,
                m,
                n.directives[j].text,
                told_at(
                    "directive"@,
                    layer,
                    n.id,
                    None,
                    path,
                    "directive "@ + decimal((j + 1) as nat),
                ),
            )
            &&& 0 <= j < n.properties.len() ==> prose(
                layer,
                m,
                n.properties[j].description,
                told_at(
                    "description"@,
                    layer,
                    n.id + ":"@ + n.properties[j].label,
                    Some(n.id),
                    path,
                    "description"@,
                ),
            )
            &&& 0 <= j < n.responsibilities.len() ==> prose(
                layer,
                m,
                n.responsibilities[j].statement,
                told_at(
                    "claim"@,
                    layer,
                    n.responsibilities[j].id,
                    Some(n.id),
                    path,
                    "statement"@,
                ),
            )
            &&& 0 <= j < n.responsibilities.len() && 0 <= k
                < n.responsibilities[j].directives.len() ==> prose(
                layer,
                m,
                n.responsibilities[j].directives[k].text,
                told_at(
                    "directive"@,
                    layer,
                    n.responsibilities[j].id,
                    Some(n.id),
                    path,
                    "directive "@ + decimal((k + 1) as nat),
                ),
            )
        }),
{
    let n = m.nodes[i];
    let path = place_named(m.nodes, n.id);
    assert(m.nodes[i] == n);
    if 0 <= j < n.directives.len() {
        lemma_directive_is_prose(n.directives, layer, n.id, None, path, j);
    }
    if 0 <= j < n.properties.len() {
        let p = n.properties[j];
        let like = told_at(
            "description"@,
            layer,
            n.id + ":"@ + p.label,
            Some(n.id),
            path,
            "description"@,
        );
        assert(property_prose_of(n.properties, layer, n.id, path, p.description, like)) by {
            assert(n.properties[j].description == p.description);
        }
    }
    if 0 <= j < n.responsibilities.len() {
        let r = n.responsibilities[j];
        let like = told_at("claim"@, layer, r.id, Some(n.id), path, "statement"@);
        assert(claim_prose_of(n.responsibilities, layer, n.id, path, r.statement, like)) by {
            assert(n.responsibilities[j].statement == r.statement);
        }
        if 0 <= k < r.directives.len() {
            lemma_directive_is_prose(r.directives, layer, r.id, Some(n.id), path, k);
            let like = told_at(
                "directive"@,
                layer,
                r.id,
                Some(n.id),
                path,
                "directive "@ + decimal((k + 1) as nat),
            );
            let text = r.directives[k].text;
            assert(claim_prose_of(n.responsibilities, layer, n.id, path, text, like)) by {
                assert(n.responsibilities[j] == r);
            }
        }
    }
}

/// Everything that a group says is searched: its description, and the statements and directives
/// of its claims.
pub proof fn law_what_a_group_says_is_searched(
    layer: Seq<char>,
    m: ScryModelView,
    i: int,
    j: int,
    k: int,
)
    requires
        0 <= i < m.groups.len(),
    ensures
        ({
            let g = m.groups[i];
            let path = match g.parent_node_id {
                Some(p) => place_named(m.nodes, p),
                None => None,
            };
            &&& g.description is Some ==> prose(
                layer,
                m,
                g.description->0,
                told_at("description"@, layer, g.id, None, path, "description"@),
            )
            &&& 0 <= j < g.responsibilities.len() ==> prose(
                layer,
                m,
                g.responsibilities[j].statement,
                told_at(
                    "claim"@,
                    layer,
                    g.responsibilities[j].id,
                    Some(g.id),
                    path,
                    "statement"@,
                ),
            )
            &&& 0 <= j < g.responsibilities.len() && 0 <= k
                < g.responsibilities[j].directives.len() ==> prose(
                layer,
                m,
                g.responsibilities[j].directives[k].text,
                told_at(
                    "directive"@,
                    layer,
                    g.responsibilities[j].id,
                    Some(g.id),
                    path,
                    "directive "@ + decimal((k + 1) as nat),
                ),
            )
        }),
{
    let g = m.groups[i];
    let path = group_place(m.nodes, g);
    assert(m.groups[i] == g);
    if 0 <= j < g.responsibilities.len() {
        let r = g.responsibilities[j];
        let like = told_at("claim"@, layer, r.id, Some(g.id), path, "statement"@);
        assert(claim_prose_of(g.responsibilities, layer, g.id, path, r.statement, like)) by {
            assert(g.responsibilities[j].statement == r.statement);
        }
        if 0 <= k < r.directives.len() {
            lemma_directive_is_prose(r.directives, layer, r.id, Some(g.id), path, k);
            let like = told_at(
                "directive"@,
                layer,
                r.id,
                Some(g.id),
                path,
                "directive "@ + decimal((k + 1) as nat),
            );
            let text = r.directives[k].text;
            assert(claim_prose_of(g.responsibilities, layer, g.id, path, text, like)) by {
                assert(g.responsibilities[j] == r);
            }
        }
    }
}

proof fn lemma_ceiling(s: Seq<char>, b: int, i: int)
    requires
        0 <= i <= s.len(),
        forall|k: int| 0 <= k < i ==> #[trigger] offset(s, k) < b,
    ensures
        i <= ceil_from(s, b, i) <= s.len(),
        ceil_from(s, b, i) < s.len() ==> offset(s, ceil_from(s, b, i)) >= b,
        forall|k: int| 0 <= k < ceil_from(s, b, i) ==> #[trigger] offset(s, k) < b,
    decreases s.len() - i,
{
    if i < s.len() && offset(s, i) < b {
        lemma_ceiling(s, b, i + 1);
    }
}

/// A use is told by its sentence: from where that begins to where it ends behind the last byte of
/// the term, without the white space around it, where that is short enough. A longer one is cut
/// on both sides, and the cuts are marked.
pub proof fn law_a_use_is_told_by_its_sentence(s: Seq<char>, at: int, len: nat) -> (e: int)
    requires
        0 <= at <= s.len(),
    ensures
        0 <= e <= s.len(),
        e < s.len() ==> offset(s, e) >= offset(s, at) + len,
        forall|k: int| 0 <= k < e ==> #[trigger] offset(s, k) < offset(s, at) + len,
        ({
            let whole = trimmed(s.subrange(sentence_start(s, at), sentence_end(s, e)));
            &&& whole.len() <= 400 ==> sentence_of(s, at, len) == whole
            &&& whole.len() > 400 ==> sentence_of(s, at, len).len() >= 2 && sentence_of(
                s,
                at,
                len,
            )[0] == '…' && sentence_of(s, at, len).last() == '…'
        }),
{
    reveal_strlit("…");
    let b = (offset(s, at) + len) as int;
    lemma_ceiling(s, b, 0);
    ceil_from(s, b, 0)
}

} // verus!
