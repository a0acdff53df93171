//! What the code says of the links.

use crate::build_edges::{
    anchor_rows, audit_of, before_last, claim_host, claimed_rows, connects, crosses, crossings,
    declared, declared_rows, file_owner, goes_before, has_claim, key_parts, leading_row, leaf_count,
    leaf_key, leaf_of, linkable, lists_resolved, lists_unmodeled, resolved, rows_at, symbol_host,
    symbol_in, symbol_rows, CachedEdgeView, DerivedEdgeView, ResolvedEdgeView,
};
use crate::model::{last_node, Kind, LinkView, NodeView, ScryModelView, SourceLocationView};
use crate::owner_laws::more_to_the_point;
use crate::ownership::{boundary_rows, depth, lineage, matched, node_ids};
use crate::text::{ascending, first_place, lex_lt};
use vstd::prelude::*;

verus! {

// ---- symbol keys ------------------------------------------------------------------------

proof fn lemma_before_last(s: Seq<char>, c: char, t: Seq<char>)
    requires
        !t.contains(c),
    ensures
        before_last(s + seq![c] + t, c) == Some(s),
    decreases t.len(),
{
    let all = s + seq![c] + t;
    if t.len() == 0 {
        assert(all.drop_last() =~= s);
    } else {
        assert(all.last() == t.last());
        assert(t.contains(t[t.len() - 1]));
        let d = t.drop_last();
        if d.contains(c) {
            let i = choose|i: int| 0 <= i < d.len() && d[i] == c;
            assert(t[i] == c);
        }
        lemma_before_last(s, c, d);
        assert(all.drop_last() =~= s + seq![c] + d);
    }
}

proof fn lemma_no_last(s: Seq<char>, c: char)
    requires
        !s.contains(c),
    ensures
        before_last(s, c) is None,
    decreases s.len(),
{
    if s.len() > 0 {
        assert(s.contains(s[s.len() - 1]));
        let d = s.drop_last();
        if d.contains(c) {
            let i = choose|i: int| 0 <= i < d.len() && d[i] == c;
            assert(s[i] == c);
        }
        lemma_no_last(d, c);
    }
}

/// A symbol's key is taken apart as it was put together: a path without `#`, a name, and behind
/// `@` a line without another, or none behind a name without any.
pub proof fn law_symbol_keys_are_read_back(path: Seq<char>, name: Seq<char>, line: Seq<char>)
    requires
        !path.contains('#'),
        !line.contains('@'),
    ensures
        key_parts(path + seq!['#'] + name + seq!['@'] + line) == Some((path, name)),
        !name.contains('@') ==> key_parts(path + seq!['#'] + name) == Some((path, name)),
        key_parts(path) is None,
{
    let rest = name + seq!['@'] + line;
    let k = path + seq!['#'] + name + seq!['@'] + line;
    lemma_splits_at(path, rest, k);
    lemma_before_last(name, '@', line);
    let j = path + seq!['#'] + name;
    lemma_splits_at(path, name, j);
    if !name.contains('@') {
        lemma_no_last(name, '@');
    }
}

proof fn lemma_splits_at(path: Seq<char>, rest: Seq<char>, k: Seq<char>)
    requires
        !path.contains('#'),
        k =~= path + seq!['#'] + rest,
    ensures
        k.contains('#'),
        k.take(first_place(k, '#')) == path,
        k.skip(first_place(k, '#') + 1) == rest,
{
    assert(k[path.len() as int] == '#');
    assert(k.take(path.len() as int) =~= path);
    crate::text::lemma_first_place(k, '#', path.len() as int);
    assert(k.skip(path.len() as int + 1) =~= rest);
}

// ---- symbols ----------------------------------------------------------------------------

/// Has the key an anchor at the file that names the symbol?
pub open spec fn names_symbol(
    m: ScryModelView,
    key: Seq<char>,
    file: Seq<char>,
    name: Seq<char>,
) -> bool {
    m.source_map.contains_key(key) && exists|i: int|
        0 <= i < m.source_map[key].len() && (#[trigger] m.source_map[key][i]).pattern == file
            && m.source_map[key][i].symbol == Some(name)
}

proof fn lemma_anchor_rows(
    locs: Seq<SourceLocationView>,
    host: Seq<char>,
    file: Seq<char>,
    name: Seq<char>,
    h: Seq<char>,
)
    ensures
        anchor_rows(locs, host).contains((file, name, h)) <==> h == host && exists|i: int|
            0 <= i < locs.len() && (#[trigger] locs[i]).pattern == file && locs[i].symbol == Some(
                name,
            ),
    decreases locs.len(),
{
    if locs.len() > 0 {
        let d = locs.drop_last();
        let l = locs.last();
        lemma_anchor_rows(d, host, file, name, h);
        let a = anchor_rows(d, host);
        let b = anchor_rows(locs, host);
        let r = (file, name, h);
        assert(locs[locs.len() - 1] == l);
        if a.contains(r) {
            let i = choose|i: int| 0 <= i < a.len() && a[i] == r;
            assert(b[i] == r);
            let j = choose|j: int|
                0 <= j < d.len() && (#[trigger] d[j]).pattern == file && d[j].symbol == Some(name);
            assert(locs[j] == d[j]);
        }
        if l.symbol is Some {
            assert(b[a.len() as int] == (l.pattern, l.symbol->0, host));
        }
        if b.contains(r) && !a.contains(r) {
            let i = choose|i: int| 0 <= i < b.len() && b[i] == r;
            if i < a.len() {
                assert(a[i] == r);
            }
        }
        if h == host && exists|i: int|
            0 <= i < locs.len() && (#[trigger] locs[i]).pattern == file && locs[i].symbol == Some(
                name,
            ) {
            let i = choose|i: int|
                0 <= i < locs.len() && (#[trigger] locs[i]).pattern == file && locs[i].symbol
                    == Some(name);
            if i < d.len() {
                assert(d[i] == locs[i]);
            }
        }
    }
}

proof fn lemma_host(rows: Seq<(Seq<char>, Seq<char>, Seq<char>)>, file: Seq<char>, name: Seq<char>)
    ensures
        symbol_host(rows, file, name) is None <==> forall|i: int|
            0 <= i < rows.len() ==> !((#[trigger] rows[i]).0 == file && rows[i].1 == name),
        symbol_host(rows, file, name) is Some ==> exists|i: int|
            0 <= i < rows.len() && (#[trigger] rows[i]) == (
                file,
                name,
                symbol_host(rows, file, name)->0,
            ) && forall|j: int|
                0 <= j < i ==> !((#[trigger] rows[j]).0 == file && rows[j].1 == name),
    decreases rows.len(),
{
    if rows.len() > 0 {
        let t = rows.drop_first();
        lemma_host(t, file, name);
        if rows[0].0 == file && rows[0].1 == name {
            assert(rows[0] == (file, name, rows[0].2));
        } else if symbol_host(t, file, name) is Some {
            let i = choose|i: int|
                0 <= i < t.len() && (#[trigger] t[i]) == (file, name, symbol_host(t, file, name)->0)
                    && forall|j: int|
                    0 <= j < i ==> !((#[trigger] t[j]).0 == file && t[j].1 == name);
            assert(rows[i + 1] == t[i]);
            assert forall|j: int| 0 <= j < i + 1 implies !((#[trigger] rows[j]).0 == file
                && rows[j].1 == name) by {
                if j > 0 {
                    assert(rows[j] == t[j - 1]);
                }
            }
        } else {
            assert forall|i: int| 0 <= i < rows.len() implies !((#[trigger] rows[i]).0 == file
                && rows[i].1 == name) by {
                if i > 0 {
                    assert(rows[i] == t[i - 1]);
                }
            }
        }
    }
}

proof fn lemma_declared_rows(
    m: ScryModelView,
    ns: Seq<NodeView>,
    file: Seq<char>,
    name: Seq<char>,
    h: Seq<char>,
)
    ensures
        declared_rows(m.source_map, ns).contains((file, name, h)) <==> names_symbol(
            m,
            h,
            file,
            name,
        ) && exists|i: int| 0 <= i < ns.len() && (#[trigger] ns[i]).id == h,
    decreases ns.len(),
{
    if ns.len() > 0 {
        let d = ns.drop_last();
        let n = ns.last();
        lemma_declared_rows(m, d, file, name, h);
        let a = declared_rows(m.source_map, d);
        let b = rows_at(m.source_map, n.id, Some(n.id));
        if m.source_map.contains_key(n.id) {
            lemma_anchor_rows(m.source_map[n.id], n.id, file, name, h);
        }
        lemma_either(a, b, (file, name, h));
        assert(ns[ns.len() - 1] == n);
        if exists|i: int| 0 <= i < d.len() && (#[trigger] d[i]).id == h {
            let i = choose|i: int| 0 <= i < d.len() && (#[trigger] d[i]).id == h;
            assert(ns[i] == d[i]);
        }
        if exists|i: int| 0 <= i < ns.len() && (#[trigger] ns[i]).id == h {
            let i = choose|i: int| 0 <= i < ns.len() && (#[trigger] ns[i]).id == h;
            if i < d.len() {
                assert(d[i] == ns[i]);
            }
        }
    }
}

proof fn lemma_either<A>(a: Seq<A>, b: Seq<A>, h: A)
    ensures
        (a + b).contains(h) <==> a.contains(h) || b.contains(h),
{
    let s = a + b;
    if a.contains(h) {
        let i = choose|i: int| 0 <= i < a.len() && a[i] == h;
        assert(s[i] == h);
    }
    if b.contains(h) {
        let i = choose|i: int| 0 <= i < b.len() && b[i] == h;
        assert(s[a.len() + i] == h);
    }
    if s.contains(h) {
        let i = choose|i: int| 0 <= i < s.len() && s[i] == h;
        if i < a.len() {
            assert(a[i] == h);
        } else {
            assert(b[i - a.len()] == h);
        }
    }
}

proof fn lemma_claimed_rows(
    m: ScryModelView,
    keys: Seq<Seq<char>>,
    file: Seq<char>,
    name: Seq<char>,
    h: Seq<char>,
)
    ensures
        claimed_rows(m.source_map, m.nodes, keys).contains((file, name, h)) <==> exists|i: int|
            0 <= i < keys.len() && claim_host(m.nodes, #[trigger] keys[i]) == Some(h)
                && names_symbol(m, keys[i], file, name),
    decreases keys.len(),
{
    if keys.len() > 0 {
        let d = keys.drop_last();
        let k = keys.last();
        lemma_claimed_rows(m, d, file, name, h);
        let a = claimed_rows(m.source_map, m.nodes, d);
        let b = rows_at(m.source_map, k, claim_host(m.nodes, k));
        if m.source_map.contains_key(k) && claim_host(m.nodes, k) is Some {
            lemma_anchor_rows(m.source_map[k], claim_host(m.nodes, k)->0, file, name, h);
        }
        lemma_either(a, b, (file, name, h));
        assert(keys[keys.len() - 1] == k);
        if a.contains((file, name, h)) {
            let i = choose|i: int|
                0 <= i < d.len() && claim_host(m.nodes, #[trigger] d[i]) == Some(h) && names_symbol(
                    m,
                    d[i],
                    file,
                    name,
                );
            assert(keys[i] == d[i]);
        }
        if exists|i: int|
            0 <= i < keys.len() && claim_host(m.nodes, #[trigger] keys[i]) == Some(h)
                && names_symbol(m, keys[i], file, name) {
            let i = choose|i: int|
                0 <= i < keys.len() && claim_host(m.nodes, #[trigger] keys[i]) == Some(h)
                    && names_symbol(m, keys[i], file, name);
            if i < d.len() {
                assert(d[i] == keys[i]);
            }
        }
    }
}

proof fn lemma_claim_host(ns: Seq<NodeView>, id: Seq<char>)
    ensures
        claim_host(ns, id) is None <==> forall|i: int|
            0 <= i < ns.len() ==> !has_claim((#[trigger] ns[i]).responsibilities, id),
        claim_host(ns, id) is Some ==> exists|i: int|
            0 <= i < ns.len() && (#[trigger] ns[i]).id == claim_host(ns, id)->0 && has_claim(
                ns[i].responsibilities,
                id,
            ),
    decreases ns.len(),
{
    if ns.len() > 0 {
        let d = ns.drop_last();
        lemma_claim_host(d, id);
        assert(ns[ns.len() - 1] == ns.last());
        if !has_claim(ns.last().responsibilities, id) {
            if claim_host(d, id) is Some {
                let i = choose|i: int|
                    0 <= i < d.len() && (#[trigger] d[i]).id == claim_host(d, id)->0 && has_claim(
                        d[i].responsibilities,
                        id,
                    );
                assert(ns[i] == d[i]);
            } else {
                assert forall|i: int| 0 <= i < ns.len() implies !has_claim(
                    (#[trigger] ns[i]).responsibilities,
                    id,
                ) by {
                    if i < d.len() {
                        assert(d[i] == ns[i]);
                    }
                }
            }
        }
    }
}

/// Does the node, by its own anchor, declare the symbol in the file?
pub open spec fn declares(
    m: ScryModelView,
    id: Seq<char>,
    file: Seq<char>,
    name: Seq<char>,
) -> bool {
    names_symbol(m, id, file, name) && exists|i: int|
        0 <= i < m.nodes.len() && (#[trigger] m.nodes[i]).id == id
}

/// Does the node make a claim that is anchored to the symbol in the file?
pub open spec fn claims_symbol(
    m: ScryModelView,
    id: Seq<char>,
    file: Seq<char>,
    name: Seq<char>,
) -> bool {
    exists|i: int, k: int|
        #![trigger m.nodes[i].responsibilities[k]]
        0 <= i < m.nodes.len() && m.nodes[i].id == id && 0 <= k < m.nodes[i].responsibilities.len()
            && names_symbol(m, m.nodes[i].responsibilities[k].id, file, name)
}

/// An end of a code edge resolves to a node that declares its symbol where there is one; else to
/// one that makes a claim anchored to it where there is one; else to the node that its file falls
/// to; and to none where there is none of these.
pub proof fn law_what_an_end_resolves_to(m: ScryModelView, end: Seq<char>)
    requires
        m.source_map.dom().finite(),
    ensures
        match key_parts(end) {
            None => resolved(m, end) is None,
            Some((file, name)) => {
                let declared = exists|id: Seq<char>| #[trigger] declares(m, id, file, name);
                let claimed = exists|id: Seq<char>| #[trigger] claims_symbol(m, id, file, name);
                &&& declared ==> resolved(m, end) is Some && declares(
                    m,
                    resolved(m, end)->0,
                    file,
                    name,
                )
                &&& !declared && claimed ==> resolved(m, end) is Some && claims_symbol(
                    m,
                    resolved(m, end)->0,
                    file,
                    name,
                )
                &&& !declared && !claimed ==> resolved(m, end) == file_owner(m, file)
            },
        },
{
    if key_parts(end) is Some {
        let (file, name) = key_parts(end)->0;
        let ks = ascending(m.source_map.dom());
        crate::text::lemma_ascending_of(m.source_map.dom());
        let a = declared_rows(m.source_map, m.nodes);
        let b = claimed_rows(m.source_map, m.nodes, ks);
        let rows = symbol_rows(m);
        lemma_host(rows, file, name);
        let r = symbol_host(rows, file, name);
        if exists|id: Seq<char>| #[trigger] declares(m, id, file, name) {
            let id = choose|id: Seq<char>| #[trigger] declares(m, id, file, name);
            lemma_declared_rows(m, m.nodes, file, name, id);
            let i = choose|i: int| 0 <= i < a.len() && a[i] == (file, name, id);
            assert(rows[i] == a[i]);
            assert(rows[i].0 == file && rows[i].1 == name);
            let q = choose|q: int|
                0 <= q < rows.len() && (#[trigger] rows[q]) == (file, name, r->0) && forall|j: int|
                    0 <= j < q ==> !((#[trigger] rows[j]).0 == file && rows[j].1 == name);
            assert(q <= i);
            assert(a[q] == (file, name, r->0));
            assert(a.contains((file, name, r->0)));
            lemma_declared_rows(m, m.nodes, file, name, r->0);
        } else {
            assert forall|h: Seq<char>| !#[trigger] a.contains((file, name, h)) by {
                lemma_declared_rows(m, m.nodes, file, name, h);
                assert(!declares(m, h, file, name));
            }
            if exists|id: Seq<char>| #[trigger] claims_symbol(m, id, file, name) {
                let id = choose|id: Seq<char>| #[trigger] claims_symbol(m, id, file, name);
                let (i, k) = choose|i: int, k: int|
                    #![trigger m.nodes[i].responsibilities[k]]
                    0 <= i < m.nodes.len() && m.nodes[i].id == id && 0 <= k
                        < m.nodes[i].responsibilities.len() && names_symbol(
                        m,
                        m.nodes[i].responsibilities[k].id,
                        file,
                        name,
                    );
                let rid = m.nodes[i].responsibilities[k].id;
                assert(has_claim(m.nodes[i].responsibilities, rid));
                lemma_claim_host(m.nodes, rid);
                let h = claim_host(m.nodes, rid)->0;
                assert(ks.to_set().contains(rid));
                let w = choose|w: int| 0 <= w < ks.len() && ks[w] == rid;
                assert(claim_host(m.nodes, ks[w]) == Some(h));
                lemma_claimed_rows(m, ks, file, name, h);
                lemma_either(a, b, (file, name, h));
                let z = choose|z: int| 0 <= z < rows.len() && rows[z] == (file, name, h);
                assert(rows[z].0 == file && rows[z].1 == name);
            }
            if r is Some {
                let h = r->0;
                assert(rows.contains((file, name, h)));
                lemma_either(a, b, (file, name, h));
                lemma_claimed_rows(m, ks, file, name, h);
                let w = choose|w: int|
                    0 <= w < ks.len() && claim_host(m.nodes, #[trigger] ks[w]) == Some(h)
                        && names_symbol(m, ks[w], file, name);
                lemma_claim_host(m.nodes, ks[w]);
                let i = choose|i: int|
                    0 <= i < m.nodes.len() && (#[trigger] m.nodes[i]).id == h && has_claim(
                        m.nodes[i].responsibilities,
                        ks[w],
                    );
                let rs = m.nodes[i].responsibilities;
                let k = choose|k: int| 0 <= k < rs.len() && (#[trigger] rs[k]).id == ks[w];
                assert(m.nodes[i].responsibilities[k].id == ks[w]);
                assert(claims_symbol(m, h, file, name));
            }
        }
    }
}

// ---- files ------------------------------------------------------------------------------

/// Does the first row take a file before the second: is its pattern more to the point, or as much
/// and its node deeper, or as deep and its id earlier?
pub open spec fn takes_before(
    ns: Seq<NodeView>,
    a: (Seq<char>, Seq<char>),
    b: (Seq<char>, Seq<char>),
) -> bool {
    ||| more_to_the_point(a.1, b.1)
    ||| !more_to_the_point(b.1, a.1) && depth(ns, a.0) > depth(ns, b.0)
    ||| !more_to_the_point(b.1, a.1) && depth(ns, a.0) == depth(ns, b.0) && lex_lt(a.0, b.0)
}

proof fn lemma_leading(
    ns: Seq<NodeView>,
    rows: Seq<(Seq<char>, Seq<char>)>,
    file: Seq<char>,
)
    ensures
        leading_row(ns, rows, file) is Some <==> exists|i: int|
            0 <= i < rows.len() && matched((#[trigger] rows[i]).1, file),
        leading_row(ns, rows, file) is Some ==> rows.contains(leading_row(ns, rows, file)->0)
            && matched((leading_row(ns, rows, file)->0).1, file),
        forall|i: int|
            0 <= i < rows.len() && matched((#[trigger] rows[i]).1, file) ==> !goes_before(
                ns,
                rows[i],
                leading_row(ns, rows, file)->0,
            ),
    decreases rows.len(),
{
    if rows.len() > 0 {
        let d = rows.drop_last();
        let r = rows.last();
        lemma_leading(ns, d, file);
        let was = leading_row(ns, d, file);
        let is_now = leading_row(ns, rows, file);
        assert(rows[rows.len() - 1] == r);
        if was is Some {
            let i = choose|i: int| 0 <= i < d.len() && d[i] == was->0;
            assert(rows[i] == was->0);
        }
        if exists|i: int| 0 <= i < d.len() && matched((#[trigger] d[i]).1, file) {
            let i = choose|i: int| 0 <= i < d.len() && matched((#[trigger] d[i]).1, file);
            assert(rows[i] == d[i]);
        }
        if exists|i: int| 0 <= i < rows.len() && matched((#[trigger] rows[i]).1, file) {
            let i = choose|i: int| 0 <= i < rows.len() && matched((#[trigger] rows[i]).1, file);
            if i < d.len() {
                assert(d[i] == rows[i]);
            }
        }
        assert forall|i: int| 0 <= i < rows.len() && matched((#[trigger] rows[i]).1, file) implies !goes_before(
            ns,
            rows[i],
            is_now->0,
        ) by {
            crate::text::lemma_lex_irreflexive(rows[i].0);
            if i < d.len() {
                assert(d[i] == rows[i]);
                if is_now != was {
                    lemma_order(ns, r, was->0, rows[i]);
                }
            }
        }
    }
}

proof fn lemma_order(
    ns: Seq<NodeView>,
    a: (Seq<char>, Seq<char>),
    b: (Seq<char>, Seq<char>),
    c: (Seq<char>, Seq<char>),
)
    requires
        goes_before(ns, a, b),
        !goes_before(ns, c, b),
    ensures
        !goes_before(ns, c, a),
{
    if goes_before(ns, c, a) {
        if lex_lt(c.0, a.0) && lex_lt(a.0, b.0) {
            crate::text::lemma_lex_transitive(c.0, a.0, b.0);
        }
    }
}

/// A file falls to a node exactly where a boundary matches it: to the owner of a pattern that
/// matches and before which no pattern that matches takes it.
pub proof fn law_whom_a_file_falls_to(m: ScryModelView, file: Seq<char>)
    ensures
        ({
            let rows = boundary_rows(m.boundaries, node_ids(m.nodes));
            let o = file_owner(m, file);
            &&& o is Some <==> exists|i: int|
                0 <= i < rows.len() && matched((#[trigger] rows[i]).1, file)
            &&& o is Some ==> exists|i: int|
                0 <= i < rows.len() && (#[trigger] rows[i]).0 == o->0 && matched(rows[i].1, file)
                    && forall|j: int|
                    0 <= j < rows.len() && matched((#[trigger] rows[j]).1, file) ==> !takes_before(
                        m.nodes,
                        rows[j],
                        rows[i],
                    )
        }),
{
    let rows = boundary_rows(m.boundaries, node_ids(m.nodes));
    lemma_leading(m.nodes, rows, file);
    let l = leading_row(m.nodes, rows, file);
    if l is Some {
        let i = choose|i: int| 0 <= i < rows.len() && rows[i] == l->0;
        assert forall|j: int| 0 <= j < rows.len() && matched((#[trigger] rows[j]).1, file) implies !takes_before(
            m.nodes,
            rows[j],
            rows[i],
        ) by {
            assert(!goes_before(m.nodes, rows[j], l->0));
        }
        assert(rows[i].0 == (l->0).0);
    }
}

// ---- edges ------------------------------------------------------------------------------

/// Does the edge lead out of `a` into `b`: does its source resolve to a node in `a` and not in
/// `b`, and its target to one in `b` and not in `a`?
pub open spec fn leads(m: ScryModelView, e: CachedEdgeView, a: Seq<char>, b: Seq<char>) -> bool {
    let (s, d) = (resolved(m, e.src), resolved(m, e.dst));
    &&& s is Some && d is Some
    &&& lineage(m.nodes, s->0).contains(a)
    &&& !lineage(m.nodes, s->0).contains(b)
    &&& lineage(m.nodes, d->0).contains(b)
    &&& !lineage(m.nodes, d->0).contains(a)
}

proof fn lemma_crossings(m: ScryModelView, es: Seq<CachedEdgeView>, a: Seq<char>, b: Seq<char>)
    ensures
        crossings(m, es, a, b) == es.filter(|e: CachedEdgeView| leads(m, e, a, b)).len(),
    decreases es.len(),
{
    reveal(Seq::filter);
    if es.len() > 0 {
        lemma_crossings(m, es.drop_last(), a, b);
        assert(crosses(m, es.last(), a, b) == leads(m, es.last(), a, b));
    }
}

/// Each declared link is told with how many code edges lead from its source into its target, in
/// the order of the links.
pub proof fn law_links_are_told_with_their_evidence(
    m: ScryModelView,
    es: Seq<CachedEdgeView>,
    ls: Seq<LinkView>,
)
    ensures
        audit_of(m, es, ls).len() == ls.len(),
        forall|i: int|
            0 <= i < ls.len() ==> (#[trigger] audit_of(m, es, ls)[i]).link_id == ls[i].id
                && audit_of(m, es, ls)[i].edge_count == es.filter(
                |e: CachedEdgeView| leads(m, e, ls[i].src, ls[i].dst),
            ).len(),
{
    assert forall|i: int| 0 <= i < ls.len() implies (#[trigger] audit_of(m, es, ls)[i]).link_id
        == ls[i].id && audit_of(m, es, ls)[i].edge_count == es.filter(
        |e: CachedEdgeView| leads(m, e, ls[i].src, ls[i].dst),
    ).len() by {
        lemma_crossings(m, es, ls[i].src, ls[i].dst);
    }
}

/// Could a link be missing between the two: are they nodes of one kind, no symbols, under one
/// parent, with no link either way?
pub open spec fn could_be_linked(m: ScryModelView, a: Seq<char>, b: Seq<char>) -> bool {
    let (x, y) = (last_node(m.nodes, a), last_node(m.nodes, b));
    &&& x is Some && y is Some
    &&& x->0.kind == y->0.kind
    &&& x->0.kind != Kind::Symbol
    &&& x->0.parent_id == y->0.parent_id
    &&& forall|i: int|
        0 <= i < m.links.len() ==> !((#[trigger] m.links[i]).src == a && m.links[i].dst == b) && !(
        m.links[i].src == b && m.links[i].dst == a)
}

/// The connections that are not modelled are exactly the pairs that could be linked and that some
/// code edge leads between, each with how many do.
pub proof fn law_what_is_told_as_unmodelled(
    m: ScryModelView,
    es: Seq<CachedEdgeView>,
    out: Seq<DerivedEdgeView>,
    a: Seq<char>,
    b: Seq<char>,
)
    requires
        lists_unmodeled(m, es, out),
    ensures
        ({
            let n = es.filter(|e: CachedEdgeView| leads(m, e, a, b)).len();
            &&& (exists|i: int| 0 <= i < out.len() && (#[trigger] out[i]).src == a && out[i].dst == b)
                <==> could_be_linked(m, a, b) && n > 0
            &&& forall|i: int|
                0 <= i < out.len() && (#[trigger] out[i]).src == a && out[i].dst == b
                    ==> out[i].count == n
        }),
{
    lemma_crossings(m, es, a, b);
    assert(linkable(m, a, b) == could_be_linked(m, a, b)) by {
        if could_be_linked(m, a, b) {
            if declared(m.links, a, b) {
                let i = choose|i: int|
                    0 <= i < m.links.len() && (#[trigger] m.links[i]).src == a && m.links[i].dst
                        == b;
                assert(m.links[i].src == a);
            }
            if declared(m.links, b, a) {
                let i = choose|i: int|
                    0 <= i < m.links.len() && (#[trigger] m.links[i]).src == b && m.links[i].dst
                        == a;
                assert(m.links[i].src == b);
            }
        }
    }
    if connects(out, a, b) {
        let i = choose|i: int| 0 <= i < out.len() && (#[trigger] out[i]).src == a && out[i].dst == b;
        assert(linkable(m, out[i].src, out[i].dst));
    }
}

/// Does the edge join two nodes apart: do its ends resolve to two nodes neither of which is in the
/// other?
pub open spec fn joins(
    m: ScryModelView,
    e: CachedEdgeView,
    s: Seq<char>,
    d: Seq<char>,
    from: Seq<char>,
    to: Seq<char>,
) -> bool {
    &&& resolved(m, e.src) == Some(s)
    &&& resolved(m, e.dst) == Some(d)
    &&& s != d
    &&& !lineage(m.nodes, s).contains(d)
    &&& !lineage(m.nodes, d).contains(s)
    &&& symbol_in(e.src) == from
    &&& symbol_in(e.dst) == to
}

proof fn lemma_leaf_count(
    m: ScryModelView,
    es: Seq<CachedEdgeView>,
    s: Seq<char>,
    d: Seq<char>,
    from: Seq<char>,
    to: Seq<char>,
)
    ensures
        leaf_count(m, es, seq![s, d, from, to]) == es.filter(
            |e: CachedEdgeView| joins(m, e, s, d, from, to),
        ).len(),
    decreases es.len(),
{
    reveal(Seq::filter);
    if es.len() > 0 {
        lemma_leaf_count(m, es.drop_last(), s, d, from, to);
        let e = es.last();
        let k = seq![s, d, from, to];
        if leaf_of(m, e) is Some {
            let l = leaf_of(m, e)->0;
            if l == k {
                assert(l[0] == k[0] && l[1] == k[1] && l[2] == k[2] && l[3] == k[3]);
            }
        }
        if joins(m, e, s, d, from, to) {
            assert(leaf_of(m, e)->0 =~= k);
        }
        assert((leaf_of(m, e) == Some(k)) == joins(m, e, s, d, from, to));
    }
}

/// The code edges that are told are exactly those that join two nodes apart, each pair of nodes
/// and symbols with how many there are.
pub proof fn law_which_edges_are_told(
    m: ScryModelView,
    es: Seq<CachedEdgeView>,
    out: Seq<ResolvedEdgeView>,
    s: Seq<char>,
    d: Seq<char>,
    from: Seq<char>,
    to: Seq<char>,
)
    requires
        lists_resolved(m, es, out),
    ensures
        ({
            let n = es.filter(|e: CachedEdgeView| joins(m, e, s, d, from, to)).len();
            let is_it = |i: int|
                out[i].src_node == s && out[i].dst_node == d && out[i].src_symbol == from
                    && out[i].dst_symbol == to;
            &&& (exists|i: int| 0 <= i < out.len() && #[trigger] is_it(i)) <==> n > 0
            &&& forall|i: int| 0 <= i < out.len() && #[trigger] is_it(i) ==> out[i].count == n
        }),
{
    lemma_leaf_count(m, es, s, d, from, to);
    let k = seq![s, d, from, to];
    let is_it = |i: int|
        out[i].src_node == s && out[i].dst_node == d && out[i].src_symbol == from
            && out[i].dst_symbol == to;
    assert forall|i: int| 0 <= i < out.len() implies (#[trigger] is_it(i) <==> leaf_key(out[i]) == k) by {
        let l = leaf_key(out[i]);
        if l == k {
            assert(l[0] == k[0] && l[1] == k[1] && l[2] == k[2] && l[3] == k[3]);
        }
        if is_it(i) {
            assert(l =~= k);
        }
    }
    if leaf_count(m, es, k) > 0 {
        let i = choose|i: int| 0 <= i < out.len() && leaf_key(#[trigger] out[i]) == k;
        assert(is_it(i));
    }
    if exists|i: int| 0 <= i < out.len() && #[trigger] is_it(i) {
        let i = choose|i: int| 0 <= i < out.len() && #[trigger] is_it(i);
        assert(leaf_key(out[i]) == k);
    }
}

} // verus!
