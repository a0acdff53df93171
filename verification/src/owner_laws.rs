//! Who owns a file, and who stands above whom.

use crate::fold_laws::names_differ;
use crate::locate::{boundary_owner_of, owners_of};
use crate::model::{
    chain, has_node, last_node, lemma_last_node, lemma_lookups, lemma_unseen_shrinks, unseen, Node,
    NodeView, ScryModelView, SourceView,
};
use crate::named::{first, Named};
use crate::ownership::{
    above_all, at_depth, boundary_rows, claims_at, climb, depth, finest, key_at, lineage,
    literal_prefix, mappers, mapping, matched, meeting, node_ids, outranks, owned, rank_of,
    rows_for, rows_of, top_depth, wins,
};
use crate::text::ascending;
use vstd::prelude::*;

verus! {

// ---- ranks ------------------------------------------------------------------------------

/// Does the character make a pattern match more than itself?
pub open spec fn is_wild(c: char) -> bool {
    c == '*' || c == '?' || c == '['
}

/// A pattern reads literally up to its first wild character.
pub proof fn law_how_far_a_pattern_reads(p: Seq<char>)
    ensures
        literal_prefix(p) <= p.len(),
        forall|i: int| 0 <= i < literal_prefix(p) ==> !is_wild(#[trigger] p[i]),
        literal_prefix(p) < p.len() ==> is_wild(p[literal_prefix(p) as int]),
    decreases p.len(),
{
    if p.len() > 0 && !crate::ownership::is_meta(p[0]) {
        let t = p.drop_first();
        law_how_far_a_pattern_reads(t);
        assert forall|i: int| 0 <= i < literal_prefix(p) implies !is_wild(#[trigger] p[i]) by {
            if i > 0 {
                assert(p[i] == t[i - 1]);
            }
        }
        if literal_prefix(p) < p.len() {
            assert(p[literal_prefix(p) as int] == t[literal_prefix(t) as int]);
        }
    }
}

/// Is the first pattern more to the point: does it read further literally, or as far and is
/// longer?
pub open spec fn more_to_the_point(a: Seq<char>, b: Seq<char>) -> bool {
    literal_prefix(a) > literal_prefix(b) || (literal_prefix(a) == literal_prefix(b) && a.len()
        > b.len())
}

// ---- owners -----------------------------------------------------------------------------

proof fn lemma_row_in(
    bs: Map<Seq<char>, Seq<SourceView>>,
    keys: Seq<Seq<char>>,
    live: Seq<Seq<char>>,
    id: Seq<char>,
    p: Seq<char>,
)
    ensures
        rows_of(bs, keys, live).contains((id, p)) <==> keys.contains(id) && live.contains(id)
            && exists|i: int| 0 <= i < bs[id].len() && (#[trigger] bs[id][i]).pattern == p,
    decreases keys.len(),
{
    if keys.len() > 0 {
        let d = keys.drop_last();
        let k = keys.last();
        lemma_row_in(bs, d, live, id, p);
        let a = rows_of(bs, d, live);
        let b = rows_for(k, bs[k]);
        let all = rows_of(bs, keys, live);
        assert(keys[keys.len() - 1] == k);
        if d.contains(id) {
            let i = choose|i: int| 0 <= i < d.len() && d[i] == id;
            assert(keys[i] == id);
        }
        if keys.contains(id) && id != k {
            let i = choose|i: int| 0 <= i < keys.len() && keys[i] == id;
            assert(d[i] == id);
        }
        if a.contains((id, p)) {
            let i = choose|i: int| 0 <= i < a.len() && a[i] == (id, p);
            assert(all[i] == (id, p));
        }
        if id == k && live.contains(k) && exists|i: int|
            0 <= i < bs[id].len() && (#[trigger] bs[id][i]).pattern == p {
            let i = choose|i: int| 0 <= i < bs[id].len() && (#[trigger] bs[id][i]).pattern == p;
            assert(b[i] == (id, p));
            assert(all[a.len() + i] == (id, p));
        }
        if all.contains((id, p)) && !a.contains((id, p)) {
            let i = choose|i: int| 0 <= i < all.len() && all[i] == (id, p);
            if i < a.len() {
                assert(a[i] == (id, p));
            }
            let j = i - a.len();
            assert(b[j] == (id, p));
            assert(bs[id][j].pattern == p);
        }
    }
}

/// Does the node have a pattern in its boundary that matches the file?
pub open spec fn bounds(
    m: ScryModelView,
    id: Seq<char>,
    p: Seq<char>,
    file: Seq<char>,
) -> bool {
    &&& exists|i: int| 0 <= i < m.nodes.len() && (#[trigger] m.nodes[i]).id == id
    &&& m.boundaries.contains_key(id)
    &&& exists|i: int| 0 <= i < m.boundaries[id].len() && (
        #[trigger] m.boundaries[id][i]).pattern == p
    &&& matched(p, file)
}

proof fn lemma_bounds(m: ScryModelView, id: Seq<char>, p: Seq<char>, file: Seq<char>)
    requires
        m.boundaries.dom().finite(),
    ensures
        boundary_rows(m.boundaries, node_ids(m.nodes)).contains((id, p)) && matched(p, file)
            <==> bounds(m, id, p, file),
{
    crate::text::lemma_ascending_of(m.boundaries.dom());
    let ks = ascending(m.boundaries.dom());
    let live = node_ids(m.nodes);
    assert(ks.to_set().contains(id) == ks.contains(id));
    lemma_row_in(m.boundaries, ks, live, id, p);
    if live.contains(id) {
        let i = choose|i: int| 0 <= i < live.len() && live[i] == id;
        assert(m.nodes[i].id == id);
    }
    if exists|i: int| 0 <= i < m.nodes.len() && (#[trigger] m.nodes[i]).id == id {
        let i = choose|i: int| 0 <= i < m.nodes.len() && (#[trigger] m.nodes[i]).id == id;
        assert(live[i] == id);
    }
}

/// A node owns a file exactly where a pattern of its boundary matches it and no pattern of any
/// node's boundary that matches it is more to the point.
pub proof fn law_who_owns_a_file(m: ScryModelView, id: Seq<char>, file: Seq<char>)
    requires
        m.boundaries.dom().finite(),
    ensures
        owned(boundary_rows(m.boundaries, node_ids(m.nodes)), id, file) <==> exists|p: Seq<char>|
            #[trigger] bounds(m, id, p, file) && forall|k: Seq<char>, q: Seq<char>| #[trigger]
                bounds(m, k, q, file) ==> !more_to_the_point(q, p),
{
    let rows = boundary_rows(m.boundaries, node_ids(m.nodes));
    if owned(rows, id, file) {
        let i = choose|i: int| 0 <= i < rows.len() && (#[trigger] rows[i]).0 == id && wins(
            rows,
            i,
            file,
        );
        let p = rows[i].1;
        assert(rows[i] == (id, p));
        assert(rows.contains((id, p)));
        lemma_bounds(m, id, p, file);
        assert forall|k: Seq<char>, q: Seq<char>| #[trigger] bounds(m, k, q, file) implies !more_to_the_point(
            q,
            p,
        ) by {
            lemma_bounds(m, k, q, file);
            let j = choose|j: int| 0 <= j < rows.len() && rows[j] == (k, q);
            assert(matched(rows[j].1, file));
            assert(!outranks(rank_of(rows[j].1), rank_of(rows[i].1)));
        }
        assert(bounds(m, id, p, file));
    }
    if exists|p: Seq<char>| #[trigger]
        bounds(m, id, p, file) && forall|k: Seq<char>, q: Seq<char>| #[trigger]
            bounds(m, k, q, file) ==> !more_to_the_point(q, p) {
        let p = choose|p: Seq<char>| #[trigger]
            bounds(m, id, p, file) && forall|k: Seq<char>, q: Seq<char>| #[trigger]
                bounds(m, k, q, file) ==> !more_to_the_point(q, p);
        lemma_bounds(m, id, p, file);
        let i = choose|i: int| 0 <= i < rows.len() && rows[i] == (id, p);
        assert forall|j: int| 0 <= j < rows.len() && matched((#[trigger] rows[j]).1, file) implies !outranks(
            rank_of(rows[j].1),
            rank_of(rows[i].1),
        ) by {
            let (k, q) = rows[j];
            assert(rows.contains((k, q)));
            lemma_bounds(m, k, q, file);
            assert(bounds(m, k, q, file));
        }
        assert(rows[i].0 == id && wins(rows, i, file));
    }
}

// ---- lineage ----------------------------------------------------------------------------

/// Is the list a way up: from each to its parent, until there is none, the parent is no node, or
/// it was met before?
pub open spec fn is_way_up(ns: Seq<NodeView>, line: Seq<NodeView>, seen: Seq<Seq<char>>) -> bool {
    &&& forall|k: int|
        0 <= k < line.len() ==> last_node(ns, (#[trigger] line[k]).id) == Some(line[k])
    &&& forall|k: int, l: int|
        0 <= k < line.len() && l == k + 1 && l < line.len() ==> (#[trigger] line[k]).parent_id
            == Some((#[trigger] line[l]).id)
    &&& line.len() > 0 ==> ({
        let last = line.last();
        ||| last.parent_id is None
        ||| !has_node(ns, last.parent_id->0)
        ||| seen.contains(last.parent_id->0)
        ||| exists|k: int| 0 <= k < line.len() && (#[trigger] line[k]).id == last.parent_id->0
    })
    &&& forall|i: int, j: int|
        0 <= i < j < line.len() ==> (#[trigger] line[i]).id != (#[trigger] line[j]).id
    &&& forall|k: int| 0 <= k < line.len() ==> !seen.contains((#[trigger] line[k]).id)
}

proof fn lemma_way_up(ns: Seq<NodeView>, at: Option<Seq<char>>, seen: Seq<Seq<char>>)
    ensures
        is_way_up(ns, chain(ns, at, seen), seen),
        chain(ns, at, seen).len() > 0 <==> at is Some && !seen.contains(at->0) && has_node(
            ns,
            at->0,
        ),
        chain(ns, at, seen).len() > 0 ==> chain(ns, at, seen)[0].id == at->0,
    decreases unseen(ns, seen),
{
    if at is Some {
        lemma_lookups(ns, at->0);
    }
    if !(at is None || seen.contains(at->0) || last_node(ns, at->0) is None) {
        let id = at->0;
        let n = last_node(ns, id)->0;
        lemma_unseen_shrinks(ns, seen, id);
        let more = seen.push(id);
        lemma_way_up(ns, n.parent_id, more);
        let rest = chain(ns, n.parent_id, more);
        let line = chain(ns, at, seen);
        assert(line =~= seq![n] + rest);
        assert(more[seen.len() as int] == id);
        assert forall|x: Seq<char>| #[trigger] more.contains(x) <==> seen.contains(x) || x == id by {
            if seen.contains(x) {
                let k = choose|k: int| 0 <= k < seen.len() && seen[k] == x;
                assert(more[k] == x);
            }
            if more.contains(x) && x != id {
                let k = choose|k: int| 0 <= k < more.len() && more[k] == x;
                assert(seen[k] == x);
            }
        }
        assert(line[0] == n);
        assert forall|k: int| 0 <= k < line.len() implies last_node(ns, (#[trigger] line[k]).id)
            == Some(line[k]) by {
            if k > 0 {
                assert(line[k] == rest[k - 1]);
            }
        }
        assert forall|k: int, l: int| 0 <= k < line.len() && l == k + 1 && l < line.len() implies (
        #[trigger] line[k]).parent_id == Some((#[trigger] line[l]).id) by {
            assert(line[l] == rest[k]);
            if k > 0 {
                assert(line[k] == rest[k - 1]);
                assert(rest[k - 1].parent_id == Some(rest[k].id));
            }
        }
        assert forall|i: int, j: int| 0 <= i < j < line.len() implies (#[trigger] line[i]).id != (
        #[trigger] line[j]).id by {
            assert(line[j] == rest[j - 1]);
            assert(!more.contains(rest[j - 1].id));
            if i > 0 {
                assert(line[i] == rest[i - 1]);
            }
        }
        assert forall|k: int| 0 <= k < line.len() implies !seen.contains((#[trigger] line[k]).id) by {
            if k > 0 {
                assert(line[k] == rest[k - 1]);
                assert(!more.contains(rest[k - 1].id));
            }
        }
        let last = line.last();
        if rest.len() > 0 {
            assert(last == rest.last());
            if last.parent_id is Some && has_node(ns, last.parent_id->0) && !seen.contains(
                last.parent_id->0,
            ) {
                if more.contains(last.parent_id->0) {
                    assert(line[0].id == last.parent_id->0);
                } else {
                    let k = choose|k: int|
                        0 <= k < rest.len() && (#[trigger] rest[k]).id == last.parent_id->0;
                    assert(line[k + 1] == rest[k]);
                }
            }
        } else {
            assert(last == n);
            if n.parent_id is Some && has_node(ns, n.parent_id->0) && !seen.contains(
                n.parent_id->0,
            ) {
                assert(more.contains(n.parent_id->0));
                assert(line[0].id == n.parent_id->0);
            }
        }
    }
}

/// A node's lineage is the node, its parent, that one's parent and so on, each once, up to one
/// whose parent is missing or was met before; of an id that names no node it is empty.
pub proof fn law_a_lineage_leads_up(ns: Seq<NodeView>, id: Seq<char>)
    ensures
        lineage(ns, id).len() > 0 <==> has_node(ns, id),
        lineage(ns, id).len() > 0 ==> lineage(ns, id)[0] == id,
        forall|k: int|
            0 <= k < lineage(ns, id).len() ==> has_node(ns, #[trigger] lineage(ns, id)[k]),
        forall|k: int, l: int|
            0 <= k < lineage(ns, id).len() && l == k + 1 && l < lineage(ns, id).len() ==> last_node(
                ns,
                #[trigger] lineage(ns, id)[k],
            )->0.parent_id == Some(#[trigger] lineage(ns, id)[l]),
        lineage(ns, id).len() > 0 ==> ({
            let up = last_node(ns, lineage(ns, id).last())->0.parent_id;
            up is None || !has_node(ns, up->0) || lineage(ns, id).contains(up->0)
        }),
        lineage(ns, id).no_duplicates(),
{
    let none = Seq::<Seq<char>>::empty();
    lemma_way_up(ns, Some(id), none);
    let line = chain(ns, Some(id), none);
    let ids = lineage(ns, id);
    assert forall|k: int| 0 <= k < ids.len() implies has_node(ns, #[trigger] ids[k]) by {
        assert(last_node(ns, line[k].id) == Some(line[k]));
        lemma_lookups(ns, line[k].id);
    }
    assert forall|k: int, l: int| 0 <= k < ids.len() && l == k + 1 && l < ids.len() implies last_node(
        ns,
        #[trigger] ids[k],
    )->0.parent_id == Some(#[trigger] ids[l]) by {
        assert(last_node(ns, line[k].id) == Some(line[k]));
        assert(line[k].parent_id == Some(line[l].id));
    }
    assert forall|i: int, j: int| 0 <= i < ids.len() && 0 <= j < ids.len() && i != j implies ids[i]
        != ids[j] by {
        if i < j {
            assert(line[i].id != line[j].id);
        } else {
            assert(line[j].id != line[i].id);
        }
    }
    if ids.len() > 0 {
        let last = line.last();
        assert(last_node(ns, line[line.len() - 1].id) == Some(last));
        if last.parent_id is Some && has_node(ns, last.parent_id->0) {
            let k = choose|k: int|
                0 <= k < line.len() && (#[trigger] line[k]).id == last.parent_id->0;
            assert(ids[k] == last.parent_id->0);
        }
    }
}

/// What a node inherits its directives from is its lineage above it, in order: those nodes that
/// have directives, with all of them.
pub proof fn law_directives_are_inherited_from_above(ns: Seq<NodeView>, id: Seq<char>)
    ensures
        ({
            let up = crate::model::ancestors(ns, id);
            let given = crate::model::all_handed_down(up);
            &&& has_node(ns, id) && last_node(ns, id)->0.parent_id is Some ==> node_ids(up) == lineage(
                ns,
                last_node(ns, id)->0.parent_id->0,
            )
            &&& !has_node(ns, id) || last_node(ns, id)->0.parent_id is None ==> up.len() == 0
            &&& given == up.filter(|n: NodeView| n.directives.len() > 0).map_values(
                |n: NodeView|
                    crate::model::InheritedDirectivesView {
                        node_id: n.id,
                        name: n.name,
                        directives: n.directives,
                    },
            )
        }),
{
    lemma_lookups(ns, id);
    lemma_handed_down(crate::model::ancestors(ns, id));
}

proof fn lemma_handed_down(up: Seq<NodeView>)
    ensures
        crate::model::all_handed_down(up) == up.filter(
            |n: NodeView| n.directives.len() > 0,
        ).map_values(
            |n: NodeView|
                crate::model::InheritedDirectivesView {
                    node_id: n.id,
                    name: n.name,
                    directives: n.directives,
                },
        ),
    decreases up.len(),
{
    reveal(Seq::filter);
    let f = |n: NodeView| n.directives.len() > 0;
    let g = |n: NodeView|
        crate::model::InheritedDirectivesView {
            node_id: n.id,
            name: n.name,
            directives: n.directives,
        };
    if up.len() > 0 {
        let d = up.drop_last();
        lemma_handed_down(d);
        if f(up.last()) {
            assert(d.filter(f).push(up.last()).map_values(g) =~= d.filter(f).map_values(g).push(
                g(up.last()),
            ));
        }
    } else {
        assert(up.filter(f).map_values(g) =~= Seq::empty());
    }
}

proof fn lemma_climb(ns: Seq<NodeView>, id: Seq<char>, seen: Seq<Seq<char>>)
    requires
        has_node(ns, id),
        !seen.contains(id),
    ensures
        ({
            let line = chain(ns, Some(id), seen);
            let up = line.last().parent_id;
            &&& line.len() > 0
            &&& climb(ns, id, seen) == if up is Some && has_node(ns, up->0) {
                line.len()
            } else {
                (line.len() - 1) as nat
            }
        }),
    decreases unseen(ns, seen),
{
    lemma_lookups(ns, id);
    let n = last_node(ns, id)->0;
    lemma_unseen_shrinks(ns, seen, id);
    let more = seen.push(id);
    let rest = chain(ns, n.parent_id, more);
    let line = chain(ns, Some(id), seen);
    assert(line =~= seq![n] + rest);
    if n.parent_id is Some {
        let q = n.parent_id->0;
        lemma_lookups(ns, q);
        if has_node(ns, q) {
            if more.contains(q) {
                assert(rest.len() == 0);
                assert(climb(ns, q, more) == 0);
            } else {
                lemma_climb(ns, q, more);
                assert(line.last() == rest.last());
            }
        } else {
            assert(rest.len() == 0);
        }
    } else {
        assert(rest.len() == 0);
    }
}

/// A node stands as deep as its lineage has nodes above it; where the way up closes on itself
/// one deeper.
pub proof fn law_how_deep_a_node_stands(ns: Seq<NodeView>, id: Seq<char>)
    requires
        has_node(ns, id),
    ensures
        ({
            let line = lineage(ns, id);
            let up = last_node(ns, line.last())->0.parent_id;
            depth(ns, id) == if up is Some && has_node(ns, up->0) {
                line.len()
            } else {
                (line.len() - 1) as nat
            }
        }),
{
    let none = Seq::<Seq<char>>::empty();
    lemma_climb(ns, id, none);
    lemma_way_up(ns, Some(id), none);
    let line = chain(ns, Some(id), none);
    assert(last_node(ns, line[line.len() - 1].id) == Some(line.last()));
}

// ---- the finest node --------------------------------------------------------------------

/// Does the node map the location: has it, or one of its claims, an anchor at the file, and at
/// the symbol where one is asked for?
pub open spec fn maps(
    m: ScryModelView,
    n: NodeView,
    file: Seq<char>,
    symbol: Option<Seq<char>>,
) -> bool {
    ||| maps_at(m, n.id, file, symbol)
    ||| exists|k: int|
        0 <= k < n.responsibilities.len() && maps_at(
            m,
            (#[trigger] n.responsibilities[k]).id,
            file,
            symbol,
        )
}

/// Has the key an anchor there?
pub open spec fn maps_at(
    m: ScryModelView,
    key: Seq<char>,
    file: Seq<char>,
    symbol: Option<Seq<char>>,
) -> bool {
    m.source_map.contains_key(key) && exists|i: int|
        0 <= i < m.source_map[key].len() && (#[trigger] m.source_map[key][i]).pattern == file && (
        symbol is Some ==> m.source_map[key][i].symbol == symbol)
}

proof fn lemma_mapping(
    m: ScryModelView,
    ns: Seq<NodeView>,
    file: Seq<char>,
    symbol: Option<Seq<char>>,
)
    ensures
        mapping(m.source_map, ns, file, symbol) == ns.filter(
            |n: NodeView| maps(m, n, file, symbol),
        ).map_values(|n: NodeView| n.id),
    decreases ns.len(),
{
    reveal(Seq::filter);
    let f = |n: NodeView| maps(m, n, file, symbol);
    let g = |n: NodeView| n.id;
    if ns.len() > 0 {
        let d = ns.drop_last();
        let n = ns.last();
        lemma_mapping(m, d, file, symbol);
        assert(key_at(m.source_map, n.id, file, symbol) == maps_at(m, n.id, file, symbol));
        assert(claims_at(m.source_map, n.responsibilities, file, symbol) == exists|k: int|
            0 <= k < n.responsibilities.len() && maps_at(
                m,
                (#[trigger] n.responsibilities[k]).id,
                file,
                symbol,
            )) by {
            assert forall|k: int| 0 <= k < n.responsibilities.len() implies key_at(
                m.source_map,
                (#[trigger] n.responsibilities[k]).id,
                file,
                symbol,
            ) == maps_at(m, n.responsibilities[k].id, file, symbol) by {}
            if claims_at(m.source_map, n.responsibilities, file, symbol) {
                let k = choose|k: int|
                    0 <= k < n.responsibilities.len() && key_at(
                        m.source_map,
                        (#[trigger] n.responsibilities[k]).id,
                        file,
                        symbol,
                    );
                assert(maps_at(m, n.responsibilities[k].id, file, symbol));
            }
        }
        if f(n) {
            assert(d.filter(f).push(n).map_values(g) =~= d.filter(f).map_values(g).push(g(n)));
        }
    } else {
        assert(ns.filter(f).map_values(g) =~= Seq::empty());
    }
}

proof fn lemma_top_depth(ns: Seq<NodeView>, ids: Seq<Seq<char>>)
    ensures
        forall|i: int| 0 <= i < ids.len() ==> depth(ns, #[trigger] ids[i]) <= top_depth(ns, ids),
        ids.len() > 0 ==> exists|i: int|
            0 <= i < ids.len() && depth(ns, #[trigger] ids[i]) == top_depth(ns, ids),
        at_depth(ns, ids, top_depth(ns, ids)) == ids.filter(
            |x: Seq<char>| depth(ns, x) == top_depth(ns, ids),
        ),
    decreases ids.len(),
{
    lemma_at_depth(ns, ids, top_depth(ns, ids));
    if ids.len() > 0 {
        let d = ids.drop_last();
        lemma_top_depth(ns, d);
        assert(ids[ids.len() - 1] == ids.last());
        assert forall|i: int| 0 <= i < ids.len() implies depth(ns, #[trigger] ids[i]) <= top_depth(
            ns,
            ids,
        ) by {
            if i < d.len() {
                assert(d[i] == ids[i]);
            }
        }
        if depth(ns, ids.last()) > top_depth(ns, d) || d.len() == 0 {
            assert(depth(ns, ids[ids.len() - 1]) == top_depth(ns, ids));
        } else {
            let i = choose|i: int|
                0 <= i < d.len() && depth(ns, #[trigger] d[i]) == top_depth(ns, d);
            assert(depth(ns, ids[i]) == top_depth(ns, ids));
        }
    }
}

proof fn lemma_at_depth(ns: Seq<NodeView>, ids: Seq<Seq<char>>, d: nat)
    ensures
        at_depth(ns, ids, d) == ids.filter(|x: Seq<char>| depth(ns, x) == d),
    decreases ids.len(),
{
    reveal(Seq::filter);
    if ids.len() > 0 {
        lemma_at_depth(ns, ids.drop_last(), d);
    }
}

proof fn lemma_meeting(ns: Seq<NodeView>, ids: Seq<Seq<char>>, line: Seq<Seq<char>>)
    ensures
        meeting(ns, ids, line) is None <==> forall|k: int|
            0 <= k < line.len() ==> !above_all(ns, ids, #[trigger] line[k]),
        meeting(ns, ids, line) is Some ==> exists|k: int|
            0 <= k < line.len() && #[trigger] line[k] == meeting(ns, ids, line)->0 && above_all(
                ns,
                ids,
                line[k],
            ) && forall|j: int| 0 <= j < k ==> !above_all(ns, ids, #[trigger] line[j]),
    decreases line.len(),
{
    if line.len() > 0 {
        let t = line.drop_first();
        lemma_meeting(ns, ids, t);
        if !above_all(ns, ids, line[0]) {
            if meeting(ns, ids, t) is Some {
                let k = choose|k: int|
                    0 <= k < t.len() && #[trigger] t[k] == meeting(ns, ids, t)->0 && above_all(
                        ns,
                        ids,
                        t[k],
                    ) && forall|j: int| 0 <= j < k ==> !above_all(ns, ids, #[trigger] t[j]);
                assert(line[k + 1] == t[k]);
                assert forall|j: int| 0 <= j < k + 1 implies !above_all(ns, ids, #[trigger] line[j]) by {
                    if j > 0 {
                        assert(line[j] == t[j - 1]);
                    }
                }
            } else {
                assert forall|k: int| 0 <= k < line.len() implies !above_all(
                    ns,
                    ids,
                    #[trigger] line[k],
                ) by {
                    if k > 0 {
                        assert(line[k] == t[k - 1]);
                    }
                }
            }
        } else {
            assert(line[0] == meeting(ns, ids, line)->0);
        }
    }
}

/// The nodes that map the location, in order.
pub open spec fn ids_there(
    m: ScryModelView,
    file: Seq<char>,
    symbol: Option<Seq<char>>,
) -> Seq<Seq<char>> {
    m.nodes.filter(|n: NodeView| maps(m, n, file, symbol)).map_values(|n: NodeView| n.id)
}

/// The nodes that map the location with its symbol, or without any those that map the file.
pub open spec fn ids_meant(
    m: ScryModelView,
    file: Seq<char>,
    symbol: Option<Seq<char>>,
) -> Seq<Seq<char>> {
    if ids_there(m, file, symbol).len() > 0 {
        ids_there(m, file, symbol)
    } else {
        ids_there(m, file, None)
    }
}

/// The finest node at a location: of the nodes that map it, with its symbol where any does, those
/// that stand deepest; where they are one, that one; where they are several, the first of the
/// lineage of the first of them that is in the lineage of all. Without any, or without such, it is
/// the fallback.
pub proof fn law_which_node_is_finest(
    m: ScryModelView,
    fallback: Seq<char>,
    file: Seq<char>,
    symbol: Option<Seq<char>>,
)
    ensures
        ({
            let all = ids_meant(m, file, symbol);
            let x = finest(m, fallback, file, symbol);
            let deepest = |d: Seq<char>|
                all.contains(d) && forall|i: int|
                    0 <= i < all.len() ==> depth(m.nodes, #[trigger] all[i]) <= depth(m.nodes, d);
            let common = |y: Seq<char>|
                forall|i: int|
                    0 <= i < all.len() && deepest(#[trigger] all[i]) ==> lineage(
                        m.nodes,
                        all[i],
                    ).contains(y);
            &&& all.len() == 0 ==> x == fallback
            &&& all.len() > 0 ==> {
                ||| common(x) && forall|d: Seq<char>| #[trigger] deepest(d) ==> lineage(m.nodes, d).contains(x)
                ||| x == fallback
            }
        }),
{
    lemma_mapping(m, m.nodes, file, symbol);
    lemma_mapping(m, m.nodes, file, None);
    let all = mappers(m, file, symbol);
    let ns = m.nodes;
    let top = top_depth(ns, all);
    lemma_top_depth(ns, all);
    let ds = at_depth(ns, all, top);
    let f = |x: Seq<char>| depth(ns, x) == top;
    let deepest = |d: Seq<char>|
        all.contains(d) && forall|i: int|
            0 <= i < all.len() ==> depth(ns, #[trigger] all[i]) <= depth(ns, d);
    if all.len() > 0 {
        let i = choose|i: int| 0 <= i < all.len() && depth(ns, #[trigger] all[i]) == top;
        all.lemma_filter_contains(f, i);
        assert(ds.contains(all[i]));
        let line = lineage(ns, ds[0]);
        lemma_meeting(ns, ds, line);
        let x = finest(m, fallback, file, symbol);
        if meeting(ns, ds, line) is Some {
            assert(above_all(ns, ds, x));
            assert forall|d: Seq<char>| #[trigger] deepest(d) implies lineage(ns, d).contains(x) by {
                let k = choose|k: int| 0 <= k < all.len() && all[k] == d;
                assert(depth(ns, all[i]) <= depth(ns, d));
                assert(depth(ns, all[k]) <= top);
                all.lemma_filter_contains(f, k);
                assert(ds.contains(all[k]));
                let q = choose|q: int| 0 <= q < ds.len() && ds[q] == d;
                assert(lineage(ns, ds[q]).contains(x));
            }
            assert forall|k: int| 0 <= k < all.len() && deepest(#[trigger] all[k]) implies lineage(
                ns,
                all[k],
            ).contains(x) by {
                assert(deepest(all[k]));
            }
        }
    } else {
        reveal(Seq::filter);
        assert(ds.len() == 0);
    }
}

/// Where one node alone stands deepest of those that map a location, it is the finest.
pub proof fn law_the_deepest_node_is_finest(
    m: ScryModelView,
    fallback: Seq<char>,
    file: Seq<char>,
    symbol: Option<Seq<char>>,
    d: Seq<char>,
)
    requires
        has_node(m.nodes, d),
        ({
            let all = ids_meant(m, file, symbol);
            &&& all.contains(d)
            &&& forall|i: int|
                0 <= i < all.len() && #[trigger] all[i] != d ==> depth(m.nodes, all[i]) < depth(
                    m.nodes,
                    d,
                )
        }),
    ensures
        finest(m, fallback, file, symbol) == d,
{
    lemma_mapping(m, m.nodes, file, symbol);
    lemma_mapping(m, m.nodes, file, None);
    let all = mappers(m, file, symbol);
    assert(all == ids_meant(m, file, symbol));
    let ns = m.nodes;
    let top = top_depth(ns, all);
    lemma_top_depth(ns, all);
    let ds = at_depth(ns, all, top);
    let f = |x: Seq<char>| depth(ns, x) == top;
    let k = choose|k: int| 0 <= k < all.len() && all[k] == d;
    let i = choose|i: int| 0 <= i < all.len() && depth(ns, #[trigger] all[i]) == top;
    assert(depth(ns, all[k]) <= top);
    assert(depth(ns, d) == top);
    all.lemma_filter_contains(f, k);
    assert(ds.contains(d));
    assert forall|q: int| 0 <= q < ds.len() implies #[trigger] ds[q] == d by {
        all.lemma_filter_pred(f, q);
        lemma_filtered_from(all, f, q);
        let j = choose|j: int| 0 <= j < all.len() && all[j] == ds[q];
        assert(f(ds[q]));
        if all[j] != d {
            assert(depth(ns, all[j]) < depth(ns, d));
        }
    }
    law_a_lineage_leads_up(ns, d);
    let line = lineage(ns, d);
    assert(ds[0] == d);
    assert(line.contains(line[0]));
    assert(above_all(ns, ds, line[0]));
}

proof fn lemma_filtered_from(s: Seq<Seq<char>>, f: spec_fn(Seq<char>) -> bool, q: int)
    requires
        0 <= q < s.filter(f).len(),
    ensures
        s.contains(s.filter(f)[q]),
    decreases s.len(),
{
    reveal(Seq::filter);
    let d = s.drop_last();
    if q < d.filter(f).len() {
        lemma_filtered_from(d, f, q);
        let i = choose|i: int| 0 <= i < d.len() && d[i] == d.filter(f)[q];
        assert(s[i] == d[i]);
    } else {
        assert(s[s.len() - 1] == s.last());
    }
}

// ---- the owner by boundary --------------------------------------------------------------

/// The node that owns a file by its boundary is told by its id, name and kind: one that owns it,
/// such that no node that owns it stands deeper.
pub proof fn law_who_owns_by_boundary(m: ScryModelView, file: Seq<char>)
    requires
        m.boundaries.dom().finite(),
    ensures
        ({
            let rows = boundary_rows(m.boundaries, node_ids(m.nodes));
            let o = boundary_owner_of(m, file);
            &&& o is Some <==> exists|id: Seq<char>| #[trigger] owned(rows, id, file)
            &&& o is Some ==> {
                &&& owned(rows, o->0.id, file)
                &&& forall|id: Seq<char>| #[trigger]
                    owned(rows, id, file) ==> depth(m.nodes, id) <= depth(m.nodes, o->0.id)
                &&& first::<Node>(m.nodes, o->0.id) is Some
                &&& o->0.name == first::<Node>(m.nodes, o->0.id)->0.name
                &&& o->0.kind == first::<Node>(m.nodes, o->0.id)->0.kind
            }
        }),
{
    let rows = boundary_rows(m.boundaries, node_ids(m.nodes));
    let ks = ascending(m.boundaries.dom());
    crate::text::lemma_ascending_of(m.boundaries.dom());
    let os = owners_of(rows, ks, file);
    lemma_owners(rows, ks, file);
    assert forall|id: Seq<char>| #[trigger] owned(rows, id, file) <==> os.contains(id) by {
        if owned(rows, id, file) {
            let i = choose|i: int| 0 <= i < rows.len() && (#[trigger] rows[i]).0 == id && wins(
                rows,
                i,
                file,
            );
            let p = rows[i].1;
            assert(rows[i] == (id, p));
            assert(rows.contains((id, p)));
            lemma_row_in(m.boundaries, ks, node_ids(m.nodes), id, p);
            assert(ks.contains(id));
            let q = choose|q: int| 0 <= q < ks.len() && ks[q] == id;
            let f = |x: Seq<char>| owned(rows, x, file);
            ks.lemma_filter_contains(f, q);
            assert(os.contains(ks[q]));
        }
        if os.contains(id) {
            let q = choose|q: int| 0 <= q < os.len() && os[q] == id;
            let f = |x: Seq<char>| owned(rows, x, file);
            ks.lemma_filter_pred(f, q);
            assert(f(os[q]));
        }
    }
    lemma_top_depth(m.nodes, os);
    let top = top_depth(m.nodes, os);
    let ds = at_depth(m.nodes, os, top);
    let f = |x: Seq<char>| depth(m.nodes, x) == top;
    if os.len() > 0 {
        let i = choose|i: int| 0 <= i < os.len() && depth(m.nodes, #[trigger] os[i]) == top;
        os.lemma_filter_contains(f, i);
        assert(ds.contains(os[i]));
        assert(os.contains(os[i]));
        os.lemma_filter_pred(f, 0);
        lemma_filtered_from(os, f, 0);
        let x = ds[0];
        assert(f(x));
        assert(os.contains(x));
        assert(owned(rows, x, file));
        let j = choose|j: int| 0 <= j < rows.len() && (#[trigger] rows[j]).0 == x && wins(
            rows,
            j,
            file,
        );
        assert(rows[j] == (x, rows[j].1));
        assert(rows.contains((x, rows[j].1)));
        lemma_row_in(m.boundaries, ks, node_ids(m.nodes), x, rows[j].1);
        let live = node_ids(m.nodes);
        let q = choose|q: int| 0 <= q < live.len() && live[q] == x;
        assert(Node::name_of(m.nodes[q]) == x);
        crate::named::lemma_place_of::<Node>(m.nodes, x);
        assert(Node::name_of(first::<Node>(m.nodes, x)->0) == x);
        assert forall|id: Seq<char>| #[trigger] owned(rows, id, file) implies depth(m.nodes, id)
            <= depth(m.nodes, x) by {
            assert(os.contains(id));
            let w = choose|w: int| 0 <= w < os.len() && os[w] == id;
            assert(depth(m.nodes, os[w]) <= top);
        }
    } else {
        reveal(Seq::filter);
        assert(ds.len() == 0);
        assert forall|id: Seq<char>| !(#[trigger] owned(rows, id, file)) by {
            if owned(rows, id, file) {
                assert(os.contains(id));
            }
        }
    }
}

proof fn lemma_owners(
    rows: Seq<(Seq<char>, Seq<char>)>,
    ids: Seq<Seq<char>>,
    file: Seq<char>,
)
    ensures
        owners_of(rows, ids, file) == ids.filter(|x: Seq<char>| owned(rows, x, file)),
    decreases ids.len(),
{
    reveal(Seq::filter);
    if ids.len() > 0 {
        lemma_owners(rows, ids.drop_last(), file);
    }
}

/// A location is told to be owned by the finest node there and the nodes above it, in the order of
/// its lineage, with the first of their names and kinds; its directives are told, and those that
/// it inherits.
pub proof fn law_the_owners_of_a_location(
    m: ScryModelView,
    file: Seq<char>,
    symbol: Option<Seq<char>>,
)
    requires
        names_differ::<Node>(m.nodes),
    ensures
        ({
            let r = crate::locate::located_at(m, file, symbol);
            let fallback = match r.boundary_owner {
                Some(o) => o.id,
                None => Seq::empty(),
            };
            let x = finest(m, fallback, file, symbol);
            let line = if x.len() == 0 {
                Seq::empty()
            } else {
                lineage(m.nodes, x)
            };
            &&& r.boundary_owner == boundary_owner_of(m, file)
            &&& r.owner_chain.len() == line.len()
            &&& forall|k: int|
                0 <= k < line.len() ==> (#[trigger] r.owner_chain[k]).id == line[k]
                    && r.owner_chain[k].name == last_node(m.nodes, line[k])->0.name
                    && r.owner_chain[k].kind == last_node(m.nodes, line[k])->0.kind
            &&& line.len() > 0 ==> r.own_directives == last_node(m.nodes, x)->0.directives
            &&& line.len() > 0 ==> r.inherited_directives == crate::model::all_handed_down(
                crate::model::ancestors(m.nodes, x),
            )
            &&& line.len() == 0 ==> r.own_directives.len() == 0 && r.inherited_directives.len() == 0
        }),
{
    let r = crate::locate::located_at(m, file, symbol);
    let fallback = match r.boundary_owner {
        Some(o) => o.id,
        None => Seq::empty(),
    };
    let x = finest(m, fallback, file, symbol);
    if x.len() > 0 {
        law_a_lineage_leads_up(m.nodes, x);
        lemma_owner_links(m.nodes, lineage(m.nodes, x));
        if lineage(m.nodes, x).len() > 0 {
            lemma_first_is_last(m.nodes, x);
        }
    }
}

proof fn lemma_first_is_last(ns: Seq<NodeView>, x: Seq<char>)
    requires
        names_differ::<Node>(ns),
        has_node(ns, x),
    ensures
        first::<Node>(ns, x) == last_node(ns, x),
        last_node(ns, x) is Some,
{
    let i = choose|i: int| 0 <= i < ns.len() && (#[trigger] ns[i]).id == x;
    crate::named::lemma_place_of::<Node>(ns, x);
    assert(Node::name_of(ns[i]) == x);
    let k = crate::named::place_of::<Node>(ns, x);
    if k != i {
        assert(Node::name_of(ns[k]) != Node::name_of(ns[i]));
    }
    assert forall|j: int| i < j < ns.len() implies (#[trigger] ns[j]).id != x by {
        assert(Node::name_of(ns[j]) != Node::name_of(ns[i]));
    }
    lemma_last_node(ns, x, i);
}

proof fn lemma_owner_links(ns: Seq<NodeView>, ids: Seq<Seq<char>>)
    requires
        names_differ::<Node>(ns),
        forall|k: int| 0 <= k < ids.len() ==> has_node(ns, #[trigger] ids[k]),
    ensures
        ({
            let os = crate::locate::owner_links(ns, ids);
            &&& os.len() == ids.len()
            &&& forall|k: int|
                0 <= k < ids.len() ==> (#[trigger] os[k]).id == ids[k] && os[k].name == last_node(
                    ns,
                    ids[k],
                )->0.name && os[k].kind == last_node(ns, ids[k])->0.kind
        }),
    decreases ids.len(),
{
    if ids.len() > 0 {
        let d = ids.drop_last();
        assert forall|k: int| 0 <= k < d.len() implies has_node(ns, #[trigger] d[k]) by {
            assert(ids[k] == d[k]);
        }
        lemma_owner_links(ns, d);
        let x = ids.last();
        assert(has_node(ns, ids[ids.len() - 1]));
        lemma_first_is_last(ns, x);
        lemma_lookups(ns, x);
        let os = crate::locate::owner_links(ns, ids);
        let before = crate::locate::owner_links(ns, d);
        assert forall|k: int| 0 <= k < ids.len() implies (#[trigger] os[k]).id == ids[k] && os[k].name
            == last_node(ns, ids[k])->0.name && os[k].kind == last_node(ns, ids[k])->0.kind by {
            if k < d.len() {
                assert(os[k] == before[k]);
                assert(before[k].id == d[k]);
            }
        }
    }
}

} // verus!
