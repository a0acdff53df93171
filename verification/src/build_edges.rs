//! The code's own dependency graph, joined onto the model as evidence.
//!
//! Links between nodes live in the model and nowhere else. The graph that was
//! extracted from the code never becomes a second set of edges: it says how many
//! code edges back each declared link, and which siblings the code connects that no
//! link covers.

use crate::counter::{
    lemma_count_at, lemma_counted, lemma_list_irreflexive, lemma_list_transitive, list_lt, tidy,
    Counter,
};
use crate::model::{
    chain, find_last_node, last_node, lemma_lookups, lemma_unseen_shrinks, unseen, Kind, Link,
    LinkView, Node, NodeView, Responsibility, ResponsibilityView, ScryModel, ScryModelView,
    SourceLocation, SourceLocationView,
};
use crate::modelled::{at, fresh, put, Modelled};
use crate::ownership::{
    boundaries_slashed, boundary_rows, depth, glob_covers, lemma_boundary_rows_slashed, lineage,
    matched, node_ancestry, node_depth, node_ids, outranks, owned, pattern_rank, rank_of,
    ranks_above, rows_slashed, slashed, wins, BoundaryOwnership,
};
use crate::strmap::StrMap;
use crate::text::{ascending, before, chars_of, first_place, holds, lex_lt, same_text, split_once};
use vstd::prelude::*;
use vstd::string::*;

verus! {

// ---- symbol keys ----------------------------------------------------------------------

/// What stands before the last `c`, if there is one.
pub open spec fn before_last(s: Seq<char>, c: char) -> Option<Seq<char>>
    decreases s.len(),
{
    if s.len() == 0 {
        None
    } else if s.last() == c {
        Some(s.drop_last())
    } else {
        before_last(s.drop_last(), c)
    }
}

/// The name in what follows a symbol key's path: without the `@line` at its end.
pub open spec fn name_in(rest: Seq<char>) -> Seq<char> {
    match before_last(rest, '@') {
        Some(n) => n,
        None => rest,
    }
}

/// A symbol key `path#name@line` taken apart: path and name.
pub open spec fn key_parts(key: Seq<char>) -> Option<(Seq<char>, Seq<char>)> {
    if key.contains('#') {
        let i = first_place(key, '#');
        Some((key.take(i), name_in(key.skip(i + 1))))
    } else {
        None
    }
}

/// A directed edge between two places in the source.
#[derive(Debug, PartialEq, Eq)]
pub struct CachedEdge {
    pub src: String,
    pub dst: String,
}

/// The model of a [`CachedEdge`].
#[verifier::ext_equal]
pub struct CachedEdgeView {
    pub src: Seq<char>,
    pub dst: Seq<char>,
}

impl DeepView for CachedEdge {
    type V = CachedEdgeView;

    open spec fn deep_view(&self) -> CachedEdgeView {
        CachedEdgeView { src: self.src@, dst: self.dst@ }
    }
}

impl Modelled for CachedEdge {
    fn dup(&self) -> (r: Self) {
        CachedEdge { src: self.src.dup(), dst: self.dst.dup() }
    }

    fn same(&self, other: &Self) -> (r: bool) {
        self.src.same(&other.src) && self.dst.same(&other.dst)
    }
}

impl Clone for CachedEdge {
    fn clone(&self) -> (r: Self)
        ensures
            r.deep_view() == self.deep_view(),
    {
        self.dup()
    }
}

/// The dependency graph of a whole project.
#[derive(Debug, PartialEq, Eq)]
pub struct BuildEdges {
    /// Edges from symbol to symbol, by keys `path#name@line`.
    pub symbol_edges: Vec<CachedEdge>,
}

impl Default for BuildEdges {
    fn default() -> (r: Self)
        ensures
            r.symbol_edges@.len() == 0,
    {
        BuildEdges { symbol_edges: Vec::new() }
    }
}

impl Clone for BuildEdges {
    fn clone(&self) -> (r: Self)
        ensures
            r.symbol_edges.deep_view() == self.symbol_edges.deep_view(),
    {
        BuildEdges { symbol_edges: self.symbol_edges.dup() }
    }
}

impl BuildEdges {
    /// A symbol key `path#name@line` taken apart. The line only tells apart the
    /// definitions of one name in one file, and is dropped.
    pub fn split_symbol_key(key: &str) -> (r: Option<(&str, &str)>)
        ensures
            match r {
                Some((path, name)) => key_parts(key@) == Some((path@, name@)),
                None => key_parts(key@) is None,
            },
    {
        match split_once(key, '#') {
            None => None,
            Some((path, rest)) => {
                let v = chars_of(rest);
                let mut i: usize = v.len();
                assert(v@.take(v@.len() as int) =~= v@);
                while i > 0
                    invariant
                        i <= v@.len(),
                        v@ == rest@,
                        before_last(rest@, '@') == before_last(v@.take(i as int), '@'),
                        key_parts(key@) == Some((path@, name_in(rest@))),
                    decreases i,
                {
                    i -= 1;
                    assert(v@.take(i + 1).drop_last() =~= v@.take(i as int));
                    assert(v@.take(i + 1).last() == v@[i as int]);
                    if v[i] == '@' {
                        let name = rest.substring_char(0, i);
                        assert(name@ =~= v@.take(i as int));
                        return Some((path, name));
                    }
                }
                Some((path, rest))
            },
        }
    }
}

// ---- what is derived --------------------------------------------------------------------

/// Two siblings that the code connects and no link covers.
#[derive(Debug, PartialEq, Eq)]
pub struct DerivedEdge {
    pub src: String,
    pub dst: String,
    /// How many code edges connect them.
    pub count: u32,
}

/// The model of a [`DerivedEdge`].
#[verifier::ext_equal]
pub struct DerivedEdgeView {
    pub src: Seq<char>,
    pub dst: Seq<char>,
    pub count: nat,
}

impl DeepView for DerivedEdge {
    type V = DerivedEdgeView;

    open spec fn deep_view(&self) -> DerivedEdgeView {
        DerivedEdgeView { src: self.src@, dst: self.dst@, count: self.count as nat }
    }
}

/// How many code edges cross from a link's source subtree into its target's. None:
/// the link is asserted only, which it may be rightly (a call at run time, say).
#[derive(Debug, PartialEq, Eq)]
pub struct LinkAudit {
    pub link_id: String,
    pub edge_count: u32,
}

/// The model of a [`LinkAudit`].
#[verifier::ext_equal]
pub struct LinkAuditView {
    pub link_id: Seq<char>,
    pub edge_count: nat,
}

impl DeepView for LinkAudit {
    type V = LinkAuditView;

    open spec fn deep_view(&self) -> LinkAuditView {
        LinkAuditView { link_id: self.link_id@, edge_count: self.edge_count as nat }
    }
}

/// One code edge with both ends resolved to a node and the symbol in it.
#[derive(Debug, PartialEq, Eq)]
pub struct ResolvedEdge {
    pub src_node: String,
    pub src_symbol: String,
    pub dst_node: String,
    pub dst_symbol: String,
    /// How many code edges resolve so.
    pub count: u32,
}

/// The model of a [`ResolvedEdge`].
#[verifier::ext_equal]
pub struct ResolvedEdgeView {
    pub src_node: Seq<char>,
    pub src_symbol: Seq<char>,
    pub dst_node: Seq<char>,
    pub dst_symbol: Seq<char>,
    pub count: nat,
}

impl DeepView for ResolvedEdge {
    type V = ResolvedEdgeView;

    open spec fn deep_view(&self) -> ResolvedEdgeView {
        ResolvedEdgeView {
            src_node: self.src_node@,
            src_symbol: self.src_symbol@,
            dst_node: self.dst_node@,
            dst_symbol: self.dst_symbol@,
            count: self.count as nat,
        }
    }
}

/// What the code says about the model's links.
#[derive(Debug, PartialEq, Eq)]
pub struct DerivedGraph {
    /// One entry per declared link.
    pub link_audit: Vec<LinkAudit>,
    /// Siblings of one kind, above symbol level, that the code connects and no link
    /// covers in either direction. Sorted by source, then target.
    pub unmodeled: Vec<DerivedEdge>,
    /// Every code edge between two subtrees. Sorted by source node, target node,
    /// source symbol, target symbol.
    pub resolved_edges: Vec<ResolvedEdge>,
}

// ---- symbols ----------------------------------------------------------------------------

/// Who hosts a symbol: file, symbol and host of each anchor that names one.
pub open spec fn anchor_rows(
    locs: Seq<SourceLocationView>,
    host: Seq<char>,
) -> Seq<(Seq<char>, Seq<char>, Seq<char>)>
    decreases locs.len(),
{
    if locs.len() == 0 {
        Seq::empty()
    } else {
        let earlier = anchor_rows(locs.drop_last(), host);
        match locs.last().symbol {
            Some(sym) => earlier.push((locs.last().pattern, sym, host)),
            None => earlier,
        }
    }
}

/// The anchors at a key, hosted by `host`.
pub open spec fn rows_at(
    map: Map<Seq<char>, Seq<SourceLocationView>>,
    key: Seq<char>,
    host: Option<Seq<char>>,
) -> Seq<(Seq<char>, Seq<char>, Seq<char>)> {
    if host is Some && map.contains_key(key) {
        anchor_rows(map[key], host->0)
    } else {
        Seq::empty()
    }
}

/// The anchors of the nodes' own declarations, in order.
pub open spec fn declared_rows(
    map: Map<Seq<char>, Seq<SourceLocationView>>,
    ns: Seq<NodeView>,
) -> Seq<(Seq<char>, Seq<char>, Seq<char>)>
    decreases ns.len(),
{
    if ns.len() == 0 {
        Seq::empty()
    } else {
        declared_rows(map, ns.drop_last()) + rows_at(map, ns.last().id, Some(ns.last().id))
    }
}

/// Has a list of claims one called `id`?
pub open spec fn has_claim(rs: Seq<ResponsibilityView>, id: Seq<char>) -> bool {
    exists|i: int| 0 <= i < rs.len() && (#[trigger] rs[i]).id == id
}

/// The last node that hosts the claim.
pub open spec fn claim_host(ns: Seq<NodeView>, id: Seq<char>) -> Option<Seq<char>>
    decreases ns.len(),
{
    if ns.len() == 0 {
        None
    } else if has_claim(ns.last().responsibilities, id) {
        Some(ns.last().id)
    } else {
        claim_host(ns.drop_last(), id)
    }
}

/// The anchors of the claims at `keys`, hosted by the nodes of the claims.
pub open spec fn claimed_rows(
    map: Map<Seq<char>, Seq<SourceLocationView>>,
    ns: Seq<NodeView>,
    keys: Seq<Seq<char>>,
) -> Seq<(Seq<char>, Seq<char>, Seq<char>)>
    decreases keys.len(),
{
    if keys.len() == 0 {
        Seq::empty()
    } else {
        claimed_rows(map, ns, keys.drop_last()) + rows_at(
            map,
            keys.last(),
            claim_host(ns, keys.last()),
        )
    }
}

/// Who hosts each symbol, in order of precedence: declarations go before claims.
pub open spec fn symbol_rows(m: ScryModelView) -> Seq<(Seq<char>, Seq<char>, Seq<char>)> {
    declared_rows(m.source_map, m.nodes) + claimed_rows(
        m.source_map,
        m.nodes,
        ascending(m.source_map.dom()),
    )
}

/// The host of a symbol in a file: that of the first row that names both.
pub open spec fn symbol_host(
    rows: Seq<(Seq<char>, Seq<char>, Seq<char>)>,
    file: Seq<char>,
    name: Seq<char>,
) -> Option<Seq<char>>
    decreases rows.len(),
{
    if rows.len() == 0 {
        None
    } else if rows[0].0 == file && rows[0].1 == name {
        Some(rows[0].2)
    } else {
        symbol_host(rows.drop_first(), file, name)
    }
}

// ---- files ------------------------------------------------------------------------------

/// Does the first boundary row go before the second: the more specific pattern, then
/// the deeper owner, then the id?
pub open spec fn goes_before(
    ns: Seq<NodeView>,
    a: (Seq<char>, Seq<char>),
    b: (Seq<char>, Seq<char>),
) -> bool {
    ||| outranks(rank_of(a.1), rank_of(b.1))
    ||| rank_of(a.1) == rank_of(b.1) && depth(ns, a.0) > depth(ns, b.0)
    ||| rank_of(a.1) == rank_of(b.1) && depth(ns, a.0) == depth(ns, b.0) && lex_lt(a.0, b.0)
}

/// Of the rows that match the file, the one that none goes before.
pub open spec fn leading_row(
    ns: Seq<NodeView>,
    rows: Seq<(Seq<char>, Seq<char>)>,
    file: Seq<char>,
) -> Option<(Seq<char>, Seq<char>)>
    decreases rows.len(),
{
    if rows.len() == 0 {
        None
    } else {
        let lead = leading_row(ns, rows.drop_last(), file);
        let r = rows.last();
        if matched(r.1, file) && (lead is None || goes_before(ns, r, lead->0)) {
            Some(r)
        } else {
            lead
        }
    }
}

/// The node that a file falls to.
pub open spec fn file_owner(m: ScryModelView, file: Seq<char>) -> Option<Seq<char>> {
    match leading_row(m.nodes, boundary_rows(m.boundaries, node_ids(m.nodes)), file) {
        Some(r) => Some(r.0),
        None => None,
    }
}

/// The node that an endpoint resolves to: the host of its symbol, else the owner of
/// its file.
pub open spec fn resolved(m: ScryModelView, endpoint: Seq<char>) -> Option<Seq<char>> {
    match key_parts(endpoint) {
        None => None,
        Some((path, name)) => match symbol_host(symbol_rows(m), path, name) {
            Some(h) => Some(h),
            None => file_owner(m, path),
        },
    }
}

// ---- edges ------------------------------------------------------------------------------

/// The two nodes that an edge connects, where both ends resolve and differ.
pub open spec fn ends_of(m: ScryModelView, e: CachedEdgeView) -> Option<(Seq<char>, Seq<char>)> {
    let s = resolved(m, e.src);
    let d = resolved(m, e.dst);
    if s is Some && d is Some && s->0 != d->0 {
        Some((s->0, d->0))
    } else {
        None
    }
}

/// Does the edge lead from inside `a` into `b`, neither of them holding both ends?
pub open spec fn crosses(m: ScryModelView, e: CachedEdgeView, a: Seq<char>, b: Seq<char>) -> bool {
    match ends_of(m, e) {
        None => false,
        Some((s, d)) => {
            &&& lineage(m.nodes, s).contains(a)
            &&& !lineage(m.nodes, d).contains(a)
            &&& lineage(m.nodes, d).contains(b)
            &&& !lineage(m.nodes, s).contains(b)
        },
    }
}

/// How many of the edges lead from inside `a` into `b`.
pub open spec fn crossings(
    m: ScryModelView,
    es: Seq<CachedEdgeView>,
    a: Seq<char>,
    b: Seq<char>,
) -> nat
    decreases es.len(),
{
    if es.len() == 0 {
        0
    } else {
        crossings(m, es.drop_last(), a, b) + if crosses(m, es.last(), a, b) {
            1nat
        } else {
            0nat
        }
    }
}

/// The symbol in an endpoint.
pub open spec fn symbol_in(endpoint: Seq<char>) -> Seq<char> {
    match key_parts(endpoint) {
        Some((_, name)) => name,
        None => Seq::empty(),
    }
}

/// What an edge between two subtrees resolves to: its two nodes and its two symbols.
/// Nothing where one of the nodes holds the other.
pub open spec fn leaf_of(m: ScryModelView, e: CachedEdgeView) -> Option<Seq<Seq<char>>> {
    match ends_of(m, e) {
        None => None,
        Some((s, d)) => if lineage(m.nodes, s).contains(d) || lineage(m.nodes, d).contains(s) {
            None
        } else {
            Some(seq![s, d, symbol_in(e.src), symbol_in(e.dst)])
        },
    }
}

/// How many of the edges resolve so.
pub open spec fn leaf_count(
    m: ScryModelView,
    es: Seq<CachedEdgeView>,
    key: Seq<Seq<char>>,
) -> nat
    decreases es.len(),
{
    if es.len() == 0 {
        0
    } else {
        leaf_count(m, es.drop_last(), key) + if leaf_of(m, es.last()) == Some(key) {
            1nat
        } else {
            0nat
        }
    }
}

/// Is there a link from `a` to `b`?
pub open spec fn declared(ls: Seq<LinkView>, a: Seq<char>, b: Seq<char>) -> bool {
    exists|i: int| 0 <= i < ls.len() && (#[trigger] ls[i]).src == a && ls[i].dst == b
}

/// Are the two siblings of one kind above symbol level, with no link between them in
/// either direction?
pub open spec fn linkable(m: ScryModelView, a: Seq<char>, b: Seq<char>) -> bool {
    let na = last_node(m.nodes, a);
    let nb = last_node(m.nodes, b);
    &&& na is Some && nb is Some
    &&& na->0.kind == nb->0.kind
    &&& na->0.parent_id == nb->0.parent_id
    &&& na->0.kind != Kind::Symbol
    &&& !declared(m.links, a, b)
    &&& !declared(m.links, b, a)
}

/// The evidence for each declared link, in order.
pub open spec fn audit_of(
    m: ScryModelView,
    es: Seq<CachedEdgeView>,
    ls: Seq<LinkView>,
) -> Seq<LinkAuditView> {
    Seq::new(
        ls.len(),
        |i: int|
            LinkAuditView {
                link_id: ls[i].id,
                edge_count: crossings(m, es, ls[i].src, ls[i].dst),
            },
    )
}

/// Is this the list of the unmodelled connections: sorted, each pair once with its
/// count, and exactly the linkable pairs that some code edge crosses between?
pub open spec fn lists_unmodeled(
    m: ScryModelView,
    es: Seq<CachedEdgeView>,
    out: Seq<DerivedEdgeView>,
) -> bool {
    &&& forall|i: int, j: int|
        0 <= i < j < out.len() ==> list_lt(
            pair_of(#[trigger] out[i]),
            pair_of(#[trigger] out[j]),
        )
    &&& forall|i: int|
        0 <= i < out.len() ==> linkable(m, (#[trigger] out[i]).src, out[i].dst) && out[i].count
            == crossings(m, es, out[i].src, out[i].dst) && out[i].count > 0
    &&& forall|a: Seq<char>, b: Seq<char>|
        linkable(m, a, b) && #[trigger] crossings(m, es, a, b) > 0 ==> connects(out, a, b)
}

/// The pair that a derived edge connects.
pub open spec fn pair_of(e: DerivedEdgeView) -> Seq<Seq<char>> {
    seq![e.src, e.dst]
}

/// Does the list hold the pair?
pub open spec fn connects(out: Seq<DerivedEdgeView>, a: Seq<char>, b: Seq<char>) -> bool {
    exists|i: int| 0 <= i < out.len() && (#[trigger] out[i]).src == a && out[i].dst == b
}

/// What a resolved edge resolves to.
pub open spec fn leaf_key(e: ResolvedEdgeView) -> Seq<Seq<char>> {
    seq![e.src_node, e.dst_node, e.src_symbol, e.dst_symbol]
}

/// Is this the list of the resolved edges: sorted, each once with its count, and
/// exactly those that some code edge resolves to?
pub open spec fn lists_resolved(
    m: ScryModelView,
    es: Seq<CachedEdgeView>,
    out: Seq<ResolvedEdgeView>,
) -> bool {
    &&& forall|i: int, j: int|
        0 <= i < j < out.len() ==> list_lt(
            leaf_key(#[trigger] out[i]),
            leaf_key(#[trigger] out[j]),
        )
    &&& forall|i: int|
        0 <= i < out.len() ==> (#[trigger] out[i]).count == leaf_count(m, es, leaf_key(out[i]))
            && out[i].count > 0
    &&& forall|k: Seq<Seq<char>>| #[trigger]
        leaf_count(m, es, k) > 0 ==> exists|i: int|
            0 <= i < out.len() && leaf_key(#[trigger] out[i]) == k
}

/// Are the paths of the edges written with `/` alone?
pub open spec fn edges_slashed(es: Seq<CachedEdgeView>) -> bool {
    forall|i: int|
        0 <= i < es.len() ==> path_slashed((#[trigger] es[i]).src) && path_slashed(es[i].dst)
}

/// Is the path of an endpoint written with `/` alone?
pub open spec fn path_slashed(endpoint: Seq<char>) -> bool {
    match key_parts(endpoint) {
        Some((path, _)) => slashed(path),
        None => true,
    }
}

/// Can the counts be held, all of them?
pub open spec fn crossings_fit(m: ScryModelView, es: Seq<CachedEdgeView>) -> bool {
    &&& forall|a: Seq<char>, b: Seq<char>| #[trigger] crossings(m, es, a, b) <= u32::MAX
    &&& forall|k: Seq<Seq<char>>| #[trigger] leaf_count(m, es, k) <= u32::MAX
}

// ---- joining ----------------------------------------------------------------------------

fn add_rows(
    map: &StrMap<Vec<SourceLocation>>,
    key: &str,
    host: &Option<String>,
    out: &mut Vec<(String, (String, String))>,
)
    ensures
        triples(final(out).deep_view()) == triples(old(out).deep_view()) + rows_at(
            map.deep_view(),
            key@,
            host.deep_view(),
        ),
{
    let ghost o = triples(out.deep_view());
    let (locs, host) = match (map.get(key), host) {
        (Some(locs), Some(h)) => (locs, h),
        _ => {
            assert(o + rows_at(map.deep_view(), key@, host.deep_view()) =~= o);
            return;
        },
    };
    let ghost ls = locs.deep_view();
    let mut i: usize = 0;
    assert(ls.take(0) =~= Seq::<SourceLocationView>::empty());
    assert(o + anchor_rows(ls.take(0), host@) =~= o);
    while i < locs.len()
        invariant
            i <= locs@.len(),
            ls == locs.deep_view(),
            triples(out.deep_view()) == o + anchor_rows(ls.take(i as int), host@),
        decreases locs@.len() - i,
    {
        let l = at(locs, i);
        let ghost had = out.deep_view();
        let ghost earlier = anchor_rows(ls.take(i as int), host@);
        assert(ls.take(i + 1).drop_last() =~= ls.take(i as int));
        match &l.symbol {
            Some(sym) => {
                put(out, (l.pattern.clone(), (sym.clone(), host.clone())));
                proof {
                    let row = (l.pattern@, sym@, host@);
                    assert(triples(out.deep_view()) =~= triples(had).push(row));
                    assert((o + earlier).push(row) =~= o + earlier.push(row));
                }
            },
            None => {},
        }
        i += 1;
    }
    assert(ls.take(ls.len() as int) =~= ls);
}

/// Rows as triples.
spec fn triples(
    rows: Seq<(Seq<char>, (Seq<char>, Seq<char>))>,
) -> Seq<(Seq<char>, Seq<char>, Seq<char>)> {
    Seq::new(rows.len(), |i: int| (rows[i].0, rows[i].1.0, rows[i].1.1))
}

fn hosts_claim(rs: &Vec<Responsibility>, id: &str) -> (r: bool)
    ensures
        r == has_claim(rs.deep_view(), id@),
{
    let ghost v = rs.deep_view();
    let mut i: usize = 0;
    while i < rs.len()
        invariant
            i <= rs@.len(),
            v == rs.deep_view(),
            forall|j: int| 0 <= j < i ==> (#[trigger] v[j]).id != id@,
        decreases rs@.len() - i,
    {
        let r = at(rs, i);
        assert(v[i as int].id == r.id@);
        if same_text(r.id.as_str(), id) {
            return true;
        }
        i += 1;
    }
    false
}

fn host_of_claim(ns: &Vec<Node>, id: &str) -> (r: Option<String>)
    ensures
        r.deep_view() == claim_host(ns.deep_view(), id@),
{
    let ghost vs = ns.deep_view();
    let mut i: usize = ns.len();
    assert(vs.take(vs.len() as int) =~= vs);
    while i > 0
        invariant
            i <= ns@.len(),
            vs == ns.deep_view(),
            claim_host(vs, id@) == claim_host(vs.take(i as int), id@),
        decreases i,
    {
        i -= 1;
        let n = at(ns, i);
        assert(vs.take(i + 1).drop_last() =~= vs.take(i as int));
        assert(vs.take(i + 1).last() == n.deep_view());
        if hosts_claim(&n.responsibilities, id) {
            return Some(n.id.clone());
        }
    }
    None
}

fn symbol_table(model: &ScryModel) -> (r: Vec<(String, (String, String))>)
    ensures
        triples(r.deep_view()) == symbol_rows(model.deep_view()),
{
    let ghost m = model.deep_view();
    let ghost vs = m.nodes;
    let ghost sm = m.source_map;
    let mut out: Vec<(String, (String, String))> = fresh();
    let mut i: usize = 0;
    assert(vs.take(0) =~= Seq::<NodeView>::empty());
    assert(triples(out.deep_view()) =~= declared_rows(sm, vs.take(0)));
    while i < model.nodes.len()
        invariant
            i <= model.nodes@.len(),
            m == model.deep_view(),
            vs == m.nodes,
            sm == m.source_map,
            triples(out.deep_view()) == declared_rows(sm, vs.take(i as int)),
        decreases model.nodes@.len() - i,
    {
        let n = at(&model.nodes, i);
        assert(vs.take(i + 1).drop_last() =~= vs.take(i as int));
        let host = Some(n.id.clone());
        add_rows(&model.source_map, n.id.as_str(), &host, &mut out);
        i += 1;
    }
    assert(vs.take(vs.len() as int) =~= vs);
    let ghost first = declared_rows(sm, vs);
    let n: usize = model.source_map.len();
    let ghost ks = ascending(sm.dom());
    i = 0;
    assert(ks.take(0) =~= Seq::<Seq<char>>::empty());
    assert(first + claimed_rows(sm, vs, ks.take(0)) =~= first);
    while i < n
        invariant
            i <= n == ks.len(),
            m == model.deep_view(),
            vs == m.nodes,
            sm == m.source_map,
            ks == ascending(sm.dom()),
            triples(out.deep_view()) == first + claimed_rows(sm, vs, ks.take(i as int)),
        decreases n - i,
    {
        let k = model.source_map.key_at(i);
        proof {
            assert(ks.take(i + 1).drop_last() =~= ks.take(i as int));
            let more = rows_at(sm, k@, claim_host(vs, k@));
            assert(first + (claimed_rows(sm, vs, ks.take(i as int)) + more) =~= first
                + claimed_rows(sm, vs, ks.take(i as int)) + more);
        }
        let host = host_of_claim(&model.nodes, k.as_str());
        add_rows(&model.source_map, k.as_str(), &host, &mut out);
        i += 1;
    }
    assert(ks.take(n as int) =~= ks);
    out
}

fn find_symbol(rows: &Vec<(String, (String, String))>, file: &str, name: &str) -> (r: Option<
    String,
>)
    ensures
        r.deep_view() == symbol_host(triples(rows.deep_view()), file@, name@),
{
    let ghost t = triples(rows.deep_view());
    let mut i: usize = 0;
    assert(t.skip(0) =~= t);
    while i < rows.len()
        invariant
            i <= rows@.len(),
            t == triples(rows.deep_view()),
            symbol_host(t, file@, name@) == symbol_host(t.skip(i as int), file@, name@),
        decreases rows@.len() - i,
    {
        let row = at(rows, i);
        assert(t.skip(i as int)[0] == (row.0@, row.1.0@, row.1.1@));
        assert(t.skip(i as int).drop_first() =~= t.skip(i + 1));
        if same_text(row.0.as_str(), file) && same_text(row.1.0.as_str(), name) {
            return Some(row.1.1.clone());
        }
        i += 1;
    }
    None
}

fn find_owner(model: &ScryModel, ownership: &BoundaryOwnership, file: &str) -> (r: Option<String>)
    requires
        ownership.deep_view() == boundary_rows(
            model.deep_view().boundaries,
            node_ids(model.deep_view().nodes),
        ),
        rows_slashed(ownership.deep_view()),
        slashed(file@),
    ensures
        r.deep_view() == file_owner(model.deep_view(), file@),
{
    let ghost ns = model.deep_view().nodes;
    let ghost rs = ownership.deep_view();
    let n: usize = ownership.len();
    let mut best: Option<usize> = None;
    let mut i: usize = 0;
    assert(rs.take(0) =~= Seq::<(Seq<char>, Seq<char>)>::empty());
    while i < n
        invariant
            i <= n == rs.len(),
            ns == model.deep_view().nodes,
            rs == ownership.deep_view(),
            rows_slashed(rs),
            slashed(file@),
            match best {
                Some(b) => b < n && leading_row(ns, rs.take(i as int), file@) == Some(
                    rs[b as int],
                ),
                None => leading_row(ns, rs.take(i as int), file@) is None,
            },
        decreases n - i,
    {
        let row = ownership.row(i);
        proof {
            assert(rs.take(i + 1).drop_last() =~= rs.take(i as int));
            assert(rs.take(i + 1).last() == rs[i as int]);
            assert(slashed(rs[i as int].1));
        }
        if glob_covers(row.1.as_str(), file) {
            match best {
                None => {
                    best = Some(i);
                },
                Some(b) => {
                    let lead = ownership.row(b);
                    if leads(model, row, lead) {
                        best = Some(i);
                    }
                },
            }
        }
        i += 1;
    }
    assert(rs.take(n as int) =~= rs);
    match best {
        Some(b) => Some(ownership.row(b).0.clone()),
        None => None,
    }
}

fn leads(model: &ScryModel, a: &(String, String), b: &(String, String)) -> (r: bool)
    ensures
        r == goes_before(model.deep_view().nodes, a.deep_view(), b.deep_view()),
{
    let ra = pattern_rank(a.1.as_str());
    let rb = pattern_rank(b.1.as_str());
    if ranks_above(ra, rb) {
        return true;
    }
    if ranks_above(rb, ra) {
        return false;
    }
    let da: usize = node_depth(model, a.0.as_str());
    let db: usize = node_depth(model, b.0.as_str());
    da > db || (da == db && before(a.0.as_str(), b.0.as_str()))
}

fn resolve(
    model: &ScryModel,
    table: &Vec<(String, (String, String))>,
    ownership: &BoundaryOwnership,
    endpoint: &str,
) -> (r: Option<String>)
    requires
        triples(table.deep_view()) == symbol_rows(model.deep_view()),
        ownership.deep_view() == boundary_rows(
            model.deep_view().boundaries,
            node_ids(model.deep_view().nodes),
        ),
        rows_slashed(ownership.deep_view()),
        path_slashed(endpoint@),
    ensures
        r.deep_view() == resolved(model.deep_view(), endpoint@),
{
    match BuildEdges::split_symbol_key(endpoint) {
        None => None,
        Some((path, name)) => match find_symbol(table, path, name) {
            Some(h) => Some(h),
            None => find_owner(model, ownership, path),
        },
    }
}

/// Those of `xs` that `ys` does not hold.
pub open spec fn lacking(xs: Seq<Seq<char>>, ys: Seq<Seq<char>>) -> Seq<Seq<char>>
    decreases xs.len(),
{
    if xs.len() == 0 {
        Seq::empty()
    } else if ys.contains(xs.last()) {
        lacking(xs.drop_last(), ys)
    } else {
        lacking(xs.drop_last(), ys).push(xs.last())
    }
}

proof fn lemma_lacking(xs: Seq<Seq<char>>, ys: Seq<Seq<char>>)
    ensures
        forall|x: Seq<char>| #[trigger]
            lacking(xs, ys).contains(x) <==> xs.contains(x) && !ys.contains(x),
        xs.no_duplicates() ==> lacking(xs, ys).no_duplicates(),
    decreases xs.len(),
{
    if xs.len() > 0 {
        let d = xs.drop_last();
        let l = xs.last();
        lemma_lacking(d, ys);
        let before = lacking(d, ys);
        let all = lacking(xs, ys);
        assert forall|x: Seq<char>| xs.contains(x) == (d.contains(x) || x == l) by {
            if d.contains(x) {
                let k = choose|k: int| 0 <= k < d.len() && d[k] == x;
                assert(xs[k] == x);
            }
            assert(xs[xs.len() - 1] == l);
            if xs.contains(x) && x != l {
                let k = choose|k: int| 0 <= k < xs.len() && xs[k] == x;
                assert(d[k] == x);
            }
        }
        if !ys.contains(l) {
            assert forall|x: Seq<char>| all.contains(x) == (before.contains(x) || x == l) by {
                if before.contains(x) {
                    let k = choose|k: int| 0 <= k < before.len() && before[k] == x;
                    assert(all[k] == x);
                }
                assert(all[before.len() as int] == l);
                if all.contains(x) && x != l {
                    let k = choose|k: int| 0 <= k < all.len() && all[k] == x;
                    assert(before[k] == x);
                }
            }
            if xs.no_duplicates() {
                assert(d.no_duplicates()) by {
                    assert forall|i: int, j: int|
                        0 <= i < d.len() && 0 <= j < d.len() && i != j implies d[i] != d[j] by {
                        assert(xs[i] != xs[j]);
                    }
                }
                if before.contains(l) {
                    assert(d.contains(l));
                    let k = choose|k: int| 0 <= k < d.len() && d[k] == l;
                    assert(xs[k] == xs[xs.len() - 1]);
                }
                assert forall|i: int, j: int|
                    0 <= i < all.len() && 0 <= j < all.len() && i != j implies all[i] != all[j] by {
                    if i < before.len() && j < before.len() {
                        assert(before[i] != before[j]);
                    } else if i < before.len() {
                        assert(before.contains(before[i]));
                    } else if j < before.len() {
                        assert(before.contains(before[j]));
                    }
                }
            }
        } else {
            if xs.no_duplicates() {
                assert(d.no_duplicates()) by {
                    assert forall|i: int, j: int|
                        0 <= i < d.len() && 0 <= j < d.len() && i != j implies d[i] != d[j] by {
                        assert(xs[i] != xs[j]);
                    }
                }
            }
        }
    }
}

fn without(xs: &Vec<String>, ys: &Vec<String>) -> (r: Vec<String>)
    ensures
        r.deep_view() == lacking(xs.deep_view(), ys.deep_view()),
{
    let ghost v = xs.deep_view();
    let ghost w = ys.deep_view();
    let mut out: Vec<String> = fresh();
    let mut i: usize = 0;
    assert(v.take(0) =~= Seq::<Seq<char>>::empty());
    while i < xs.len()
        invariant
            i <= xs@.len(),
            v == xs.deep_view(),
            w == ys.deep_view(),
            out.deep_view() == lacking(v.take(i as int), w),
        decreases xs@.len() - i,
    {
        let x = at(xs, i);
        assert(v.take(i + 1).drop_last() =~= v.take(i as int));
        if !holds(ys, x.as_str()) {
            put(&mut out, x.clone());
        }
        i += 1;
    }
    assert(v.take(v.len() as int) =~= v);
    out
}

proof fn lemma_chain_distinct(ns: Seq<NodeView>, at: Option<Seq<char>>, seen: Seq<Seq<char>>)
    ensures
        node_ids(chain(ns, at, seen)).no_duplicates(),
        forall|x: Seq<char>| #[trigger]
            node_ids(chain(ns, at, seen)).contains(x) ==> !seen.contains(x),
    decreases unseen(ns, seen),
{
    let c = node_ids(chain(ns, at, seen));
    if !(at is None || seen.contains(at->0) || last_node(ns, at->0) is None) {
        let id = at->0;
        let n = last_node(ns, id)->0;
        lemma_lookups(ns, id);
        lemma_unseen_shrinks(ns, seen, id);
        lemma_chain_distinct(ns, n.parent_id, seen.push(id));
        let rest = node_ids(chain(ns, n.parent_id, seen.push(id)));
        assert(c =~= seq![id] + rest);
        assert(seen.push(id)[seen.len() as int] == id);
        assert(!rest.contains(id));
        assert forall|x: Seq<char>| #[trigger] c.contains(x) implies !seen.contains(x) by {
            let k = choose|k: int| 0 <= k < c.len() && c[k] == x;
            if k > 0 {
                assert(rest[k - 1] == x);
                assert(rest.contains(x));
                if seen.contains(x) {
                    let q = choose|q: int| 0 <= q < seen.len() && seen[q] == x;
                    assert(seen.push(id)[q] == x);
                }
            }
        }
        assert forall|i: int, j: int| 0 <= i < c.len() && 0 <= j < c.len() && i != j implies c[i]
            != c[j] by {
            if i > 0 && j > 0 {
                assert(rest[i - 1] != rest[j - 1]);
            } else if i > 0 {
                assert(rest[i - 1] == c[i]);
                assert(rest.contains(c[i]));
            } else {
                assert(rest[j - 1] == c[j]);
                assert(rest.contains(c[j]));
            }
        }
    }
}

/// Is the key a pair with its first text in `xs` and its second in `ys`?
spec fn pairs_up(xs: Seq<Seq<char>>, ys: Seq<Seq<char>>, k: Seq<Seq<char>>) -> bool {
    k.len() == 2 && xs.contains(k[0]) && ys.contains(k[1])
}

/// One, where it holds.
spec fn once(b: bool) -> nat {
    if b {
        1
    } else {
        0
    }
}

proof fn lemma_take_contains(s: Seq<Seq<char>>, i: int, x: Seq<char>)
    requires
        0 <= i < s.len(),
    ensures
        s.take(i + 1).contains(x) == (s.take(i).contains(x) || s[i] == x),
        s.no_duplicates() ==> !s.take(i).contains(s[i]),
{
    let a = s.take(i);
    let b = s.take(i + 1);
    if a.contains(x) {
        let k = choose|k: int| 0 <= k < a.len() && a[k] == x;
        assert(b[k] == x);
    }
    assert(b[i] == s[i]);
    if b.contains(x) && x != s[i] {
        let k = choose|k: int| 0 <= k < b.len() && b[k] == x;
        assert(a[k] == x);
    }
    if s.no_duplicates() && a.contains(s[i]) {
        let k = choose|k: int| 0 <= k < a.len() && a[k] == s[i];
        assert(s[k] == s[i]);
    }
}

fn bump_row(pairs: &mut Counter, a: &String, ys: &Vec<String>)
    requires
        ys.deep_view().no_duplicates(),
        forall|k: Seq<Seq<char>>| #[trigger]
            old(pairs).count(k) + once(pairs_up(seq![a@], ys.deep_view(), k)) <= u32::MAX,
    ensures
        forall|k: Seq<Seq<char>>| #[trigger]
            final(pairs).count(k) == old(pairs).count(k) + once(
                pairs_up(seq![a@], ys.deep_view(), k),
            ),
{
    let ghost v = ys.deep_view();
    let ghost one_a = seq![a@];
    let mut i: usize = 0;
    assert(one_a[0] == a@);
    while i < ys.len()
        invariant
            i <= ys@.len(),
            v == ys.deep_view(),
            v.no_duplicates(),
            one_a == seq![a@],
            forall|k: Seq<Seq<char>>| #[trigger]
                old(pairs).count(k) + once(pairs_up(one_a, v, k)) <= u32::MAX,
            forall|k: Seq<Seq<char>>| #[trigger]
                pairs.count(k) == old(pairs).count(k) + once(
                    pairs_up(one_a, v.take(i as int), k),
                ),
        decreases ys@.len() - i,
    {
        let b = at(ys, i);
        let ghost was = *pairs;
        let mut key: Vec<String> = fresh();
        put(&mut key, a.clone());
        put(&mut key, b.clone());
        let ghost kv = key.deep_view();
        proof {
            assert(kv[0] == a@ && kv[1] == b@ && kv.len() == 2);
            assert(one_a[0] == a@);
            assert(v[i as int] == b@);
            lemma_take_contains(v, i as int, b@);
            assert(pairs_up(one_a, v, kv));
            assert(!pairs_up(one_a, v.take(i as int), kv));
            assert(pairs.count(kv) == old(pairs).count(kv) + once(
                pairs_up(one_a, v.take(i as int), kv),
            ));
            assert(old(pairs).count(kv) + once(pairs_up(one_a, v, kv)) <= u32::MAX);
        }
        pairs.bump(key);
        proof {
            assert forall|k: Seq<Seq<char>>| #[trigger] pairs.count(k) == old(pairs).count(k) + once(
                pairs_up(one_a, v.take(i + 1), k),
            ) by {
                assert(was.count(k) == old(pairs).count(k) + once(
                    pairs_up(one_a, v.take(i as int), k),
                ));
                if k.len() == 2 {
                    lemma_take_contains(v, i as int, k[1]);
                    if one_a.contains(k[0]) && k[1] == b@ {
                        assert(k =~= kv);
                    }
                }
            }
        }
        i += 1;
    }
    assert(v.take(v.len() as int) =~= v);
}

fn bump_all(pairs: &mut Counter, xs: &Vec<String>, ys: &Vec<String>)
    requires
        xs.deep_view().no_duplicates(),
        ys.deep_view().no_duplicates(),
        forall|k: Seq<Seq<char>>| #[trigger]
            old(pairs).count(k) + once(pairs_up(xs.deep_view(), ys.deep_view(), k)) <= u32::MAX,
    ensures
        forall|k: Seq<Seq<char>>| #[trigger]
            final(pairs).count(k) == old(pairs).count(k) + once(
                pairs_up(xs.deep_view(), ys.deep_view(), k),
            ),
{
    let ghost v = xs.deep_view();
    let ghost w = ys.deep_view();
    let mut i: usize = 0;
    while i < xs.len()
        invariant
            i <= xs@.len(),
            v == xs.deep_view(),
            w == ys.deep_view(),
            v.no_duplicates(),
            w.no_duplicates(),
            forall|k: Seq<Seq<char>>| #[trigger]
                old(pairs).count(k) + once(pairs_up(v, w, k)) <= u32::MAX,
            forall|k: Seq<Seq<char>>| #[trigger]
                pairs.count(k) == old(pairs).count(k) + once(pairs_up(v.take(i as int), w, k)),
        decreases xs@.len() - i,
    {
        let a = at(xs, i);
        let ghost was = *pairs;
        let ghost one_a = seq![a@];
        proof {
            assert(one_a[0] == a@);
            assert(v[i as int] == a@);
            assert forall|k: Seq<Seq<char>>| #[trigger] pairs.count(k) + once(
                pairs_up(one_a, w, k),
            ) <= u32::MAX by {
                assert(pairs.count(k) == old(pairs).count(k) + once(
                    pairs_up(v.take(i as int), w, k),
                ));
                assert(old(pairs).count(k) + once(pairs_up(v, w, k)) <= u32::MAX);
                if pairs_up(one_a, w, k) {
                    assert(k[0] == a@);
                    lemma_take_contains(v, i as int, k[0]);
                    assert(v.contains(k[0]));
                }
                if pairs_up(v.take(i as int), w, k) {
                    let q = choose|q: int| 0 <= q < i && v.take(i as int)[q] == k[0];
                    assert(v[q] == k[0]);
                }
            }
        }
        bump_row(pairs, a, ys);
        proof {
            assert forall|k: Seq<Seq<char>>| #[trigger] pairs.count(k) == old(pairs).count(k) + once(
                pairs_up(v.take(i + 1), w, k),
            ) by {
                assert(was.count(k) == old(pairs).count(k) + once(
                    pairs_up(v.take(i as int), w, k),
                ));
                if k.len() == 2 {
                    lemma_take_contains(v, i as int, k[0]);
                    assert(one_a.contains(k[0]) == (k[0] == a@));
                }
            }
        }
        i += 1;
    }
    assert(v.take(v.len() as int) =~= v);
}

proof fn lemma_counts_grow(m: ScryModelView, es: Seq<CachedEdgeView>, i: int)
    requires
        0 <= i <= es.len(),
    ensures
        forall|a: Seq<char>, b: Seq<char>| #[trigger]
            crossings(m, es.take(i), a, b) <= crossings(m, es, a, b),
        forall|k: Seq<Seq<char>>| #[trigger] leaf_count(m, es.take(i), k) <= leaf_count(m, es, k),
    decreases es.len(),
{
    if i == es.len() {
        assert(es.take(i) =~= es);
    } else {
        let d = es.drop_last();
        lemma_counts_grow(m, d, i);
        assert(es.take(i) =~= d.take(i));
        assert forall|a: Seq<char>, b: Seq<char>| #[trigger]
            crossings(m, es.take(i), a, b) <= crossings(m, es, a, b) by {
            assert(crossings(m, d.take(i), a, b) <= crossings(m, d, a, b));
        }
        assert forall|k: Seq<Seq<char>>| #[trigger]
            leaf_count(m, es.take(i), k) <= leaf_count(m, es, k) by {
            assert(leaf_count(m, d.take(i), k) <= leaf_count(m, d, k));
        }
    }
}

/// Do the counters hold what the edges add up to?
spec fn counted(m: ScryModelView, es: Seq<CachedEdgeView>, pairs: Counter, leaves: Counter) -> bool {
    &&& forall|k: Seq<Seq<char>>| #[trigger]
        pairs.count(k) == if k.len() == 2 {
            crossings(m, es, k[0], k[1])
        } else {
            0
        }
    &&& forall|k: Seq<Seq<char>>| #[trigger] leaves.count(k) == leaf_count(m, es, k)
}

fn symbol_of(endpoint: &str) -> (r: String)
    ensures
        r@ == symbol_in(endpoint@),
{
    match BuildEdges::split_symbol_key(endpoint) {
        Some((_, name)) => name.to_owned(),
        None => String::new(),
    }
}

fn count_edge(
    model: &ScryModel,
    src: &String,
    dst: &String,
    e: &CachedEdge,
    pairs: &mut Counter,
    leaves: &mut Counter,
    Ghost(es): Ghost<Seq<CachedEdgeView>>,
)
    requires
        counted(model.deep_view(), es, *old(pairs), *old(leaves)),
        ends_of(model.deep_view(), e.deep_view()) == Some((src@, dst@)),
        crossings_fit(model.deep_view(), es.push(e.deep_view())),
    ensures
        counted(model.deep_view(), es.push(e.deep_view()), *final(pairs), *final(leaves)),
{
    let ghost m = model.deep_view();
    let ghost ev = e.deep_view();
    let ghost more = es.push(ev);
    let up = node_ancestry(model, src.as_str());
    let over = node_ancestry(model, dst.as_str());
    let ghost sc = lineage(m.nodes, src@);
    let ghost dc = lineage(m.nodes, dst@);
    proof {
        assert(more.drop_last() =~= es);
        lemma_chain_distinct(m.nodes, Some(src@), Seq::empty());
        lemma_chain_distinct(m.nodes, Some(dst@), Seq::empty());
        lemma_lacking(sc, dc);
        lemma_lacking(dc, sc);
    }
    if !holds(&up, dst.as_str()) && !holds(&over, src.as_str()) {
        let mut key: Vec<String> = fresh();
        put(&mut key, src.clone());
        put(&mut key, dst.clone());
        put(&mut key, symbol_of(e.src.as_str()));
        put(&mut key, symbol_of(e.dst.as_str()));
        let ghost kv = key.deep_view();
        proof {
            assert(kv =~= seq![src@, dst@, symbol_in(ev.src), symbol_in(ev.dst)]);
            assert(leaf_count(m, more, kv) <= u32::MAX);
            assert(leaves.count(kv) == leaf_count(m, es, kv));
        }
        leaves.bump(key);
    }
    proof {
        assert forall|k: Seq<Seq<char>>| #[trigger] leaves.count(k) == leaf_count(m, more, k) by {
            assert(old(leaves).count(k) == leaf_count(m, es, k));
        }
    }
    let xs = without(&up, &over);
    let ys = without(&over, &up);
    let ghost xv = lacking(sc, dc);
    let ghost yv = lacking(dc, sc);
    proof {
        assert forall|k: Seq<Seq<char>>| #[trigger] pairs.count(k) + once(pairs_up(xv, yv, k))
            <= u32::MAX && pairs.count(k) + once(pairs_up(xv, yv, k)) == if k.len() == 2 {
            crossings(m, more, k[0], k[1])
        } else {
            0
        } by {
            assert(pairs.count(k) == if k.len() == 2 {
                crossings(m, es, k[0], k[1])
            } else {
                0
            });
            if k.len() == 2 {
                assert(xv.contains(k[0]) <==> sc.contains(k[0]) && !dc.contains(k[0]));
                assert(yv.contains(k[1]) <==> dc.contains(k[1]) && !sc.contains(k[1]));
                assert(crossings(m, more, k[0], k[1]) <= u32::MAX);
            }
        }
    }
    bump_all(pairs, &xs, &ys);
}

fn has_link(ls: &Vec<Link>, a: &str, b: &str) -> (r: bool)
    ensures
        r == declared(ls.deep_view(), a@, b@),
{
    let ghost v = ls.deep_view();
    let mut i: usize = 0;
    while i < ls.len()
        invariant
            i <= ls@.len(),
            v == ls.deep_view(),
            forall|j: int| 0 <= j < i ==> !((#[trigger] v[j]).src == a@ && v[j].dst == b@),
        decreases ls@.len() - i,
    {
        let l = at(ls, i);
        assert(v[i as int] == l.deep_view());
        if same_text(l.src.as_str(), a) && same_text(l.dst.as_str(), b) {
            return true;
        }
        i += 1;
    }
    false
}

fn is_linkable(model: &ScryModel, a: &str, b: &str) -> (r: bool)
    ensures
        r == linkable(model.deep_view(), a@, b@),
{
    match (find_last_node(&model.nodes, a), find_last_node(&model.nodes, b)) {
        (Some(i), Some(j)) => {
            let na = at(&model.nodes, i);
            let nb = at(&model.nodes, j);
            na.kind == nb.kind && na.parent_id.same(&nb.parent_id) && na.kind != Kind::Symbol
                && !has_link(&model.links, a, b) && !has_link(&model.links, b, a)
        },
        _ => false,
    }
}

fn audit_links(model: &ScryModel, pairs: &Counter, Ghost(es): Ghost<Seq<CachedEdgeView>>) -> (r:
    Vec<LinkAudit>)
    requires
        forall|k: Seq<Seq<char>>| #[trigger]
            pairs.count(k) == if k.len() == 2 {
                crossings(model.deep_view(), es, k[0], k[1])
            } else {
                0
            },
    ensures
        r.deep_view() == audit_of(model.deep_view(), es, model.deep_view().links),
{
    let ghost m = model.deep_view();
    let ghost ls = m.links;
    let ghost want = audit_of(m, es, ls);
    let mut out: Vec<LinkAudit> = fresh();
    let mut i: usize = 0;
    assert(want.take(0) =~= Seq::<LinkAuditView>::empty());
    while i < model.links.len()
        invariant
            i <= model.links@.len(),
            m == model.deep_view(),
            ls == m.links,
            want == audit_of(m, es, ls),
            forall|k: Seq<Seq<char>>| #[trigger]
                pairs.count(k) == if k.len() == 2 {
                    crossings(m, es, k[0], k[1])
                } else {
                    0
                },
            out.deep_view() == want.take(i as int),
        decreases model.links@.len() - i,
    {
        let l = at(&model.links, i);
        let mut key: Vec<String> = fresh();
        put(&mut key, l.src.clone());
        put(&mut key, l.dst.clone());
        let n: u32 = pairs.get(&key);
        proof {
            let kv = key.deep_view();
            assert(kv.len() == 2 && kv[0] == l.src@ && kv[1] == l.dst@);
            assert(ls[i as int] == l.deep_view());
            assert(want.take(i + 1) =~= want.take(i as int).push(want[i as int]));
        }
        put(&mut out, LinkAudit { link_id: l.id.clone(), edge_count: n });
        i += 1;
    }
    assert(want.take(want.len() as int) =~= want);
    out
}

fn list_unmodeled(
    model: &ScryModel,
    pairs: &Counter,
    Ghost(es): Ghost<Seq<CachedEdgeView>>,
) -> (r: Vec<DerivedEdge>)
    requires
        forall|k: Seq<Seq<char>>| #[trigger]
            pairs.count(k) == if k.len() == 2 {
                crossings(model.deep_view(), es, k[0], k[1])
            } else {
                0
            },
    ensures
        lists_unmodeled(model.deep_view(), es, r.deep_view()),
{
    let ghost m = model.deep_view();
    let ghost t = pairs.table();
    let n: usize = pairs.len();
    let mut out: Vec<DerivedEdge> = fresh();
    // For each entry, which row it came from.
    let ghost mut from: Seq<int> = Seq::empty();
    let mut i: usize = 0;
    while i < n
        invariant
            i <= n == t.len(),
            m == model.deep_view(),
            t == pairs.table(),
            tidy(t),
            forall|k: Seq<Seq<char>>| #[trigger]
                pairs.count(k) == if k.len() == 2 {
                    crossings(m, es, k[0], k[1])
                } else {
                    0
                },
            from.len() == out@.len(),
            forall|q: int|
                0 <= q < from.len() ==> 0 <= #[trigger] from[q] < i && t[from[q]].0 == pair_of(
                    out.deep_view()[q],
                ) && t[from[q]].1 == out.deep_view()[q].count && linkable(
                    m,
                    out.deep_view()[q].src,
                    out.deep_view()[q].dst,
                ),
            forall|p: int, q: int| 0 <= p < q < from.len() ==> #[trigger] from[p] < #[trigger] from[q],
            forall|p: int|
                0 <= p < i && linkable(m, (#[trigger] t[p]).0[0], t[p].0[1]) ==> from.contains(p),
        decreases n - i,
    {
        let key = pairs.key(i);
        let ghost kv = key.deep_view();
        let ghost had = out.deep_view();
        let ghost was = from;
        proof {
            lemma_count_at(t, i as int);
            assert(pairs.count(kv) > 0);
            assert(kv.len() == 2);
        }
        let a = at(key, 0);
        let b = at(key, 1);
        if is_linkable(model, a.as_str(), b.as_str()) {
            let e = DerivedEdge { src: a.clone(), dst: b.clone(), count: pairs.times(i) };
            put(&mut out, e);
            proof {
                from = from.push(i as int);
                assert(pair_of(e.deep_view()) =~= kv);
                assert forall|q: int| 0 <= q < from.len() implies 0 <= #[trigger] from[q] < i + 1
                    && t[from[q]].0 == pair_of(out.deep_view()[q]) && t[from[q]].1
                    == out.deep_view()[q].count && linkable(
                    m,
                    out.deep_view()[q].src,
                    out.deep_view()[q].dst,
                ) by {
                    if q < was.len() {
                        assert(from[q] == was[q]);
                        assert(out.deep_view()[q] == had[q]);
                    }
                }
            }
        }
        proof {
            assert forall|p: int|
                0 <= p < i + 1 && linkable(
                    m,
                    (#[trigger] t[p]).0[0],
                    t[p].0[1],
                ) implies from.contains(p) by {
                if p < i {
                    assert(was.contains(p));
                    let q = choose|q: int| 0 <= q < was.len() && was[q] == p;
                    assert(from[q] == p);
                } else {
                    assert(from[was.len() as int] == i);
                }
            }
        }
        i += 1;
    }
    proof {
        let o = out.deep_view();
        assert forall|p: int, q: int| 0 <= p < q < o.len() implies list_lt(
            pair_of(#[trigger] o[p]),
            pair_of(#[trigger] o[q]),
        ) by {
            assert(from[p] < from[q]);
            assert(list_lt(t[from[p]].0, t[from[q]].0));
        }
        assert forall|q: int| 0 <= q < o.len() implies linkable(m, (#[trigger] o[q]).src, o[q].dst)
            && o[q].count == crossings(m, es, o[q].src, o[q].dst) && o[q].count > 0 by {
            let p = from[q];
            lemma_count_at(t, p);
            assert(pairs.count(t[p].0) == t[p].1);
            assert(pair_of(o[q])[0] == o[q].src && pair_of(o[q])[1] == o[q].dst);
        }
        assert forall|a: Seq<char>, b: Seq<char>|
            linkable(m, a, b) && #[trigger] crossings(m, es, a, b) > 0 implies connects(o, a, b) by {
            let k = seq![a, b];
            assert(k[0] == a && k[1] == b && k.len() == 2);
            assert(pairs.count(k) == crossings(m, es, a, b));
            let p = lemma_counted(t, k);
            assert(t[p].0[0] == a && t[p].0[1] == b);
            assert(from.contains(p));
            let q = choose|q: int| 0 <= q < from.len() && from[q] == p;
            assert(t[from[q]].0 == pair_of(o[q]));
            assert(pair_of(o[q])[0] == o[q].src && pair_of(o[q])[1] == o[q].dst);
            assert(o[q].src == a && o[q].dst == b);
        }
    }
    out
}

fn list_resolved(
    model: &ScryModel,
    leaves: &Counter,
    Ghost(es): Ghost<Seq<CachedEdgeView>>,
) -> (r: Vec<ResolvedEdge>)
    requires
        forall|k: Seq<Seq<char>>| #[trigger]
            leaves.count(k) == leaf_count(model.deep_view(), es, k),
    ensures
        lists_resolved(model.deep_view(), es, r.deep_view()),
{
    let ghost m = model.deep_view();
    let ghost t = leaves.table();
    let n: usize = leaves.len();
    let mut out: Vec<ResolvedEdge> = fresh();
    let mut i: usize = 0;
    while i < n
        invariant
            i <= n == t.len(),
            m == model.deep_view(),
            t == leaves.table(),
            tidy(t),
            forall|k: Seq<Seq<char>>| #[trigger] leaves.count(k) == leaf_count(m, es, k),
            out@.len() == i,
            forall|q: int|
                0 <= q < i ==> leaf_key(#[trigger] out.deep_view()[q]) == t[q].0
                    && out.deep_view()[q].count == t[q].1,
        decreases n - i,
    {
        let key = leaves.key(i);
        let ghost kv = key.deep_view();
        let ghost had = out.deep_view();
        proof {
            lemma_count_at(t, i as int);
            assert(leaves.count(kv) > 0);
            lemma_leaf_keys(m, es, kv);
        }
        let e = ResolvedEdge {
            src_node: at(key, 0).clone(),
            src_symbol: at(key, 2).clone(),
            dst_node: at(key, 1).clone(),
            dst_symbol: at(key, 3).clone(),
            count: leaves.times(i),
        };
        put(&mut out, e);
        proof {
            assert(leaf_key(e.deep_view()) =~= kv);
            assert forall|q: int| 0 <= q < i + 1 implies leaf_key(
                #[trigger] out.deep_view()[q],
            ) == t[q].0 && out.deep_view()[q].count == t[q].1 by {
                if q < i {
                    assert(out.deep_view()[q] == had[q]);
                }
            }
        }
        i += 1;
    }
    proof {
        let o = out.deep_view();
        assert forall|p: int, q: int| 0 <= p < q < o.len() implies list_lt(
            leaf_key(#[trigger] o[p]),
            leaf_key(#[trigger] o[q]),
        ) by {
            assert(list_lt(t[p].0, t[q].0));
        }
        assert forall|q: int| 0 <= q < o.len() implies (#[trigger] o[q]).count == leaf_count(
            m,
            es,
            leaf_key(o[q]),
        ) && o[q].count > 0 by {
            lemma_count_at(t, q);
            assert(leaves.count(t[q].0) == t[q].1);
        }
        assert forall|k: Seq<Seq<char>>| #[trigger] leaf_count(m, es, k) > 0 implies exists|i: int|
            0 <= i < o.len() && leaf_key(#[trigger] o[i]) == k by {
            assert(leaves.count(k) > 0);
            let p = lemma_counted(t, k);
            assert(leaf_key(o[p]) == k);
        }
    }
    out
}

proof fn lemma_leaf_keys(m: ScryModelView, es: Seq<CachedEdgeView>, k: Seq<Seq<char>>)
    requires
        leaf_count(m, es, k) > 0,
    ensures
        k.len() == 4,
    decreases es.len(),
{
    if es.len() > 0 && leaf_of(m, es.last()) != Some(k) {
        lemma_leaf_keys(m, es.drop_last(), k);
    }
}

/// Joins the code's dependency graph onto the model: the evidence for each declared
/// link, the siblings that the code connects and no link covers, and every code edge
/// between two subtrees. Ends that resolve to no node are skipped, never guessed.
pub fn derive_graph(model: &ScryModel, edges: &BuildEdges) -> (r: DerivedGraph)
    requires
        boundaries_slashed(model.deep_view().boundaries),
        edges_slashed(edges.symbol_edges.deep_view()),
        crossings_fit(model.deep_view(), edges.symbol_edges.deep_view()),
    ensures
        r.link_audit.deep_view() == audit_of(
            model.deep_view(),
            edges.symbol_edges.deep_view(),
            model.deep_view().links,
        ),
        lists_unmodeled(
            model.deep_view(),
            edges.symbol_edges.deep_view(),
            r.unmodeled.deep_view(),
        ),
        lists_resolved(
            model.deep_view(),
            edges.symbol_edges.deep_view(),
            r.resolved_edges.deep_view(),
        ),
{
    let ghost m = model.deep_view();
    let ghost es = edges.symbol_edges.deep_view();
    let table = symbol_table(model);
    let ownership = BoundaryOwnership::new(model);
    let _n: usize = model.boundaries.len();
    proof {
        lemma_boundary_rows_slashed(m.boundaries, node_ids(m.nodes));
    }
    let mut pairs = Counter::new();
    let mut leaves = Counter::new();
    let mut i: usize = 0;
    proof {
        assert(es.take(0).len() == 0);
        assert(counted(m, es.take(0), pairs, leaves));
    }
    while i < edges.symbol_edges.len()
        invariant
            i <= edges.symbol_edges@.len(),
            m == model.deep_view(),
            es == edges.symbol_edges.deep_view(),
            triples(table.deep_view()) == symbol_rows(m),
            ownership.deep_view() == boundary_rows(m.boundaries, node_ids(m.nodes)),
            rows_slashed(ownership.deep_view()),
            edges_slashed(es),
            crossings_fit(m, es),
            counted(m, es.take(i as int), pairs, leaves),
        decreases edges.symbol_edges@.len() - i,
    {
        let e = at(&edges.symbol_edges, i);
        let ghost so_far = es.take(i as int);
        proof {
            assert(path_slashed(es[i as int].src) && path_slashed(es[i as int].dst));
            assert(es.take(i + 1) =~= so_far.push(e.deep_view()));
            assert(so_far.push(e.deep_view()).drop_last() =~= so_far);
            lemma_counts_grow(m, es, i + 1);
            assert forall|a: Seq<char>, b: Seq<char>| #[trigger]
                crossings(m, es.take(i + 1), a, b) <= u32::MAX by {
                assert(crossings(m, es, a, b) <= u32::MAX);
            }
            assert forall|k: Seq<Seq<char>>| #[trigger] leaf_count(m, es.take(i + 1), k)
                <= u32::MAX by {
                assert(leaf_count(m, es, k) <= u32::MAX);
            }
        }
        let src = resolve(model, &table, &ownership, e.src.as_str());
        let dst = resolve(model, &table, &ownership, e.dst.as_str());
        let apart = match (&src, &dst) {
            (Some(s), Some(d)) => !same_text(s.as_str(), d.as_str()),
            _ => false,
        };
        if apart {
            match (&src, &dst) {
                (Some(s), Some(d)) => {
                    count_edge(model, s, d, e, &mut pairs, &mut leaves, Ghost(so_far));
                },
                _ => {},
            }
        } else {
            proof {
                assert(ends_of(m, e.deep_view()) is None);
                assert forall|k: Seq<Seq<char>>| #[trigger] pairs.count(k) == if k.len() == 2 {
                    crossings(m, es.take(i + 1), k[0], k[1])
                } else {
                    0
                } by {
                    assert(pairs.count(k) == if k.len() == 2 {
                        crossings(m, so_far, k[0], k[1])
                    } else {
                        0
                    });
                }
                assert forall|k: Seq<Seq<char>>| #[trigger] leaves.count(k) == leaf_count(
                    m,
                    es.take(i + 1),
                    k,
                ) by {
                    assert(leaves.count(k) == leaf_count(m, so_far, k));
                }
            }
        }
        i += 1;
    }
    assert(es.take(es.len() as int) =~= es);
    DerivedGraph {
        link_audit: audit_links(model, &pairs, Ghost(es)),
        unmodeled: list_unmodeled(model, &pairs, Ghost(es)),
        resolved_edges: list_resolved(model, &leaves, Ghost(es)),
    }
}

// ---- laws -------------------------------------------------------------------------------

proof fn lemma_sorted_unique(
    p: Seq<Seq<Seq<char>>>,
    q: Seq<Seq<Seq<char>>>,
)
    requires
        forall|i: int, j: int| 0 <= i < j < p.len() ==> list_lt(#[trigger] p[i], #[trigger] p[j]),
        forall|i: int, j: int| 0 <= i < j < q.len() ==> list_lt(#[trigger] q[i], #[trigger] q[j]),
        forall|i: int| 0 <= i < p.len() ==> q.contains(#[trigger] p[i]),
        forall|i: int| 0 <= i < q.len() ==> p.contains(#[trigger] q[i]),
    ensures
        p == q,
    decreases p.len(),
{
    if p.len() == 0 {
        if q.len() > 0 {
            assert(p.contains(q[0]));
        }
        assert(p =~= q);
    } else {
        assert(q.contains(p[0]));
        let a = choose|a: int| 0 <= a < q.len() && q[a] == p[0];
        assert(p.contains(q[0]));
        let b = choose|b: int| 0 <= b < p.len() && p[b] == q[0];
        if a > 0 {
            assert(list_lt(q[0], q[a]));
            if b > 0 {
                assert(list_lt(p[0], p[b]));
                lemma_list_transitive(p[0], q[0], p[0]);
            }
            lemma_list_irreflexive(p[0]);
        }
        assert(p[0] == q[0]);
        let p1 = p.drop_first();
        let q1 = q.drop_first();
        assert forall|i: int, j: int| 0 <= i < j < p1.len() implies list_lt(
            #[trigger] p1[i],
            #[trigger] p1[j],
        ) by {
            assert(list_lt(p[i + 1], p[j + 1]));
        }
        assert forall|i: int, j: int| 0 <= i < j < q1.len() implies list_lt(
            #[trigger] q1[i],
            #[trigger] q1[j],
        ) by {
            assert(list_lt(q[i + 1], q[j + 1]));
        }
        lemma_list_irreflexive(p[0]);
        assert forall|i: int| 0 <= i < p1.len() implies q1.contains(#[trigger] p1[i]) by {
            assert(list_lt(p[0], p[i + 1]));
            assert(q.contains(p[i + 1]));
            let k = choose|k: int| 0 <= k < q.len() && q[k] == p[i + 1];
            assert(q1[k - 1] == p1[i]);
        }
        assert forall|i: int| 0 <= i < q1.len() implies p1.contains(#[trigger] q1[i]) by {
            assert(list_lt(q[0], q[i + 1]));
            assert(p.contains(q[i + 1]));
            let k = choose|k: int| 0 <= k < p.len() && p[k] == q[i + 1];
            assert(p1[k - 1] == q1[i]);
        }
        lemma_sorted_unique(p1, q1);
        assert(p =~= seq![p[0]] + p1);
        assert(q =~= seq![q[0]] + q1);
    }
}

/// There is one list of the unmodelled connections, and one of the resolved edges:
/// the model and the code determine them.
pub proof fn law_the_evidence_is_determined(
    m: ScryModelView,
    es: Seq<CachedEdgeView>,
    a: Seq<DerivedEdgeView>,
    b: Seq<DerivedEdgeView>,
    c: Seq<ResolvedEdgeView>,
    d: Seq<ResolvedEdgeView>,
)
    requires
        lists_unmodeled(m, es, a),
        lists_unmodeled(m, es, b),
        lists_resolved(m, es, c),
        lists_resolved(m, es, d),
    ensures
        a == b,
        c == d,
{
    let pa = Seq::new(a.len(), |i: int| pair_of(a[i]));
    let pb = Seq::new(b.len(), |i: int| pair_of(b[i]));
    lemma_pairs_within(m, es, a, b, pa, pb);
    lemma_pairs_within(m, es, b, a, pb, pa);
    lemma_sorted_unique(pa, pb);
    assert forall|i: int| 0 <= i < a.len() implies a[i] == b[i] by {
        assert(pa[i] == pair_of(a[i]) && pb[i] == pair_of(b[i]));
        assert(pair_of(a[i])[0] == a[i].src && pair_of(a[i])[1] == a[i].dst);
        assert(pair_of(b[i])[0] == b[i].src && pair_of(b[i])[1] == b[i].dst);
    }
    assert(a =~= b);
    let pc = Seq::new(c.len(), |i: int| leaf_key(c[i]));
    let pd = Seq::new(d.len(), |i: int| leaf_key(d[i]));
    lemma_leaves_within(m, es, c, d, pc, pd);
    lemma_leaves_within(m, es, d, c, pd, pc);
    lemma_sorted_unique(pc, pd);
    assert forall|i: int| 0 <= i < c.len() implies c[i] == d[i] by {
        let x = leaf_key(c[i]);
        let y = leaf_key(d[i]);
        assert(pc[i] == x && pd[i] == y);
        assert(x[0] == c[i].src_node && x[1] == c[i].dst_node && x[2] == c[i].src_symbol && x[3]
            == c[i].dst_symbol);
        assert(y[0] == d[i].src_node && y[1] == d[i].dst_node && y[2] == d[i].src_symbol && y[3]
            == d[i].dst_symbol);
    }
    assert(c =~= d);
}

proof fn lemma_pairs_within(
    m: ScryModelView,
    es: Seq<CachedEdgeView>,
    a: Seq<DerivedEdgeView>,
    b: Seq<DerivedEdgeView>,
    pa: Seq<Seq<Seq<char>>>,
    pb: Seq<Seq<Seq<char>>>,
)
    requires
        lists_unmodeled(m, es, a),
        lists_unmodeled(m, es, b),
        pa == Seq::new(a.len(), |i: int| pair_of(a[i])),
        pb == Seq::new(b.len(), |i: int| pair_of(b[i])),
    ensures
        forall|i: int| 0 <= i < pa.len() ==> pb.contains(#[trigger] pa[i]),
        forall|i: int, j: int|
            0 <= i < j < pa.len() ==> list_lt(#[trigger] pa[i], #[trigger] pa[j]),
{
    assert forall|i: int| 0 <= i < pa.len() implies pb.contains(#[trigger] pa[i]) by {
        let e = a[i];
        assert(linkable(m, e.src, e.dst));
        assert(crossings(m, es, e.src, e.dst) > 0);
        assert(connects(b, e.src, e.dst));
        let k = choose|k: int| 0 <= k < b.len() && (#[trigger] b[k]).src == e.src && b[k].dst
            == e.dst;
        assert(pb[k] == pa[i]);
    }
    assert forall|i: int, j: int| 0 <= i < j < pa.len() implies list_lt(
        #[trigger] pa[i],
        #[trigger] pa[j],
    ) by {
        assert(list_lt(pair_of(a[i]), pair_of(a[j])));
    }
}

proof fn lemma_leaves_within(
    m: ScryModelView,
    es: Seq<CachedEdgeView>,
    a: Seq<ResolvedEdgeView>,
    b: Seq<ResolvedEdgeView>,
    pa: Seq<Seq<Seq<char>>>,
    pb: Seq<Seq<Seq<char>>>,
)
    requires
        lists_resolved(m, es, a),
        lists_resolved(m, es, b),
        pa == Seq::new(a.len(), |i: int| leaf_key(a[i])),
        pb == Seq::new(b.len(), |i: int| leaf_key(b[i])),
    ensures
        forall|i: int| 0 <= i < pa.len() ==> pb.contains(#[trigger] pa[i]),
        forall|i: int, j: int|
            0 <= i < j < pa.len() ==> list_lt(#[trigger] pa[i], #[trigger] pa[j]),
{
    assert forall|i: int| 0 <= i < pa.len() implies pb.contains(#[trigger] pa[i]) by {
        assert(a[i].count > 0);
        assert(leaf_count(m, es, leaf_key(a[i])) > 0);
        let k = choose|k: int| 0 <= k < b.len() && leaf_key(#[trigger] b[k]) == leaf_key(a[i]);
        assert(pb[k] == pa[i]);
    }
    assert forall|i: int, j: int| 0 <= i < j < pa.len() implies list_lt(
        #[trigger] pa[i],
        #[trigger] pa[j],
    ) by {
        assert(list_lt(leaf_key(a[i]), leaf_key(a[j])));
    }
}

proof fn lemma_leading(ns: Seq<NodeView>, rows: Seq<(Seq<char>, Seq<char>)>, file: Seq<char>)
    ensures
        match leading_row(ns, rows, file) {
            Some(l) => matched(l.1, file) && rows.contains(l) && forall|j: int|
                0 <= j < rows.len() && matched((#[trigger] rows[j]).1, file) ==> !outranks(
                    rank_of(rows[j].1),
                    rank_of(l.1),
                ),
            None => forall|j: int| 0 <= j < rows.len() ==> !matched((#[trigger] rows[j]).1, file),
        },
    decreases rows.len(),
{
    if rows.len() > 0 {
        let d = rows.drop_last();
        lemma_leading(ns, d, file);
        let r = rows[rows.len() - 1];
        let lead = leading_row(ns, d, file);
        let out = leading_row(ns, rows, file);
        if out is Some {
            let l = out->0;
            if l == r {
                assert(rows[rows.len() - 1] == l);
            } else {
                assert(d.contains(l));
                let k = choose|k: int| 0 <= k < d.len() && d[k] == l;
                assert(rows[k] == l);
            }
            assert forall|j: int|
                0 <= j < rows.len() && matched((#[trigger] rows[j]).1, file) implies !outranks(
                rank_of(rows[j].1),
                rank_of(l.1),
            ) by {
                if j < d.len() {
                    assert(d[j] == rows[j]);
                    assert(matched(d[j].1, file));
                }
            }
        } else {
            assert forall|j: int| 0 <= j < rows.len() implies !matched(
                (#[trigger] rows[j]).1,
                file,
            ) by {
                if j < d.len() {
                    assert(d[j] == rows[j]);
                }
            }
        }
    }
}

/// The audit attributes a file to a node that owns it by the one ranking that every
/// decision on ownership shares, and to none exactly where no node owns it.
pub proof fn law_the_audit_agrees_on_ownership(m: ScryModelView, file: Seq<char>)
    ensures
        match file_owner(m, file) {
            Some(id) => owned(boundary_rows(m.boundaries, node_ids(m.nodes)), id, file),
            None => forall|id: Seq<char>|
                !#[trigger] owned(boundary_rows(m.boundaries, node_ids(m.nodes)), id, file),
        },
{
    let rows = boundary_rows(m.boundaries, node_ids(m.nodes));
    lemma_leading(m.nodes, rows, file);
    match leading_row(m.nodes, rows, file) {
        Some(l) => {
            let i = choose|i: int| 0 <= i < rows.len() && rows[i] == l;
            assert(rows[i].0 == l.0 && wins(rows, i, file));
        },
        None => {
            assert forall|id: Seq<char>| !#[trigger] owned(rows, id, file) by {
                if owned(rows, id, file) {
                    let i = choose|i: int|
                        0 <= i < rows.len() && (#[trigger] rows[i]).0 == id && wins(rows, i, file);
                    assert(matched(rows[i].1, file));
                }
            }
        },
    }
}

/// An edge inside one subtree is containment, not dependency: a node that holds both
/// ends neither sends nor receives it.
pub proof fn law_containment_is_no_evidence(
    m: ScryModelView,
    e: CachedEdgeView,
    a: Seq<char>,
    b: Seq<char>,
)
    requires
        crosses(m, e, a, b),
    ensures
        a != b,
        ends_of(m, e) is Some,
        ({
            let (s, d) = ends_of(m, e)->0;
            &&& s != d
            &&& !(lineage(m.nodes, s).contains(a) && lineage(m.nodes, d).contains(a))
            &&& !(lineage(m.nodes, s).contains(b) && lineage(m.nodes, d).contains(b))
        }),
{
}

/// A link's evidence is what crosses between its two ends: the reverse direction
/// counts for nothing, and a link is asserted only exactly where nothing crosses.
pub proof fn law_links_are_audited_one_way(
    m: ScryModelView,
    es: Seq<CachedEdgeView>,
    i: int,
)
    requires
        0 <= i < m.links.len(),
    ensures
        audit_of(m, es, m.links).len() == m.links.len(),
        audit_of(m, es, m.links)[i].link_id == m.links[i].id,
        audit_of(m, es, m.links)[i].edge_count == 0 <==> forall|j: int|
            0 <= j < es.len() ==> !crosses(m, #[trigger] es[j], m.links[i].src, m.links[i].dst),
{
    lemma_no_crossing(m, es, m.links[i].src, m.links[i].dst);
}

proof fn lemma_no_crossing(
    m: ScryModelView,
    es: Seq<CachedEdgeView>,
    a: Seq<char>,
    b: Seq<char>,
)
    ensures
        crossings(m, es, a, b) == 0 <==> forall|j: int|
            0 <= j < es.len() ==> !crosses(m, #[trigger] es[j], a, b),
    decreases es.len(),
{
    if es.len() > 0 {
        let d = es.drop_last();
        lemma_no_crossing(m, d, a, b);
        if crossings(m, es, a, b) == 0 {
            assert forall|j: int| 0 <= j < es.len() implies !crosses(m, #[trigger] es[j], a, b) by {
                if j < d.len() {
                    assert(!crosses(m, d[j], a, b));
                }
            }
        } else if forall|j: int| 0 <= j < es.len() ==> !crosses(m, #[trigger] es[j], a, b) {
            assert(!crosses(m, es[es.len() - 1], a, b));
            assert forall|j: int| 0 <= j < d.len() implies !crosses(m, #[trigger] d[j], a, b) by {
                assert(!crosses(m, es[j], a, b));
            }
        }
    }
}

/// No more edges than can be counted means that every count can be held.
pub proof fn law_few_edges_fit(m: ScryModelView, es: Seq<CachedEdgeView>)
    requires
        es.len() <= u32::MAX,
    ensures
        crossings_fit(m, es),
{
    lemma_counts_bounded(m, es);
    assert forall|a: Seq<char>, b: Seq<char>| #[trigger] crossings(m, es, a, b) <= u32::MAX by {
        assert(crossings(m, es, a, b) <= es.len());
    }
    assert forall|k: Seq<Seq<char>>| #[trigger] leaf_count(m, es, k) <= u32::MAX by {
        assert(leaf_count(m, es, k) <= es.len());
    }
}

proof fn lemma_counts_bounded(m: ScryModelView, es: Seq<CachedEdgeView>)
    ensures
        forall|a: Seq<char>, b: Seq<char>| #[trigger] crossings(m, es, a, b) <= es.len(),
        forall|k: Seq<Seq<char>>| #[trigger] leaf_count(m, es, k) <= es.len(),
    decreases es.len(),
{
    if es.len() > 0 {
        let d = es.drop_last();
        lemma_counts_bounded(m, d);
        assert forall|a: Seq<char>, b: Seq<char>| #[trigger] crossings(m, es, a, b)
            <= es.len() by {
            assert(crossings(m, d, a, b) <= d.len());
        }
        assert forall|k: Seq<Seq<char>>| #[trigger] leaf_count(m, es, k) <= es.len() by {
            assert(leaf_count(m, d, k) <= d.len());
        }
    }
}

} // verus!
