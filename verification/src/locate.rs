//! Reverse lookup: from a place in the source to the intent that governs it.
//!
//! Every other read starts from the model and walks toward code. This one starts
//! from a file and answers with that file's slice of the model: the claims anchored
//! there, the finest node that maps it and its ancestors, the boundary owner of the
//! region, and the directives that bind there.

use crate::commit::{working, working_view};
use crate::diff::{diff, diff_of, ElementChange, ElementChangeView};
use crate::ears::{classify, pattern_of};
use crate::model::{
    all_handed_down, ancestors, inherited_directives, Directive, DirectiveView, GroupView,
    InheritedDirectives, InheritedDirectivesView, Kind, Node, NodeView, Responsibility,
    ResponsibilityView, ScryModel, ScryModelView, SourceLocation, SourceLocationView,
};
use crate::modelled::{at, fresh, put, Modelled};
use crate::named::{find, first};
use crate::ownership::{
    at_depth, boundaries_slashed, boundary_rows, deepest_of, finest, glob_covers,
    lemma_boundary_rows_slashed, lineage, matched, node_ancestry, node_ids, opt_text, owned,
    owning_node_for_location, rows_slashed, slashed, top_depth, BoundaryOwnership,
};
use crate::strmap::StrMap;
use crate::text::{ascending, join, joined, lemma_ascending_of, same_text};
use vstd::prelude::*;
use vstd::string::*;

verus! {

/// One node of an owner chain, or the owner of a boundary.
#[derive(Debug, PartialEq)]
pub struct OwnerLink {
    pub id: String,
    pub name: String,
    pub kind: Kind,
}

/// The model of a [`OwnerLink`].
#[verifier::ext_equal]
pub struct OwnerLinkView {
    pub id: Seq<char>,
    pub name: Seq<char>,
    pub kind: Kind,
}

impl DeepView for OwnerLink {
    type V = OwnerLinkView;

    open spec fn deep_view(&self) -> OwnerLinkView {
        OwnerLinkView {
            id: self.id.deep_view(),
            name: self.name.deep_view(),
            kind: self.kind.deep_view(),
        }
    }
}

impl Modelled for OwnerLink {
    fn dup(&self) -> (r: Self) {
        OwnerLink {
            id: self.id.dup(),
            name: self.name.dup(),
            kind: self.kind.dup(),
        }
    }

    fn same(&self, other: &Self) -> (r: bool) {
        self.id.same(&other.id)
            && self.name.same(&other.name)
            && self.kind.same(&other.kind)
    }
}

impl Clone for OwnerLink {
    fn clone(&self) -> (r: Self)
        ensures
            r.deep_view() == self.deep_view(),
    {
        self.dup()
    }
}

/// A piece of intent anchored at the located file: a claim or, without a
/// statement, the declaration of a data shape.
#[derive(Debug, PartialEq)]
pub struct LocatedClaim {
    /// The claim, or the node for a declaration.
    pub id: String,
    pub statement: Option<String>,
    /// The node or group that hosts the claim.
    pub host_id: String,
    pub host_name: String,
    pub stale: Option<bool>,
    pub vagrant: Option<bool>,
    /// The claim's own directives; what the node inherits is told once, on the result.
    pub directives: Vec<Directive>,
    /// The external anchors that the claim cites.
    pub cites: Vec<String>,
    /// Where it is anchored.
    pub anchor: SourceLocation,
    /// The claim's attached tests.
    pub tests: Vec<SourceLocation>,
    /// Is the claim in a testable form with no test attached?
    pub untested: bool,
    /// Did the claim surface because its test covers the file? `anchor` is the
    /// test then.
    pub via_test: bool,
}

/// The model of a [`LocatedClaim`].
#[verifier::ext_equal]
pub struct LocatedClaimView {
    pub id: Seq<char>,
    pub statement: Option<Seq<char>>,
    pub host_id: Seq<char>,
    pub host_name: Seq<char>,
    pub stale: Option<bool>,
    pub vagrant: Option<bool>,
    pub directives: Seq<DirectiveView>,
    pub cites: Seq<Seq<char>>,
    pub anchor: SourceLocationView,
    pub tests: Seq<SourceLocationView>,
    pub untested: bool,
    pub via_test: bool,
}

impl DeepView for LocatedClaim {
    type V = LocatedClaimView;

    open spec fn deep_view(&self) -> LocatedClaimView {
        LocatedClaimView {
            id: self.id.deep_view(),
            statement: self.statement.deep_view(),
            host_id: self.host_id.deep_view(),
            host_name: self.host_name.deep_view(),
            stale: self.stale.deep_view(),
            vagrant: self.vagrant.deep_view(),
            directives: self.directives.deep_view(),
            cites: self.cites.deep_view(),
            anchor: self.anchor.deep_view(),
            tests: self.tests.deep_view(),
            untested: self.untested.deep_view(),
            via_test: self.via_test.deep_view(),
        }
    }
}

impl Modelled for LocatedClaim {
    fn dup(&self) -> (r: Self) {
        LocatedClaim {
            id: self.id.dup(),
            statement: self.statement.dup(),
            host_id: self.host_id.dup(),
            host_name: self.host_name.dup(),
            stale: self.stale.dup(),
            vagrant: self.vagrant.dup(),
            directives: self.directives.dup(),
            cites: self.cites.dup(),
            anchor: self.anchor.dup(),
            tests: self.tests.dup(),
            untested: self.untested.dup(),
            via_test: self.via_test.dup(),
        }
    }

    fn same(&self, other: &Self) -> (r: bool) {
        self.id.same(&other.id)
            && self.statement.same(&other.statement)
            && self.host_id.same(&other.host_id)
            && self.host_name.same(&other.host_name)
            && self.stale.same(&other.stale)
            && self.vagrant.same(&other.vagrant)
            && self.directives.same(&other.directives)
            && self.cites.same(&other.cites)
            && self.anchor.same(&other.anchor)
            && self.tests.same(&other.tests)
            && self.untested.same(&other.untested)
            && self.via_test.same(&other.via_test)
    }
}

impl Clone for LocatedClaim {
    fn clone(&self) -> (r: Self)
        ensures
            r.deep_view() == self.deep_view(),
    {
        self.dup()
    }
}

/// What governs a file.
#[derive(Debug, PartialEq)]
pub struct LocateResult {
    /// The finest node that maps the file and its ancestors up to the root. Empty
    /// where nothing maps or owns the file.
    pub owner_chain: Vec<OwnerLink>,
    /// The node whose boundary owns the file.
    pub boundary_owner: Option<OwnerLink>,
    pub claims: Vec<LocatedClaim>,
    /// The finest node's own directives.
    pub own_directives: Vec<Directive>,
    /// The ancestors' directives, nearest first.
    pub inherited_directives: Vec<InheritedDirectives>,
    /// Did a requested symbol narrow the claims? Where it matched no anchor, those of
    /// the whole file are given.
    pub symbol_matched: bool,
}

/// The model of a [`LocateResult`].
#[verifier::ext_equal]
pub struct LocateResultView {
    pub owner_chain: Seq<OwnerLinkView>,
    pub boundary_owner: Option<OwnerLinkView>,
    pub claims: Seq<LocatedClaimView>,
    pub own_directives: Seq<DirectiveView>,
    pub inherited_directives: Seq<InheritedDirectivesView>,
    pub symbol_matched: bool,
}

impl DeepView for LocateResult {
    type V = LocateResultView;

    open spec fn deep_view(&self) -> LocateResultView {
        LocateResultView {
            owner_chain: self.owner_chain.deep_view(),
            boundary_owner: self.boundary_owner.deep_view(),
            claims: self.claims.deep_view(),
            own_directives: self.own_directives.deep_view(),
            inherited_directives: self.inherited_directives.deep_view(),
            symbol_matched: self.symbol_matched.deep_view(),
        }
    }
}

impl Modelled for LocateResult {
    fn dup(&self) -> (r: Self) {
        LocateResult {
            owner_chain: self.owner_chain.dup(),
            boundary_owner: self.boundary_owner.dup(),
            claims: self.claims.dup(),
            own_directives: self.own_directives.dup(),
            inherited_directives: self.inherited_directives.dup(),
            symbol_matched: self.symbol_matched.dup(),
        }
    }

    fn same(&self, other: &Self) -> (r: bool) {
        self.owner_chain.same(&other.owner_chain)
            && self.boundary_owner.same(&other.boundary_owner)
            && self.claims.same(&other.claims)
            && self.own_directives.same(&other.own_directives)
            && self.inherited_directives.same(&other.inherited_directives)
            && self.symbol_matched.same(&other.symbol_matched)
    }
}

impl Clone for LocateResult {
    fn clone(&self) -> (r: Self)
        ensures
            r.deep_view() == self.deep_view(),
    {
        self.dup()
    }
}

/// What governs a file, with what is pending there.
#[derive(Debug, PartialEq)]
pub struct LocateReport {
    pub result: LocateResult,
    /// The names of the owner chain from the root down, as in "Acme / API / Auth".
    pub path: Option<String>,
    /// The plan entries that touch the located elements.
    pub pending: Vec<ElementChange>,
}

/// The model of a [`LocateReport`].
#[verifier::ext_equal]
pub struct LocateReportView {
    pub result: LocateResultView,
    pub path: Option<Seq<char>>,
    pub pending: Seq<ElementChangeView>,
}

impl DeepView for LocateReport {
    type V = LocateReportView;

    open spec fn deep_view(&self) -> LocateReportView {
        LocateReportView {
            result: self.result.deep_view(),
            path: self.path.deep_view(),
            pending: self.pending.deep_view(),
        }
    }
}

impl Modelled for LocateReport {
    fn dup(&self) -> (r: Self) {
        LocateReport {
            result: self.result.dup(),
            path: self.path.dup(),
            pending: self.pending.dup(),
        }
    }

    fn same(&self, other: &Self) -> (r: bool) {
        self.result.same(&other.result)
            && self.path.same(&other.path)
            && self.pending.same(&other.pending)
    }
}

impl Clone for LocateReport {
    fn clone(&self) -> (r: Self)
        ensures
            r.deep_view() == self.deep_view(),
    {
        self.dup()
    }
}

/// An anchor that covers the file, with its key.
#[derive(Debug, PartialEq)]
pub struct Hit {
    pub key: String,
    pub anchor: SourceLocation,
    /// Is it an attached test?
    pub via_test: bool,
}

/// The model of a [`Hit`].
#[verifier::ext_equal]
pub struct HitView {
    pub key: Seq<char>,
    pub anchor: SourceLocationView,
    pub via_test: bool,
}

impl DeepView for Hit {
    type V = HitView;

    open spec fn deep_view(&self) -> HitView {
        HitView {
            key: self.key.deep_view(),
            anchor: self.anchor.deep_view(),
            via_test: self.via_test.deep_view(),
        }
    }
}

impl Modelled for Hit {
    fn dup(&self) -> (r: Self) {
        Hit {
            key: self.key.dup(),
            anchor: self.anchor.dup(),
            via_test: self.via_test.dup(),
        }
    }

    fn same(&self, other: &Self) -> (r: bool) {
        self.key.same(&other.key)
            && self.anchor.same(&other.anchor)
            && self.via_test.same(&other.via_test)
    }
}

impl Clone for Hit {
    fn clone(&self) -> (r: Self)
        ensures
            r.deep_view() == self.deep_view(),
    {
        self.dup()
    }
}

// ---- anchors ----------------------------------------------------------------------------

/// Does an anchor cover the file? It is a path as a rule, and may be a glob.
pub open spec fn covers(pattern: Seq<char>, file: Seq<char>) -> bool {
    pattern == file || matched(pattern, file)
}

/// Are the anchors of a map written with `/` alone?
pub open spec fn anchors_slashed(map: Map<Seq<char>, Seq<SourceLocationView>>) -> bool {
    forall|k: Seq<char>, i: int|
        #![trigger map[k][i]]
        map.contains_key(k) && 0 <= i < map[k].len() ==> slashed(map[k][i].pattern)
}

/// Does an anchor cover the file? It is a path as a rule, and may be a glob.
pub fn pattern_covers(pattern: &str, file: &str) -> (r: bool)
    requires
        slashed(pattern@),
        slashed(file@),
    ensures
        r == covers(pattern@, file@),
{
    same_text(pattern, file) || glob_covers(pattern, file)
}

/// Those of the anchors at a key that cover the file.
pub open spec fn hits_at(
    key: Seq<char>,
    locs: Seq<SourceLocationView>,
    file: Seq<char>,
    via_test: bool,
) -> Seq<HitView>
    decreases locs.len(),
{
    if locs.len() == 0 {
        Seq::empty()
    } else {
        let earlier = hits_at(key, locs.drop_last(), file, via_test);
        if covers(locs.last().pattern, file) {
            earlier.push(HitView { key, anchor: locs.last(), via_test })
        } else {
            earlier
        }
    }
}

/// The anchors in a map that cover the file, in the order of the keys.
pub open spec fn hits_in(
    map: Map<Seq<char>, Seq<SourceLocationView>>,
    keys: Seq<Seq<char>>,
    file: Seq<char>,
    via_test: bool,
) -> Seq<HitView>
    decreases keys.len(),
{
    if keys.len() == 0 {
        Seq::empty()
    } else {
        hits_in(map, keys.drop_last(), file, via_test) + hits_at(
            keys.last(),
            map[keys.last()],
            file,
            via_test,
        )
    }
}

/// The anchors that cover the file: where code stands first, then tests.
pub open spec fn hits(m: ScryModelView, file: Seq<char>) -> Seq<HitView> {
    hits_in(m.source_map, ascending(m.source_map.dom()), file, false) + hits_in(
        m.test_map,
        ascending(m.test_map.dom()),
        file,
        true,
    )
}

/// Those of the anchors that name the symbol.
pub open spec fn naming(hs: Seq<HitView>, symbol: Seq<char>) -> Seq<HitView>
    decreases hs.len(),
{
    if hs.len() == 0 {
        Seq::empty()
    } else if hs.last().anchor.symbol == Some(symbol) {
        naming(hs.drop_last(), symbol).push(hs.last())
    } else {
        naming(hs.drop_last(), symbol)
    }
}

/// Does the symbol narrow the anchors?
pub open spec fn narrows(hs: Seq<HitView>, symbol: Option<Seq<char>>) -> bool {
    symbol is Some && naming(hs, symbol->0).len() > 0
}

/// The anchors that are answered for: those that name the symbol where any does,
/// else all of them.
pub open spec fn kept_hits(hs: Seq<HitView>, symbol: Option<Seq<char>>) -> Seq<HitView> {
    if narrows(hs, symbol) {
        naming(hs, symbol->0)
    } else {
        hs
    }
}

// ---- claims -----------------------------------------------------------------------------

/// The tests attached to a claim.
pub open spec fn tests_of(m: ScryModelView, key: Seq<char>) -> Seq<SourceLocationView> {
    if m.test_map.contains_key(key) {
        m.test_map[key]
    } else {
        Seq::empty()
    }
}

/// A claim as it is located.
pub open spec fn located(
    m: ScryModelView,
    r: ResponsibilityView,
    host_id: Seq<char>,
    host_name: Seq<char>,
    hit: HitView,
) -> LocatedClaimView {
    let tests = tests_of(m, hit.key);
    LocatedClaimView {
        id: r.id,
        statement: Some(r.statement),
        host_id,
        host_name,
        stale: r.stale,
        vagrant: r.vagrant,
        directives: r.directives,
        cites: r.cites,
        anchor: hit.anchor,
        tests,
        untested: pattern_of(r.statement).is_testable() && tests.len() == 0,
        via_test: hit.via_test,
    }
}

/// A node's declaration as it is located. A node cites nothing.
pub open spec fn located_node(n: NodeView, hit: HitView) -> LocatedClaimView {
    LocatedClaimView {
        id: n.id,
        statement: None,
        host_id: n.id,
        host_name: n.name,
        stale: n.stale,
        vagrant: n.vagrant,
        directives: n.directives,
        cites: Seq::empty(),
        anchor: hit.anchor,
        tests: Seq::empty(),
        untested: false,
        via_test: hit.via_test,
    }
}

/// What the key names among the nodes: a claim, or the node itself.
pub open spec fn in_nodes(m: ScryModelView, ns: Seq<NodeView>, hit: HitView) -> Option<
    LocatedClaimView,
>
    decreases ns.len(),
{
    if ns.len() == 0 {
        None
    } else {
        let n = ns[0];
        match first::<Responsibility>(n.responsibilities, hit.key) {
            Some(r) => Some(located(m, r, n.id, n.name, hit)),
            None => if n.id == hit.key {
                Some(located_node(n, hit))
            } else {
                in_nodes(m, ns.drop_first(), hit)
            },
        }
    }
}

/// What the key names among the groups: a claim.
pub open spec fn in_groups(m: ScryModelView, gs: Seq<GroupView>, hit: HitView) -> Option<
    LocatedClaimView,
>
    decreases gs.len(),
{
    if gs.len() == 0 {
        None
    } else {
        match first::<Responsibility>(gs[0].responsibilities, hit.key) {
            Some(r) => Some(located(m, r, gs[0].id, gs[0].name, hit)),
            None => in_groups(m, gs.drop_first(), hit),
        }
    }
}

/// What the key of an anchor names, nodes before groups.
pub open spec fn claim_of_hit(m: ScryModelView, hit: HitView) -> Option<LocatedClaimView> {
    match in_nodes(m, m.nodes, hit) {
        Some(c) => Some(c),
        None => in_groups(m, m.groups, hit),
    }
}

/// What the keys of the anchors name; those that name nothing are passed over.
pub open spec fn claims_of_hits(m: ScryModelView, hs: Seq<HitView>) -> Seq<LocatedClaimView>
    decreases hs.len(),
{
    if hs.len() == 0 {
        Seq::empty()
    } else {
        match claim_of_hit(m, hs.last()) {
            Some(c) => claims_of_hits(m, hs.drop_last()).push(c),
            None => claims_of_hits(m, hs.drop_last()),
        }
    }
}

// ---- owners -----------------------------------------------------------------------------

/// The node called `id`, as a link of an owner chain.
pub open spec fn owner_of_id(ns: Seq<NodeView>, id: Seq<char>) -> Option<OwnerLinkView> {
    match first::<Node>(ns, id) {
        Some(n) => Some(OwnerLinkView { id: n.id, name: n.name, kind: n.kind }),
        None => None,
    }
}

/// The ids as links of an owner chain; those that name no node are passed over.
pub open spec fn owner_links(ns: Seq<NodeView>, ids: Seq<Seq<char>>) -> Seq<OwnerLinkView>
    decreases ids.len(),
{
    if ids.len() == 0 {
        Seq::empty()
    } else {
        match owner_of_id(ns, ids.last()) {
            Some(o) => owner_links(ns, ids.drop_last()).push(o),
            None => owner_links(ns, ids.drop_last()),
        }
    }
}

/// Those of the ids that own the file.
pub open spec fn owners_of(
    rows: Seq<(Seq<char>, Seq<char>)>,
    ids: Seq<Seq<char>>,
    file: Seq<char>,
) -> Seq<Seq<char>>
    decreases ids.len(),
{
    if ids.len() == 0 {
        Seq::empty()
    } else if owned(rows, ids.last(), file) {
        owners_of(rows, ids.drop_last(), file).push(ids.last())
    } else {
        owners_of(rows, ids.drop_last(), file)
    }
}

/// The node whose boundary owns the file: the deepest where several tie, and the
/// first by id of those.
pub open spec fn boundary_owner_of(m: ScryModelView, file: Seq<char>) -> Option<OwnerLinkView> {
    let owners = owners_of(
        boundary_rows(m.boundaries, node_ids(m.nodes)),
        ascending(m.boundaries.dom()),
        file,
    );
    let deepest = at_depth(m.nodes, owners, top_depth(m.nodes, owners));
    if deepest.len() == 0 {
        None
    } else {
        owner_of_id(m.nodes, deepest[0])
    }
}

/// The finest node at the location and its ancestors. The boundary owner stands in
/// where no node maps the file.
pub open spec fn owner_chain_of(
    m: ScryModelView,
    file: Seq<char>,
    symbol: Option<Seq<char>>,
) -> Seq<OwnerLinkView> {
    let fallback = match boundary_owner_of(m, file) {
        Some(o) => o.id,
        None => Seq::empty(),
    };
    let at = finest(m, fallback, file, symbol);
    if at.len() == 0 {
        Seq::empty()
    } else {
        owner_links(m.nodes, lineage(m.nodes, at))
    }
}

/// The directives of the node called `id`.
pub open spec fn directives_of(ns: Seq<NodeView>, id: Seq<char>) -> Seq<DirectiveView> {
    match first::<Node>(ns, id) {
        Some(n) => n.directives,
        None => Seq::empty(),
    }
}

/// What governs the file.
pub open spec fn located_at(
    m: ScryModelView,
    file: Seq<char>,
    symbol: Option<Seq<char>>,
) -> LocateResultView {
    let line = owner_chain_of(m, file, symbol);
    LocateResultView {
        owner_chain: line,
        boundary_owner: boundary_owner_of(m, file),
        claims: claims_of_hits(m, kept_hits(hits(m, file), symbol)),
        own_directives: if line.len() > 0 {
            directives_of(m.nodes, line[0].id)
        } else {
            Seq::empty()
        },
        inherited_directives: if line.len() > 0 {
            all_handed_down(ancestors(m.nodes, line[0].id))
        } else {
            Seq::empty()
        },
        symbol_matched: narrows(hits(m, file), symbol),
    }
}

/// Are the patterns of a model written with `/` alone?
pub open spec fn model_slashed(m: ScryModelView) -> bool {
    boundaries_slashed(m.boundaries) && anchors_slashed(m.source_map) && anchors_slashed(
        m.test_map,
    )
}

// ---- reading ----------------------------------------------------------------------------

fn add_hits(
    map: &StrMap<Vec<SourceLocation>>,
    file: &str,
    via_test: bool,
    out: &mut Vec<Hit>,
)
    requires
        anchors_slashed(map.deep_view()),
        slashed(file@),
    ensures
        final(out).deep_view() == old(out).deep_view() + hits_in(
            map.deep_view(),
            ascending(map.deep_view().dom()),
            file@,
            via_test,
        ),
{
    let ghost o = out.deep_view();
    let ghost mv = map.deep_view();
    let n: usize = map.len();
    let ghost ks = ascending(mv.dom());
    let mut i: usize = 0;
    assert(ks.take(0) =~= Seq::<Seq<char>>::empty());
    assert(o + hits_in(mv, ks.take(0), file@, via_test) =~= o);
    while i < n
        invariant
            i <= n == ks.len(),
            mv == map.deep_view(),
            ks == ascending(mv.dom()),
            anchors_slashed(mv),
            slashed(file@),
            out.deep_view() == o + hits_in(mv, ks.take(i as int), file@, via_test),
        decreases n - i,
    {
        let key = map.key_at(i);
        let locs = map.value_at(i);
        let ghost ls = locs.deep_view();
        let ghost earlier = hits_in(mv, ks.take(i as int), file@, via_test);
        let mut j: usize = 0;
        proof {
            assert(ks.take(i + 1).drop_last() =~= ks.take(i as int));
            assert(ls.take(0) =~= Seq::<SourceLocationView>::empty());
            assert(o + (earlier + hits_at(key@, ls.take(0), file@, via_test)) =~= o + earlier);
        }
        while j < locs.len()
            invariant
                j <= locs@.len(),
                ls == locs.deep_view(),
                mv.contains_key(key@),
                mv[key@] == ls,
                anchors_slashed(mv),
                slashed(file@),
                out.deep_view() == o + (earlier + hits_at(
                    key@,
                    ls.take(j as int),
                    file@,
                    via_test,
                )),
            decreases locs@.len() - j,
        {
            let l = at(locs, j);
            proof {
                assert(slashed(mv[key@][j as int].pattern));
                assert(ls.take(j + 1).drop_last() =~= ls.take(j as int));
            }
            let ghost mine = hits_at(key@, ls.take(j as int), file@, via_test);
            if pattern_covers(l.pattern.as_str(), file) {
                let h = Hit { key: key.clone(), anchor: l.dup(), via_test };
                put(out, h);
                assert((o + (earlier + mine)).push(h.deep_view()) =~= o + (earlier + mine.push(
                    h.deep_view(),
                )));
            }
            j += 1;
        }
        assert(ls.take(ls.len() as int) =~= ls);
        i += 1;
    }
    assert(ks.take(n as int) =~= ks);
}

fn hits_naming(hs: &Vec<Hit>, symbol: &str) -> (r: Vec<Hit>)
    ensures
        r.deep_view() == naming(hs.deep_view(), symbol@),
{
    let ghost v = hs.deep_view();
    let mut out: Vec<Hit> = fresh();
    let mut i: usize = 0;
    assert(v.take(0) =~= Seq::<HitView>::empty());
    while i < hs.len()
        invariant
            i <= hs@.len(),
            v == hs.deep_view(),
            out.deep_view() == naming(v.take(i as int), symbol@),
        decreases hs@.len() - i,
    {
        let h = at(hs, i);
        assert(v.take(i + 1).drop_last() =~= v.take(i as int));
        match &h.anchor.symbol {
            Some(s) => {
                if same_text(s.as_str(), symbol) {
                    put(&mut out, h.dup());
                }
            },
            None => {},
        }
        i += 1;
    }
    assert(v.take(v.len() as int) =~= v);
    out
}

fn locate_claim(
    model: &ScryModel,
    r: &Responsibility,
    host_id: &String,
    host_name: &String,
    hit: &Hit,
) -> (c: LocatedClaim)
    ensures
        c.deep_view() == located(
            model.deep_view(),
            r.deep_view(),
            host_id@,
            host_name@,
            hit.deep_view(),
        ),
{
    let tests = match model.test_map.get(hit.key.as_str()) {
        Some(t) => t.dup(),
        None => fresh(),
    };
    LocatedClaim {
        id: r.id.dup(),
        statement: Some(r.statement.dup()),
        host_id: host_id.clone(),
        host_name: host_name.clone(),
        stale: r.stale,
        vagrant: r.vagrant,
        directives: r.directives.dup(),
        cites: r.cites.dup(),
        anchor: hit.anchor.dup(),
        untested: classify(r.statement.as_str()).testable() && tests.len() == 0,
        tests,
        via_test: hit.via_test,
    }
}

/// What the key of an anchor names: a claim of a node or group, or the declaration of
/// a node. Nothing for a key that resolves to nothing.
fn resolve_claim(model: &ScryModel, hit: &Hit) -> (r: Option<LocatedClaim>)
    ensures
        r.deep_view() == claim_of_hit(model.deep_view(), hit.deep_view()),
{
    let ghost m = model.deep_view();
    let ghost hv = hit.deep_view();
    let ghost want = claim_of_hit(m, hv);
    let mut i: usize = 0;
    assert(m.nodes.skip(0) =~= m.nodes);
    while i < model.nodes.len()
        invariant
            i <= model.nodes@.len(),
            m == model.deep_view(),
            hv == hit.deep_view(),
            want == claim_of_hit(m, hv),
            in_nodes(m, m.nodes, hv) == in_nodes(m, m.nodes.skip(i as int), hv),
        decreases model.nodes@.len() - i,
    {
        let n = at(&model.nodes, i);
        assert(m.nodes.skip(i as int)[0] == n.deep_view());
        assert(m.nodes.skip(i as int).drop_first() =~= m.nodes.skip(i + 1));
        match find(&n.responsibilities, hit.key.as_str()) {
            Some(k) => {
                let r = at(&n.responsibilities, k);
                return Some(locate_claim(model, r, &n.id, &n.name, hit));
            },
            None => {},
        }
        if same_text(n.id.as_str(), hit.key.as_str()) {
            return Some(
                LocatedClaim {
                    id: n.id.dup(),
                    statement: None,
                    host_id: n.id.dup(),
                    host_name: n.name.dup(),
                    stale: n.stale,
                    vagrant: n.vagrant,
                    directives: n.directives.dup(),
                    cites: fresh(),
                    anchor: hit.anchor.dup(),
                    tests: fresh(),
                    untested: false,
                    via_test: hit.via_test,
                },
            );
        }
        i += 1;
    }
    assert(in_nodes(m, m.nodes, hv) is None);
    i = 0;
    assert(m.groups.skip(0) =~= m.groups);
    while i < model.groups.len()
        invariant
            i <= model.groups@.len(),
            m == model.deep_view(),
            hv == hit.deep_view(),
            want == claim_of_hit(m, hv),
            in_nodes(m, m.nodes, hv) is None,
            in_groups(m, m.groups, hv) == in_groups(m, m.groups.skip(i as int), hv),
        decreases model.groups@.len() - i,
    {
        let g = at(&model.groups, i);
        assert(m.groups.skip(i as int)[0] == g.deep_view());
        assert(m.groups.skip(i as int).drop_first() =~= m.groups.skip(i + 1));
        match find(&g.responsibilities, hit.key.as_str()) {
            Some(k) => {
                let r = at(&g.responsibilities, k);
                return Some(locate_claim(model, r, &g.id, &g.name, hit));
            },
            None => {},
        }
        i += 1;
    }
    None
}

fn resolve_claims(model: &ScryModel, hs: &Vec<Hit>) -> (r: Vec<LocatedClaim>)
    ensures
        r.deep_view() == claims_of_hits(model.deep_view(), hs.deep_view()),
{
    let ghost m = model.deep_view();
    let ghost v = hs.deep_view();
    let mut out: Vec<LocatedClaim> = fresh();
    let mut i: usize = 0;
    assert(v.take(0) =~= Seq::<HitView>::empty());
    while i < hs.len()
        invariant
            i <= hs@.len(),
            m == model.deep_view(),
            v == hs.deep_view(),
            out.deep_view() == claims_of_hits(m, v.take(i as int)),
        decreases hs@.len() - i,
    {
        let h = at(hs, i);
        assert(v.take(i + 1).drop_last() =~= v.take(i as int));
        match resolve_claim(model, h) {
            Some(c) => {
                put(&mut out, c);
            },
            None => {},
        }
        i += 1;
    }
    assert(v.take(v.len() as int) =~= v);
    out
}

fn owner_link(model: &ScryModel, id: &str) -> (r: Option<OwnerLink>)
    ensures
        r.deep_view() == owner_of_id(model.deep_view().nodes, id@),
{
    match find(&model.nodes, id) {
        Some(i) => {
            let n = at(&model.nodes, i);
            Some(OwnerLink { id: n.id.dup(), name: n.name.dup(), kind: n.kind })
        },
        None => None,
    }
}

/// The node whose boundary owns the file: the deepest where several tie.
fn boundary_owner(model: &ScryModel, file: &str) -> (r: Option<OwnerLink>)
    requires
        boundaries_slashed(model.deep_view().boundaries),
        slashed(file@),
    ensures
        r.deep_view() == boundary_owner_of(model.deep_view(), file@),
{
    let ghost m = model.deep_view();
    let ownership = BoundaryOwnership::new(model);
    let ghost rows = boundary_rows(m.boundaries, node_ids(m.nodes));
    let n: usize = model.boundaries.len();
    let ghost ks = ascending(m.boundaries.dom());
    proof {
        lemma_boundary_rows_slashed(m.boundaries, node_ids(m.nodes));
    }
    let mut owners: Vec<String> = fresh();
    let mut i: usize = 0;
    assert(ks.take(0) =~= Seq::<Seq<char>>::empty());
    while i < n
        invariant
            i <= n == ks.len(),
            m == model.deep_view(),
            ks == ascending(m.boundaries.dom()),
            ownership.deep_view() == rows,
            rows_slashed(rows),
            slashed(file@),
            owners.deep_view() == owners_of(rows, ks.take(i as int), file@),
        decreases n - i,
    {
        let id = model.boundaries.key_at(i);
        assert(ks.take(i + 1).drop_last() =~= ks.take(i as int));
        if ownership.owns(id.as_str(), file) {
            put(&mut owners, id.clone());
        }
        i += 1;
    }
    assert(ks.take(n as int) =~= ks);
    let deepest = deepest_of(model, &owners);
    if deepest.len() == 0 {
        None
    } else {
        owner_link(model, at(&deepest, 0).as_str())
    }
}

fn chain_links(model: &ScryModel, ids: &Vec<String>) -> (r: Vec<OwnerLink>)
    ensures
        r.deep_view() == owner_links(model.deep_view().nodes, ids.deep_view()),
{
    let ghost ns = model.deep_view().nodes;
    let ghost v = ids.deep_view();
    let mut out: Vec<OwnerLink> = fresh();
    let mut i: usize = 0;
    assert(v.take(0) =~= Seq::<Seq<char>>::empty());
    while i < ids.len()
        invariant
            i <= ids@.len(),
            ns == model.deep_view().nodes,
            v == ids.deep_view(),
            out.deep_view() == owner_links(ns, v.take(i as int)),
        decreases ids@.len() - i,
    {
        assert(v.take(i + 1).drop_last() =~= v.take(i as int));
        match owner_link(model, at(ids, i).as_str()) {
            Some(o) => {
                put(&mut out, o);
            },
            None => {},
        }
        i += 1;
    }
    assert(v.take(v.len() as int) =~= v);
    out
}

fn is_empty_text(s: &String) -> (r: bool)
    ensures
        r == (s@.len() == 0),
{
    let r = same_text(s.as_str(), "");
    proof {
        reveal_strlit("");
        assert(s@.len() == 0 ==> s@ =~= ""@);
    }
    r
}

/// What governs `file` (relative to the project, written with `/`). Pass the working
/// view where plan edits must be seen. `symbol` narrows to the claims anchored to it
/// where there are any; otherwise all of the file's claims are given.
pub fn locate(model: &ScryModel, file: &str, symbol: Option<&str>) -> (r: LocateResult)
    requires
        model_slashed(model.deep_view()),
        slashed(file@),
    ensures
        r.deep_view() == located_at(model.deep_view(), file@, opt_text(symbol)),
{
    let ghost m = model.deep_view();
    let mut hs: Vec<Hit> = fresh();
    add_hits(&model.source_map, file, false, &mut hs);
    add_hits(&model.test_map, file, true, &mut hs);
    assert(hs.deep_view() =~= hits(m, file@));
    let mut symbol_matched = false;
    match symbol {
        Some(sym) => {
            let narrowed = hits_naming(&hs, sym);
            if narrowed.len() > 0 {
                hs = narrowed;
                symbol_matched = true;
            }
        },
        None => {},
    }
    let claims = resolve_claims(model, &hs);
    let boundary_owner = boundary_owner(model, file);
    let fallback = match &boundary_owner {
        Some(o) => o.id.dup(),
        None => String::new(),
    };
    let at_node = owning_node_for_location(model, fallback.as_str(), file, symbol);
    let owner_chain: Vec<OwnerLink> = if is_empty_text(&at_node) {
        fresh()
    } else {
        let line = node_ancestry(model, at_node.as_str());
        chain_links(model, &line)
    };
    let (own_directives, inherited) = if owner_chain.len() > 0 {
        let o = at(&owner_chain, 0);
        let own = match find(&model.nodes, o.id.as_str()) {
            Some(i) => at(&model.nodes, i).directives.dup(),
            None => fresh(),
        };
        (own, inherited_directives(model, o.id.as_str()))
    } else {
        (fresh(), fresh())
    };
    LocateResult {
        owner_chain,
        boundary_owner,
        claims,
        own_directives,
        inherited_directives: inherited,
        symbol_matched,
    }
}

// ---- the report -------------------------------------------------------------------------

/// Is the id that of a located element?
pub open spec fn is_located(res: LocateResultView, id: Seq<char>) -> bool {
    ||| exists|i: int| 0 <= i < res.owner_chain.len() && (#[trigger] res.owner_chain[i]).id == id
    ||| res.boundary_owner is Some && res.boundary_owner->0.id == id
    ||| exists|i: int|
        0 <= i < res.claims.len() && ((#[trigger] res.claims[i]).id == id || res.claims[i].host_id
            == id)
}

/// Does the change touch a located element, or something that one owns?
pub open spec fn touches(res: LocateResultView, c: ElementChangeView) -> bool {
    is_located(res, c.id) || (c.owner_id is Some && is_located(res, c.owner_id->0))
}

/// Those of the changes that touch what was located.
pub open spec fn touching(
    res: LocateResultView,
    cs: Seq<ElementChangeView>,
) -> Seq<ElementChangeView>
    decreases cs.len(),
{
    if cs.len() == 0 {
        Seq::empty()
    } else if touches(res, cs.last()) {
        touching(res, cs.drop_last()).push(cs.last())
    } else {
        touching(res, cs.drop_last())
    }
}

/// The names of an owner chain, from the root down.
pub open spec fn names_down(line: Seq<OwnerLinkView>) -> Seq<Seq<char>> {
    Seq::new(line.len(), |i: int| line[line.len() - 1 - i].name)
}

/// What governs a file in the working view of the two layers, with what is pending
/// there.
pub open spec fn report_of(
    committed: ScryModelView,
    planned: ScryModelView,
    file: Seq<char>,
    symbol: Option<Seq<char>>,
) -> LocateReportView {
    let result = located_at(working(committed, planned), file, symbol);
    LocateReportView {
        result,
        path: if result.owner_chain.len() > 0 {
            Some(joined(names_down(result.owner_chain), " / "@))
        } else {
            None
        },
        pending: touching(result, diff_of(committed, planned)),
    }
}

fn is_there(res: &LocateResult, id: &str) -> (r: bool)
    ensures
        r == is_located(res.deep_view(), id@),
{
    let ghost v = res.deep_view();
    let mut i: usize = 0;
    while i < res.owner_chain.len()
        invariant
            i <= res.owner_chain@.len(),
            v == res.deep_view(),
            forall|j: int| 0 <= j < i ==> (#[trigger] v.owner_chain[j]).id != id@,
        decreases res.owner_chain@.len() - i,
    {
        let o = at(&res.owner_chain, i);
        assert(v.owner_chain[i as int] == o.deep_view());
        if same_text(o.id.as_str(), id) {
            return true;
        }
        i += 1;
    }
    match &res.boundary_owner {
        Some(b) => {
            if same_text(b.id.as_str(), id) {
                return true;
            }
        },
        None => {},
    }
    i = 0;
    while i < res.claims.len()
        invariant
            i <= res.claims@.len(),
            v == res.deep_view(),
            forall|j: int|
                0 <= j < i ==> (#[trigger] v.claims[j]).id != id@ && v.claims[j].host_id != id@,
        decreases res.claims@.len() - i,
    {
        let c = at(&res.claims, i);
        assert(v.claims[i as int] == c.deep_view());
        if same_text(c.id.as_str(), id) || same_text(c.host_id.as_str(), id) {
            return true;
        }
        i += 1;
    }
    false
}

fn pending_at(res: &LocateResult, cs: &Vec<ElementChange>) -> (r: Vec<ElementChange>)
    ensures
        r.deep_view() == touching(res.deep_view(), cs.deep_view()),
{
    let ghost v = cs.deep_view();
    let mut out: Vec<ElementChange> = fresh();
    let mut i: usize = 0;
    assert(v.take(0) =~= Seq::<ElementChangeView>::empty());
    while i < cs.len()
        invariant
            i <= cs@.len(),
            v == cs.deep_view(),
            out.deep_view() == touching(res.deep_view(), v.take(i as int)),
        decreases cs@.len() - i,
    {
        let c = at(cs, i);
        assert(v.take(i + 1).drop_last() =~= v.take(i as int));
        let owner_there = match &c.owner_id {
            Some(o) => is_there(res, o.as_str()),
            None => false,
        };
        if owner_there || is_there(res, c.id.as_str()) {
            put(&mut out, c.dup());
        }
        i += 1;
    }
    assert(v.take(v.len() as int) =~= v);
    out
}

/// What governs `file` in the working view of the two layers (the plan, with the
/// committed anchors), with the way down to it and the plan entries that touch what
/// was located.
pub fn locate_at(
    committed: &ScryModel,
    planned: &ScryModel,
    file: &str,
    symbol: Option<&str>,
) -> (r: LocateReport)
    requires
        model_slashed(working(committed.deep_view(), planned.deep_view())),
        slashed(file@),
    ensures
        r.deep_view() == report_of(
            committed.deep_view(),
            planned.deep_view(),
            file@,
            opt_text(symbol),
        ),
{
    let view = working_view(committed, planned);
    let result = locate(&view, file, symbol);
    let plan = diff(committed, planned);
    let pending = pending_at(&result, &plan.changes);
    let ghost line = result.owner_chain.deep_view();
    let ghost want = names_down(line);
    let mut names: Vec<String> = fresh();
    let n: usize = result.owner_chain.len();
    let mut i: usize = 0;
    assert(want.take(0) =~= Seq::<Seq<char>>::empty());
    while i < n
        invariant
            i <= n == result.owner_chain@.len(),
            line == result.owner_chain.deep_view(),
            want == names_down(line),
            names.deep_view() == want.take(i as int),
        decreases n - i,
    {
        let o = at(&result.owner_chain, n - 1 - i);
        put(&mut names, o.name.dup());
        assert(want.take(i + 1) =~= want.take(i as int).push(want[i as int]));
        i += 1;
    }
    assert(want.take(n as int) =~= want);
    let path = if n > 0 {
        Some(join(&names, " / "))
    } else {
        None
    };
    LocateReport { result, path, pending }
}

// ---- laws -------------------------------------------------------------------------------

proof fn lemma_claim_keeps_hit(m: ScryModelView, hit: HitView)
    ensures
        claim_of_hit(m, hit) is Some ==> claim_of_hit(m, hit)->0.anchor == hit.anchor
            && claim_of_hit(m, hit)->0.via_test == hit.via_test && (claim_of_hit(
            m,
            hit,
        )->0.untested ==> claim_of_hit(m, hit)->0.tests.len() == 0 && claim_of_hit(
            m,
            hit,
        )->0.statement is Some && pattern_of(claim_of_hit(m, hit)->0.statement->0).is_testable()),
{
    lemma_in_nodes(m, m.nodes, hit);
    lemma_in_groups(m, m.groups, hit);
}

spec fn keeps_hit(c: Option<LocatedClaimView>, hit: HitView) -> bool {
    c is Some ==> c->0.anchor == hit.anchor && c->0.via_test == hit.via_test && (c->0.untested
        ==> c->0.tests.len() == 0 && c->0.statement is Some && pattern_of(
        c->0.statement->0,
    ).is_testable())
}

proof fn lemma_in_nodes(m: ScryModelView, ns: Seq<NodeView>, hit: HitView)
    ensures
        keeps_hit(in_nodes(m, ns, hit), hit),
    decreases ns.len(),
{
    if ns.len() > 0 {
        lemma_in_nodes(m, ns.drop_first(), hit);
    }
}

proof fn lemma_in_groups(m: ScryModelView, gs: Seq<GroupView>, hit: HitView)
    ensures
        keeps_hit(in_groups(m, gs, hit), hit),
    decreases gs.len(),
{
    if gs.len() > 0 {
        lemma_in_groups(m, gs.drop_first(), hit);
    }
}

proof fn lemma_claims_of_hits(
    m: ScryModelView,
    hs: Seq<HitView>,
    p: spec_fn(SourceLocationView) -> bool,
)
    requires
        forall|i: int| 0 <= i < hs.len() ==> p((#[trigger] hs[i]).anchor),
    ensures
        forall|i: int|
            0 <= i < claims_of_hits(m, hs).len() ==> p((#[trigger] claims_of_hits(m, hs)[i]).anchor)
                && (claims_of_hits(m, hs)[i].untested ==> claims_of_hits(m, hs)[i].tests.len() == 0
                && claims_of_hits(m, hs)[i].statement is Some && pattern_of(
                claims_of_hits(m, hs)[i].statement->0,
            ).is_testable()),
    decreases hs.len(),
{
    if hs.len() > 0 {
        let d = hs.drop_last();
        assert forall|i: int| 0 <= i < d.len() implies p((#[trigger] d[i]).anchor) by {
            assert(d[i] == hs[i]);
        }
        lemma_claims_of_hits(m, d, p);
        lemma_claim_keeps_hit(m, hs.last());
        assert(p(hs[hs.len() - 1].anchor));
        let before = claims_of_hits(m, d);
        let all = claims_of_hits(m, hs);
        assert forall|i: int| 0 <= i < all.len() implies p((#[trigger] all[i]).anchor) && (
        all[i].untested ==> all[i].tests.len() == 0 && all[i].statement is Some && pattern_of(
            all[i].statement->0,
        ).is_testable()) by {
            if i < before.len() {
                assert(all[i] == before[i]);
            }
        }
    }
}

proof fn lemma_hits_at(
    key: Seq<char>,
    locs: Seq<SourceLocationView>,
    file: Seq<char>,
    via_test: bool,
)
    ensures
        forall|i: int|
            0 <= i < hits_at(key, locs, file, via_test).len() ==> covers(
                (#[trigger] hits_at(key, locs, file, via_test)[i]).anchor.pattern,
                file,
            ),
    decreases locs.len(),
{
    if locs.len() > 0 {
        let before = hits_at(key, locs.drop_last(), file, via_test);
        let all = hits_at(key, locs, file, via_test);
        lemma_hits_at(key, locs.drop_last(), file, via_test);
        assert forall|i: int| 0 <= i < all.len() implies covers(
            (#[trigger] all[i]).anchor.pattern,
            file,
        ) by {
            if i < before.len() {
                assert(all[i] == before[i]);
            }
        }
    }
}

proof fn lemma_hits_in(
    map: Map<Seq<char>, Seq<SourceLocationView>>,
    keys: Seq<Seq<char>>,
    file: Seq<char>,
    via_test: bool,
)
    ensures
        forall|i: int|
            0 <= i < hits_in(map, keys, file, via_test).len() ==> covers(
                (#[trigger] hits_in(map, keys, file, via_test)[i]).anchor.pattern,
                file,
            ),
    decreases keys.len(),
{
    if keys.len() > 0 {
        let before = hits_in(map, keys.drop_last(), file, via_test);
        let mine = hits_at(keys.last(), map[keys.last()], file, via_test);
        let all = hits_in(map, keys, file, via_test);
        lemma_hits_in(map, keys.drop_last(), file, via_test);
        lemma_hits_at(keys.last(), map[keys.last()], file, via_test);
        assert forall|i: int| 0 <= i < all.len() implies covers(
            (#[trigger] all[i]).anchor.pattern,
            file,
        ) by {
            if i < before.len() {
                assert(all[i] == before[i]);
            } else {
                assert(all[i] == mine[i - before.len()]);
            }
        }
    }
}

proof fn lemma_naming(hs: Seq<HitView>, symbol: Seq<char>)
    ensures
        forall|i: int|
            0 <= i < naming(hs, symbol).len() ==> (#[trigger] naming(
                hs,
                symbol,
            )[i]).anchor.symbol == Some(symbol) && hs.contains(naming(hs, symbol)[i]),
    decreases hs.len(),
{
    if hs.len() > 0 {
        let d = hs.drop_last();
        let before = naming(d, symbol);
        let all = naming(hs, symbol);
        lemma_naming(d, symbol);
        assert forall|i: int| 0 <= i < all.len() implies (#[trigger] all[i]).anchor.symbol == Some(
            symbol,
        ) && hs.contains(all[i]) by {
            if i < before.len() {
                assert(all[i] == before[i]);
                assert(d.contains(before[i]));
                let k = choose|k: int| 0 <= k < d.len() && d[k] == before[i];
                assert(hs[k] == all[i]);
            } else {
                assert(hs[hs.len() - 1] == all[i]);
            }
        }
    }
}

/// Every located claim is anchored where it was located: its anchor covers the file.
/// One that is flagged untested is in a testable form and has no test attached.
pub proof fn law_located_claims_cover_the_file(
    m: ScryModelView,
    file: Seq<char>,
    symbol: Option<Seq<char>>,
)
    ensures
        forall|i: int|
            0 <= i < located_at(m, file, symbol).claims.len() ==> covers(
                (#[trigger] located_at(m, file, symbol).claims[i]).anchor.pattern,
                file,
            ),
        forall|i: int|
            0 <= i < located_at(m, file, symbol).claims.len() && (#[trigger] located_at(
                m,
                file,
                symbol,
            ).claims[i]).untested ==> located_at(m, file, symbol).claims[i].tests.len() == 0
                && located_at(m, file, symbol).claims[i].statement is Some && pattern_of(
                located_at(m, file, symbol).claims[i].statement->0,
            ).is_testable(),
{
    let a = hits_in(m.source_map, ascending(m.source_map.dom()), file, false);
    let b = hits_in(m.test_map, ascending(m.test_map.dom()), file, true);
    lemma_hits_in(m.source_map, ascending(m.source_map.dom()), file, false);
    lemma_hits_in(m.test_map, ascending(m.test_map.dom()), file, true);
    let hs = hits(m, file);
    assert forall|i: int| 0 <= i < hs.len() implies covers(
        (#[trigger] hs[i]).anchor.pattern,
        file,
    ) by {
        if i < a.len() {
            assert(hs[i] == a[i]);
        } else {
            assert(hs[i] == b[i - a.len()]);
        }
    }
    let kept = kept_hits(hs, symbol);
    let p = |l: SourceLocationView| covers(l.pattern, file);
    if narrows(hs, symbol) {
        lemma_naming(hs, symbol->0);
        assert forall|i: int| 0 <= i < kept.len() implies p((#[trigger] kept[i]).anchor) by {
            assert(hs.contains(kept[i]));
            let k = choose|k: int| 0 <= k < hs.len() && hs[k] == kept[i];
            assert(covers(hs[k].anchor.pattern, file));
        }
    }
    lemma_claims_of_hits(m, kept, p);
    let cs = claims_of_hits(m, kept);
    assert forall|i: int| 0 <= i < cs.len() implies covers((#[trigger] cs[i]).anchor.pattern, file) by {
        assert(p(cs[i].anchor));
    }
}

/// The claims that are anchored to the symbol, in order.
pub open spec fn cut_down(cs: Seq<LocatedClaimView>, symbol: Seq<char>) -> Seq<LocatedClaimView>
    decreases cs.len(),
{
    if cs.len() == 0 {
        Seq::empty()
    } else if cs.last().anchor.symbol == Some(symbol) {
        cut_down(cs.drop_last(), symbol).push(cs.last())
    } else {
        cut_down(cs.drop_last(), symbol)
    }
}

proof fn lemma_cut_down(m: ScryModelView, hs: Seq<HitView>, symbol: Seq<char>)
    ensures
        cut_down(claims_of_hits(m, hs), symbol) == claims_of_hits(m, naming(hs, symbol)),
    decreases hs.len(),
{
    if hs.len() > 0 {
        let d = hs.drop_last();
        let h = hs.last();
        lemma_cut_down(m, d, symbol);
        lemma_claim_keeps_hit(m, h);
        let all = claims_of_hits(m, hs);
        if claim_of_hit(m, h) is Some {
            assert(all.drop_last() =~= claims_of_hits(m, d));
            assert(all.last() == claim_of_hit(m, h)->0);
        }
        if h.anchor.symbol == Some(symbol) {
            let named = naming(hs, symbol);
            assert(named.drop_last() =~= naming(d, symbol));
            assert(named.last() == h);
        }
    }
}

proof fn lemma_narrows_or_falls_back(
    m: ScryModelView,
    file: Seq<char>,
    symbol: Seq<char>,
)
    ensures
        located_at(m, file, Some(symbol)).symbol_matched ==> forall|i: int|
            0 <= i < located_at(m, file, Some(symbol)).claims.len() ==> (#[trigger] located_at(
                m,
                file,
                Some(symbol),
            ).claims[i]).anchor.symbol == Some(symbol),
        !located_at(m, file, Some(symbol)).symbol_matched ==> located_at(
            m,
            file,
            Some(symbol),
        ).claims == located_at(m, file, None).claims,
        !located_at(m, file, None).symbol_matched,
{
    let hs = hits(m, file);
    if narrows(hs, Some(symbol)) {
        lemma_naming(hs, symbol);
        let p = |l: SourceLocationView| l.symbol == Some(symbol);
        let kept = naming(hs, symbol);
        lemma_claims_of_hits(m, kept, p);
        let cs = claims_of_hits(m, kept);
        assert forall|i: int| 0 <= i < cs.len() implies (#[trigger] cs[i]).anchor.symbol == Some(
            symbol,
        ) by {
            assert(p(cs[i].anchor));
        }
    }
}

/// Does an anchor of the map cover the file and name the symbol?
pub open spec fn anchored_to(
    map: Map<Seq<char>, Seq<SourceLocationView>>,
    file: Seq<char>,
    symbol: Seq<char>,
) -> bool {
    exists|k: Seq<char>, i: int|
        #![trigger map[k][i]]
        map.contains_key(k) && 0 <= i < map[k].len() && covers(map[k][i].pattern, file)
            && map[k][i].symbol == Some(symbol)
}

spec fn some_named(hs: Seq<HitView>, symbol: Seq<char>) -> bool {
    exists|i: int| 0 <= i < hs.len() && (#[trigger] hs[i]).anchor.symbol == Some(symbol)
}

proof fn lemma_some_named(hs: Seq<HitView>, symbol: Seq<char>)
    ensures
        naming(hs, symbol).len() > 0 <==> some_named(hs, symbol),
    decreases hs.len(),
{
    if hs.len() > 0 {
        let d = hs.drop_last();
        lemma_some_named(d, symbol);
        if some_named(d, symbol) {
            let i = choose|i: int|
                0 <= i < d.len() && (#[trigger] d[i]).anchor.symbol == Some(symbol);
            assert(hs[i].anchor.symbol == Some(symbol));
        }
        if some_named(hs, symbol) {
            let i = choose|i: int|
                0 <= i < hs.len() && (#[trigger] hs[i]).anchor.symbol == Some(symbol);
            if i < d.len() {
                assert(d[i].anchor.symbol == Some(symbol));
            }
        }
        assert(hs[hs.len() - 1] == hs.last());
    }
}

proof fn lemma_named_sum(a: Seq<HitView>, b: Seq<HitView>, symbol: Seq<char>)
    ensures
        some_named(a + b, symbol) <==> some_named(a, symbol) || some_named(b, symbol),
{
    let s = a + b;
    if some_named(a, symbol) {
        let i = choose|i: int| 0 <= i < a.len() && (#[trigger] a[i]).anchor.symbol == Some(symbol);
        assert(s[i].anchor.symbol == Some(symbol));
    }
    if some_named(b, symbol) {
        let i = choose|i: int| 0 <= i < b.len() && (#[trigger] b[i]).anchor.symbol == Some(symbol);
        assert(s[a.len() + i].anchor.symbol == Some(symbol));
    }
    if some_named(s, symbol) {
        let i = choose|i: int| 0 <= i < s.len() && (#[trigger] s[i]).anchor.symbol == Some(symbol);
        if i < a.len() {
            assert(a[i].anchor.symbol == Some(symbol));
        } else {
            assert(b[i - a.len()].anchor.symbol == Some(symbol));
        }
    }
}

proof fn lemma_named_at(
    key: Seq<char>,
    locs: Seq<SourceLocationView>,
    file: Seq<char>,
    via_test: bool,
    symbol: Seq<char>,
)
    ensures
        some_named(hits_at(key, locs, file, via_test), symbol) <==> exists|i: int|
            0 <= i < locs.len() && covers((#[trigger] locs[i]).pattern, file) && locs[i].symbol
                == Some(symbol),
    decreases locs.len(),
{
    if locs.len() > 0 {
        let d = locs.drop_last();
        lemma_named_at(key, d, file, via_test, symbol);
        let l = locs.last();
        assert(locs[locs.len() - 1] == l);
        let one = seq![HitView { key, anchor: l, via_test }];
        lemma_named_sum(hits_at(key, d, file, via_test), one, symbol);
        assert(hits_at(key, d, file, via_test) + one =~= hits_at(key, d, file, via_test).push(
            one[0],
        ));
        assert(some_named(one, symbol) <==> one[0].anchor.symbol == Some(symbol));
        if exists|i: int|
            0 <= i < d.len() && covers((#[trigger] d[i]).pattern, file) && d[i].symbol == Some(
                symbol,
            ) {
            let i = choose|i: int|
                0 <= i < d.len() && covers((#[trigger] d[i]).pattern, file) && d[i].symbol == Some(
                    symbol,
                );
            assert(covers(locs[i].pattern, file));
        }
        if exists|i: int|
            0 <= i < locs.len() && covers((#[trigger] locs[i]).pattern, file) && locs[i].symbol
                == Some(symbol) {
            let i = choose|i: int|
                0 <= i < locs.len() && covers((#[trigger] locs[i]).pattern, file) && locs[i].symbol
                    == Some(symbol);
            if i < d.len() {
                assert(covers(d[i].pattern, file));
            }
        }
    }
}

proof fn lemma_named_in(
    map: Map<Seq<char>, Seq<SourceLocationView>>,
    keys: Seq<Seq<char>>,
    file: Seq<char>,
    via_test: bool,
    symbol: Seq<char>,
)
    ensures
        some_named(hits_in(map, keys, file, via_test), symbol) <==> exists|j: int|
            0 <= j < keys.len() && some_named(
                hits_at(#[trigger] keys[j], map[keys[j]], file, via_test),
                symbol,
            ),
    decreases keys.len(),
{
    if keys.len() > 0 {
        let d = keys.drop_last();
        lemma_named_in(map, d, file, via_test, symbol);
        let k = keys.last();
        assert(keys[keys.len() - 1] == k);
        lemma_named_sum(
            hits_in(map, d, file, via_test),
            hits_at(k, map[k], file, via_test),
            symbol,
        );
        if exists|j: int|
            0 <= j < d.len() && some_named(
                hits_at(#[trigger] d[j], map[d[j]], file, via_test),
                symbol,
            ) {
            let j = choose|j: int|
                0 <= j < d.len() && some_named(
                    hits_at(#[trigger] d[j], map[d[j]], file, via_test),
                    symbol,
                );
            assert(keys[j] == d[j]);
        }
        if exists|j: int|
            0 <= j < keys.len() && some_named(
                hits_at(#[trigger] keys[j], map[keys[j]], file, via_test),
                symbol,
            ) {
            let j = choose|j: int|
                0 <= j < keys.len() && some_named(
                    hits_at(#[trigger] keys[j], map[keys[j]], file, via_test),
                    symbol,
                );
            if j < d.len() {
                assert(keys[j] == d[j]);
            }
        }
    }
}

proof fn lemma_anchored_to(
    map: Map<Seq<char>, Seq<SourceLocationView>>,
    file: Seq<char>,
    via_test: bool,
    symbol: Seq<char>,
)
    requires
        map.dom().finite(),
    ensures
        some_named(hits_in(map, ascending(map.dom()), file, via_test), symbol) <==> anchored_to(
            map,
            file,
            symbol,
        ),
{
    let keys = ascending(map.dom());
    lemma_ascending_of(map.dom());
    lemma_named_in(map, keys, file, via_test, symbol);
    if anchored_to(map, file, symbol) {
        let (k, i) = choose|k: Seq<char>, i: int|
            #![trigger map[k][i]]
            map.contains_key(k) && 0 <= i < map[k].len() && covers(map[k][i].pattern, file)
                && map[k][i].symbol == Some(symbol);
        assert(keys.to_set().contains(k));
        let j = choose|j: int| 0 <= j < keys.len() && keys[j] == k;
        lemma_named_at(k, map[k], file, via_test, symbol);
        assert(covers(map[k][i].pattern, file));
        assert(some_named(hits_at(keys[j], map[keys[j]], file, via_test), symbol));
    }
    if exists|j: int|
        0 <= j < keys.len() && some_named(
            hits_at(#[trigger] keys[j], map[keys[j]], file, via_test),
            symbol,
        ) {
        let j = choose|j: int|
            0 <= j < keys.len() && some_named(
                hits_at(#[trigger] keys[j], map[keys[j]], file, via_test),
                symbol,
            );
        let k = keys[j];
        assert(keys.to_set().contains(k));
        lemma_named_at(k, map[k], file, via_test, symbol);
        let i = choose|i: int|
            0 <= i < map[k].len() && covers((#[trigger] map[k][i]).pattern, file)
                && map[k][i].symbol == Some(symbol);
        assert(covers(map[k][i].pattern, file));
    }
}

/// A symbol matches exactly where an anchor of a claim or of its tests covers the file and
/// names the symbol. One that matches cuts the claims of the file down to those anchored to
/// it; one that matches none leaves them all. Without a symbol nothing is matched. Who owns
/// the file by its boundary does not depend on it.
pub proof fn law_a_symbol_narrows_or_falls_back(
    m: ScryModelView,
    file: Seq<char>,
    symbol: Seq<char>,
)
    requires
        m.source_map.dom().finite(),
        m.test_map.dom().finite(),
    ensures
        ({
            let r = located_at(m, file, Some(symbol));
            let w = located_at(m, file, None);
            &&& r.symbol_matched <==> anchored_to(m.source_map, file, symbol) || anchored_to(
                m.test_map,
                file,
                symbol,
            )
            &&& r.symbol_matched ==> r.claims == cut_down(w.claims, symbol) && forall|i: int|
                0 <= i < r.claims.len() ==> (#[trigger] r.claims[i]).anchor.symbol == Some(symbol)
            &&& !r.symbol_matched ==> r.claims == w.claims
            &&& !w.symbol_matched
            &&& r.boundary_owner == w.boundary_owner
        }),
{
    let a = hits_in(m.source_map, ascending(m.source_map.dom()), file, false);
    let b = hits_in(m.test_map, ascending(m.test_map.dom()), file, true);
    lemma_anchored_to(m.source_map, file, false, symbol);
    lemma_anchored_to(m.test_map, file, true, symbol);
    lemma_named_sum(a, b, symbol);
    lemma_some_named(hits(m, file), symbol);
    lemma_narrows_or_falls_back(m, file, symbol);
    lemma_cut_down(m, hits(m, file), symbol);
}

} // verus!
