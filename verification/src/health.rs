//! How healthy the model is as a lens over the code.
//!
//! Everything here is derived; nothing is stored.
//!
//! - Discharge is computed, not declared. A claim hosted on a structural node (one
//!   with children, or a group) is discharged through its subtree and never expected
//!   to carry an anchor. Only claims on leaves can be unmapped. Persons and external
//!   systems are not our code, so their claims never are.
//! - Coverage rolls up. Every node reports its own counts and its subtree's.
//! - Darkness is per boundary. Given the project's files, each boundary-owning node
//!   reports which of its files no anchor in its subtree reaches.

use crate::ears::{classify, pattern_of};
use crate::drift::subtree;
use crate::model::{
    find_last_node, has_node, last_node, lemma_lookups, Group, GroupView, Kind, Link, LinkView,
    Node, NodeView, Responsibility, ResponsibilityView, SchemaProperty, SchemaPropertyView,
    ScryModel, ScryModelView, SourceLocation, SourceLocationView,
};
use crate::modelled::{at, fresh, is_on, put, Modelled};
use crate::ownership::{
    boundaries_slashed, boundary_rows, claims_at, key_at, lemma_boundary_rows_slashed, node_ids,
    owned, rows_slashed, slashed, BoundaryOwnership,
};
use crate::rollup::{
    additive, adds_up, all_fit, figures, figures_of, keyed, law_every_figure_has,
    law_every_node_counts_once, lemma_keyed, lemma_keyed_ends, lemma_sum_agrees, lemma_sum_more,
    lemma_sum_of_two, lemma_sum_same_on, lemma_sum_zero, lemma_total_fits, lemma_without_one, rated,
    sum, total, without_one, Tally,
};
use crate::strmap::StrMap;
use crate::strset::{lemma_one_more, StrSet};
use crate::text::{ascending, same_text, sort, sorted_list};
pub use crate::completeness::{compute_completeness, resolve_completeness, AnchorFacts, Completeness};
use vstd::prelude::*;
use vstd::string::*;

verus! {

// ---- counts -----------------------------------------------------------------------

/// Counts over one scope: a node's own content, or a whole subtree.
#[derive(Debug, PartialEq)]
pub struct HealthCounts {
    /// Responsibility statements in scope (nodes' own, and those of groups there).
    pub responsibilities: u32,
    /// Data-shape properties in scope.
    pub properties: u32,
    /// Responsibilities with at least one test attached. Whether a claim is anchored
    /// does not matter: a structural claim may carry an integration test.
    pub tested: u32,
    /// Responsibilities on code-backed hosts whose form names a trigger, a state or
    /// a failure.
    pub testable: u32,
    /// Of the testable claims, those with no test attached.
    pub untested: u32,
    /// Responsibilities or properties that await a verdict on undescribed behaviour.
    pub vagrant: u32,
    /// Responsibilities or properties that the code no longer discharges.
    pub stale: u32,
    /// Claims that are expected to read through to code: those hosted on leaves.
    pub anchorable: u32,
    /// Of the anchorable claims, those that have an anchor.
    pub anchored: u32,
    /// Of the anchorable claims, those that have none.
    pub unmapped: u32,
    /// Unix seconds of the latest truth-bearing edit in scope.
    pub last_touched_at: Option<u64>,
}

/// The model of [`HealthCounts`].
#[verifier::ext_equal]
pub struct HealthCountsView {
    pub responsibilities: nat,
    pub properties: nat,
    pub tested: nat,
    pub testable: nat,
    pub untested: nat,
    pub vagrant: nat,
    pub stale: nat,
    pub anchorable: nat,
    pub anchored: nat,
    pub unmapped: nat,
    pub last_touched_at: Option<u64>,
}

impl DeepView for HealthCounts {
    type V = HealthCountsView;

    open spec fn deep_view(&self) -> HealthCountsView {
        HealthCountsView {
            responsibilities: self.responsibilities as nat,
            properties: self.properties as nat,
            tested: self.tested as nat,
            testable: self.testable as nat,
            untested: self.untested as nat,
            vagrant: self.vagrant as nat,
            stale: self.stale as nat,
            anchorable: self.anchorable as nat,
            anchored: self.anchored as nat,
            unmapped: self.unmapped as nat,
            last_touched_at: self.last_touched_at,
        }
    }
}

impl Modelled for HealthCounts {
    fn dup(&self) -> (r: Self) {
        HealthCounts {
            responsibilities: self.responsibilities,
            properties: self.properties,
            tested: self.tested,
            testable: self.testable,
            untested: self.untested,
            vagrant: self.vagrant,
            stale: self.stale,
            anchorable: self.anchorable,
            anchored: self.anchored,
            unmapped: self.unmapped,
            last_touched_at: self.last_touched_at,
        }
    }

    fn same(&self, other: &Self) -> (r: bool) {
        self.responsibilities == other.responsibilities && self.properties == other.properties
            && self.tested == other.tested && self.testable == other.testable && self.untested
            == other.untested && self.vagrant == other.vagrant && self.stale == other.stale
            && self.anchorable == other.anchorable && self.anchored == other.anchored
            && self.unmapped == other.unmapped && self.last_touched_at.same(&other.last_touched_at)
    }
}

impl Clone for HealthCounts {
    fn clone(&self) -> (r: Self)
        ensures
            r.deep_view() == self.deep_view(),
    {
        self.dup()
    }
}

/// No counts.
pub open spec fn no_counts() -> HealthCountsView {
    HealthCountsView {
        responsibilities: 0,
        properties: 0,
        tested: 0,
        testable: 0,
        untested: 0,
        vagrant: 0,
        stale: 0,
        anchorable: 0,
        anchored: 0,
        unmapped: 0,
        last_touched_at: None,
    }
}

impl Default for HealthCounts {
    fn default() -> (r: Self)
        ensures
            r.deep_view() == no_counts(),
    {
        HealthCounts {
            responsibilities: 0,
            properties: 0,
            tested: 0,
            testable: 0,
            untested: 0,
            vagrant: 0,
            stale: 0,
            anchorable: 0,
            anchored: 0,
            unmapped: 0,
            last_touched_at: None,
        }
    }
}

/// The later of two times.
pub open spec fn later(a: Option<u64>, b: Option<u64>) -> Option<u64> {
    match (a, b) {
        (Some(x), Some(y)) => if x < y { b } else { a },
        (Some(_), None) => a,
        (None, _) => b,
    }
}

impl Tally for HealthCounts {
    open spec fn plus(a: HealthCountsView, b: HealthCountsView) -> HealthCountsView {
        HealthCountsView {
            responsibilities: a.responsibilities + b.responsibilities,
            properties: a.properties + b.properties,
            tested: a.tested + b.tested,
            testable: a.testable + b.testable,
            untested: a.untested + b.untested,
            vagrant: a.vagrant + b.vagrant,
            stale: a.stale + b.stale,
            anchorable: a.anchorable + b.anchorable,
            anchored: a.anchored + b.anchored,
            unmapped: a.unmapped + b.unmapped,
            last_touched_at: later(a.last_touched_at, b.last_touched_at),
        }
    }

    open spec fn fits(v: HealthCountsView) -> bool {
        &&& v.responsibilities <= u32::MAX
        &&& v.properties <= u32::MAX
        &&& v.tested <= u32::MAX
        &&& v.testable <= u32::MAX
        &&& v.untested <= u32::MAX
        &&& v.vagrant <= u32::MAX
        &&& v.stale <= u32::MAX
        &&& v.anchorable <= u32::MAX
        &&& v.anchored <= u32::MAX
        &&& v.unmapped <= u32::MAX
    }

    proof fn lemma_fits(a: HealthCountsView, b: HealthCountsView) {
    }

    fn merge(&mut self, other: &Self) {
        self.responsibilities = self.responsibilities + other.responsibilities;
        self.properties = self.properties + other.properties;
        self.vagrant = self.vagrant + other.vagrant;
        self.stale = self.stale + other.stale;
        self.anchorable = self.anchorable + other.anchorable;
        self.anchored = self.anchored + other.anchored;
        self.unmapped = self.unmapped + other.unmapped;
        self.tested = self.tested + other.tested;
        self.testable = self.testable + other.testable;
        self.untested = self.untested + other.untested;
        self.touch(other.last_touched_at);
    }
}

impl HealthCounts {
    /// Notes an edit at `at`.
    pub fn touch(&mut self, at: Option<u64>)
        ensures
            final(self).deep_view() == (HealthCountsView {
                last_touched_at: later(old(self).last_touched_at, at),
                ..old(self).deep_view()
            }),
    {
        match at {
            Some(t) => {
                let newer = match self.last_touched_at {
                    Some(c) => c < t,
                    None => true,
                };
                if newer {
                    self.last_touched_at = Some(t);
                }
            },
            None => {},
        }
    }
}

// ---- coverage ---------------------------------------------------------------------

/// How much of a node's own region of code the lens reaches.
#[derive(Debug, PartialEq)]
pub struct BoundaryCoverage {
    /// The files that the node owns.
    pub total_files: u32,
    /// Of those, the ones that some anchor in the node's subtree reads into.
    pub anchored_files: u32,
    /// Those that no anchor reaches, sorted.
    pub dark_files: Vec<String>,
}

/// The model of [`BoundaryCoverage`].
#[verifier::ext_equal]
pub struct BoundaryCoverageView {
    pub total_files: nat,
    pub anchored_files: nat,
    pub dark_files: Seq<Seq<char>>,
}

impl DeepView for BoundaryCoverage {
    type V = BoundaryCoverageView;

    open spec fn deep_view(&self) -> BoundaryCoverageView {
        BoundaryCoverageView {
            total_files: self.total_files as nat,
            anchored_files: self.anchored_files as nat,
            dark_files: self.dark_files.deep_view(),
        }
    }
}

impl Modelled for BoundaryCoverage {
    fn dup(&self) -> (r: Self) {
        BoundaryCoverage {
            total_files: self.total_files,
            anchored_files: self.anchored_files,
            dark_files: self.dark_files.dup(),
        }
    }

    fn same(&self, other: &Self) -> (r: bool) {
        self.total_files == other.total_files && self.anchored_files == other.anchored_files
            && self.dark_files.same(&other.dark_files)
    }
}

impl Clone for BoundaryCoverage {
    fn clone(&self) -> (r: Self)
        ensures
            r.deep_view() == self.deep_view(),
    {
        self.dup()
    }
}

/// The health of one node.
#[derive(Debug, PartialEq)]
pub struct NodeHealth {
    /// The node's own responsibilities and properties only.
    pub own: HealthCounts,
    /// The node and everything below it (nodes and groups).
    pub subtree: HealthCounts,
    /// Present only for boundary-owning nodes, when the files were given.
    pub boundary: Option<BoundaryCoverage>,
}

/// The model of [`NodeHealth`].
#[verifier::ext_equal]
pub struct NodeHealthView {
    pub own: HealthCountsView,
    pub subtree: HealthCountsView,
    pub boundary: Option<BoundaryCoverageView>,
}

impl DeepView for NodeHealth {
    type V = NodeHealthView;

    open spec fn deep_view(&self) -> NodeHealthView {
        NodeHealthView {
            own: self.own.deep_view(),
            subtree: self.subtree.deep_view(),
            boundary: self.boundary.deep_view(),
        }
    }
}

impl Modelled for NodeHealth {
    fn dup(&self) -> (r: Self) {
        NodeHealth {
            own: self.own.dup(),
            subtree: self.subtree.dup(),
            boundary: self.boundary.dup(),
        }
    }

    fn same(&self, other: &Self) -> (r: bool) {
        self.own.same(&other.own) && self.subtree.same(&other.subtree) && self.boundary.same(
            &other.boundary,
        )
    }
}

impl Clone for NodeHealth {
    fn clone(&self) -> (r: Self)
        ensures
            r.deep_view() == self.deep_view(),
    {
        self.dup()
    }
}

/// The health of a model.
#[derive(Debug, PartialEq)]
pub struct ModelHealth {
    /// By node id.
    pub nodes: StrMap<NodeHealth>,
    /// The whole model: every node and group, wherever it stands.
    pub totals: HealthCounts,
    /// Architecture nodes that no link names, sorted by id.
    pub disconnected: Vec<String>,
}

/// The model of [`ModelHealth`].
#[verifier::ext_equal]
pub struct ModelHealthView {
    pub nodes: Map<Seq<char>, NodeHealthView>,
    pub totals: HealthCountsView,
    pub disconnected: Seq<Seq<char>>,
}

impl DeepView for ModelHealth {
    type V = ModelHealthView;

    open spec fn deep_view(&self) -> ModelHealthView {
        ModelHealthView {
            nodes: self.nodes.deep_view(),
            totals: self.totals.deep_view(),
            disconnected: self.disconnected.deep_view(),
        }
    }
}

// ---- structure --------------------------------------------------------------------

/// Has a node children?
pub open spec fn has_child(ns: Seq<NodeView>, id: Seq<char>) -> bool {
    exists|i: int| 0 <= i < ns.len() && (#[trigger] ns[i]).parent_id == Some(id)
}

/// Is the node structural: does it discharge its claims through children?
pub fn is_structural(model: &ScryModel, node_id: &str) -> (r: bool)
    ensures
        r == has_child(model.deep_view().nodes, node_id@),
{
    let ghost vs = model.nodes.deep_view();
    let mut i: usize = 0;
    while i < model.nodes.len()
        invariant
            i <= model.nodes@.len(),
            vs == model.nodes.deep_view(),
            forall|j: int| 0 <= j < i ==> (#[trigger] vs[j]).parent_id != Some(node_id@),
        decreases model.nodes@.len() - i,
    {
        let n = at(&model.nodes, i);
        match &n.parent_id {
            Some(p) => {
                if same_text(p.as_str(), node_id) {
                    assert(vs[i as int].parent_id == Some(node_id@));
                    return true;
                }
            },
            None => {},
        }
        i += 1;
    }
    false
}

/// Is the node of a kind that code stands behind?
pub open spec fn code_backed(n: NodeView) -> bool {
    n.external != Some(true) && n.kind != Kind::Person
}

/// Does a link name the node?
pub open spec fn linked(ls: Seq<LinkView>, id: Seq<char>) -> bool {
    exists|i: int| 0 <= i < ls.len() && ((#[trigger] ls[i]).src == id || ls[i].dst == id)
}

/// How many of the nodes are above symbol level.
pub open spec fn architecture_count(ns: Seq<NodeView>) -> nat
    decreases ns.len(),
{
    if ns.len() == 0 {
        0
    } else {
        architecture_count(ns.drop_last()) + if ns.last().kind != Kind::Symbol {
            1nat
        } else {
            0nat
        }
    }
}

/// The ids of the nodes above symbol level that no link names, in order.
pub open spec fn unlinked(ls: Seq<LinkView>, ns: Seq<NodeView>) -> Seq<Seq<char>>
    decreases ns.len(),
{
    if ns.len() == 0 {
        Seq::empty()
    } else if ns.last().kind != Kind::Symbol && !linked(ls, ns.last().id) {
        unlinked(ls, ns.drop_last()).push(ns.last().id)
    } else {
        unlinked(ls, ns.drop_last())
    }
}

/// The nodes that float free: those above symbol level that no link names, sorted;
/// none where there is at most one node to connect.
pub open spec fn floating(m: ScryModelView) -> Seq<Seq<char>> {
    if architecture_count(m.nodes) <= 1 {
        Seq::empty()
    } else {
        sorted_list(unlinked(m.links, m.nodes))
    }
}

fn is_linked(ls: &Vec<Link>, id: &str) -> (r: bool)
    ensures
        r == linked(ls.deep_view(), id@),
{
    let ghost v = ls.deep_view();
    let mut i: usize = 0;
    while i < ls.len()
        invariant
            i <= ls@.len(),
            v == ls.deep_view(),
            forall|j: int| 0 <= j < i ==> (#[trigger] v[j]).src != id@ && v[j].dst != id@,
        decreases ls@.len() - i,
    {
        let l = at(ls, i);
        if same_text(l.src.as_str(), id) || same_text(l.dst.as_str(), id) {
            assert(v[i as int].src == id@ || v[i as int].dst == id@);
            return true;
        }
        i += 1;
    }
    false
}

/// The architecture nodes (all but symbols) that no link names as source or target,
/// sorted. None where the model has at most one such node.
pub fn disconnected_nodes(model: &ScryModel) -> (r: Vec<String>)
    ensures
        r.deep_view() == floating(model.deep_view()),
{
    let ghost vs = model.nodes.deep_view();
    let ghost ls = model.links.deep_view();
    let mut count: usize = 0;
    let mut out: Vec<String> = fresh();
    let mut i: usize = 0;
    assert(vs.take(0) =~= Seq::<NodeView>::empty());
    while i < model.nodes.len()
        invariant
            i <= model.nodes@.len(),
            vs == model.nodes.deep_view(),
            ls == model.links.deep_view(),
            count <= i,
            count == architecture_count(vs.take(i as int)),
            out.deep_view() == unlinked(ls, vs.take(i as int)),
        decreases model.nodes@.len() - i,
    {
        let n = at(&model.nodes, i);
        assert(vs.take(i + 1).drop_last() =~= vs.take(i as int));
        assert(vs.take(i + 1).last() == n.deep_view());
        if n.kind != Kind::Symbol {
            count += 1;
            if !is_linked(&model.links, n.id.as_str()) {
                put(&mut out, n.id.clone());
            }
        }
        i += 1;
    }
    assert(vs.take(vs.len() as int) =~= vs);
    if count <= 1 {
        return fresh();
    }
    sort(&out)
}

// ---- one claim, one property, one shape ---------------------------------------------

/// One, where it holds.
pub open spec fn one(b: bool) -> nat {
    if b {
        1
    } else {
        0
    }
}

fn unit(b: bool) -> (r: u32)
    ensures
        r as nat == one(b),
{
    if b {
        1
    } else {
        0
    }
}

/// Has the map anything at the key?
pub open spec fn filled(map: Map<Seq<char>, Seq<SourceLocationView>>, key: Seq<char>) -> bool {
    map.contains_key(key) && map[key].len() > 0
}

/// Has the map anything at the key?
pub fn is_filled(map: &StrMap<Vec<SourceLocation>>, key: &str) -> (r: bool)
    ensures
        r == filled(map.deep_view(), key@),
{
    match map.get(key) {
        Some(locs) => locs.len() > 0,
        None => false,
    }
}

/// What one claim counts for. It is expected to read through to code where
/// `leaf`, and classified by its form where `backed` by code.
pub open spec fn claim_counts(
    m: ScryModelView,
    r: ResponsibilityView,
    backed: bool,
    leaf: bool,
) -> HealthCountsView {
    let tested = filled(m.test_map, r.id);
    let testable = backed && pattern_of(r.statement).is_testable();
    let anchored = filled(m.source_map, r.id);
    HealthCountsView {
        responsibilities: 1,
        properties: 0,
        tested: one(tested),
        testable: one(testable),
        untested: one(testable && !tested),
        vagrant: one(r.vagrant == Some(true)),
        stale: one(r.stale == Some(true)),
        anchorable: one(leaf),
        anchored: one(leaf && anchored),
        unmapped: one(leaf && !anchored),
        last_touched_at: r.last_touched_at,
    }
}

fn count_claim(model: &ScryModel, r: &Responsibility, backed: bool, leaf: bool) -> (h: HealthCounts)
    ensures
        h.deep_view() == claim_counts(model.deep_view(), r.deep_view(), backed, leaf),
{
    let tested = is_filled(&model.test_map, r.id.as_str());
    let testable = backed && classify(r.statement.as_str()).testable();
    let anchored = is_filled(&model.source_map, r.id.as_str());
    HealthCounts {
        responsibilities: 1,
        properties: 0,
        tested: unit(tested),
        testable: unit(testable),
        untested: unit(testable && !tested),
        vagrant: unit(is_on(&r.vagrant)),
        stale: unit(is_on(&r.stale)),
        anchorable: unit(leaf),
        anchored: unit(leaf && anchored),
        unmapped: unit(leaf && !anchored),
        last_touched_at: r.last_touched_at,
    }
}

/// What one property counts for.
pub open spec fn property_counts(p: SchemaPropertyView) -> HealthCountsView {
    HealthCountsView {
        properties: 1,
        vagrant: one(p.vagrant == Some(true)),
        stale: one(p.stale == Some(true)),
        last_touched_at: p.last_touched_at,
        ..no_counts()
    }
}

fn count_property(p: &SchemaProperty) -> (h: HealthCounts)
    ensures
        h.deep_view() == property_counts(p.deep_view()),
{
    let mut h = HealthCounts::default();
    h.properties = 1;
    h.vagrant = unit(is_on(&p.vagrant));
    h.stale = unit(is_on(&p.stale));
    h.last_touched_at = p.last_touched_at;
    h
}

/// What a leaf's data shape counts for: one declaration, which must be anchored,
/// however many properties it has.
pub open spec fn shape_counts(m: ScryModelView, n: NodeView, leaf: bool) -> HealthCountsView {
    let shape = leaf && n.properties.len() > 0;
    let anchored = filled(m.source_map, n.id);
    HealthCountsView {
        anchorable: one(shape),
        anchored: one(shape && anchored),
        unmapped: one(shape && !anchored),
        ..no_counts()
    }
}

fn count_shape(model: &ScryModel, n: &Node, leaf: bool) -> (h: HealthCounts)
    ensures
        h.deep_view() == shape_counts(model.deep_view(), n.deep_view(), leaf),
{
    let shape = leaf && n.properties.len() > 0;
    let anchored = is_filled(&model.source_map, n.id.as_str());
    let mut h = HealthCounts::default();
    h.anchorable = unit(shape);
    h.anchored = unit(shape && anchored);
    h.unmapped = unit(shape && !anchored);
    h
}

/// What each of a list of claims counts for.
pub open spec fn claim_units(
    m: ScryModelView,
    rs: Seq<ResponsibilityView>,
    backed: bool,
    leaf: bool,
) -> Seq<HealthCountsView> {
    Seq::new(rs.len(), |i: int| claim_counts(m, rs[i], backed, leaf))
}

/// What each of a list of properties counts for.
pub open spec fn property_units(ps: Seq<SchemaPropertyView>) -> Seq<HealthCountsView> {
    Seq::new(ps.len(), |i: int| property_counts(ps[i]))
}

/// What a list of claims counts for.
pub open spec fn claims_counts(
    m: ScryModelView,
    rs: Seq<ResponsibilityView>,
    backed: bool,
    leaf: bool,
) -> HealthCountsView {
    total::<HealthCounts>(claim_units(m, rs, backed, leaf), no_counts())
}

fn count_claims(
    model: &ScryModel,
    rs: &Vec<Responsibility>,
    backed: bool,
    leaf: bool,
) -> (h: HealthCounts)
    requires
        HealthCounts::fits(claims_counts(model.deep_view(), rs.deep_view(), backed, leaf)),
    ensures
        h.deep_view() == claims_counts(model.deep_view(), rs.deep_view(), backed, leaf),
{
    let ghost v = rs.deep_view();
    let ghost us = claim_units(model.deep_view(), v, backed, leaf);
    let mut h = HealthCounts::default();
    let mut i: usize = 0;
    assert(us.take(0) =~= Seq::<HealthCountsView>::empty());
    while i < rs.len()
        invariant
            i <= rs@.len(),
            v == rs.deep_view(),
            us == claim_units(model.deep_view(), v, backed, leaf),
            HealthCounts::fits(total::<HealthCounts>(us, no_counts())),
            h.deep_view() == total::<HealthCounts>(us.take(i as int), no_counts()),
        decreases rs@.len() - i,
    {
        let c = count_claim(model, at(rs, i), backed, leaf);
        proof {
            assert(us.take(i + 1).drop_last() =~= us.take(i as int));
            assert(us.take(i + 1).last() == c.deep_view());
            lemma_total_fits::<HealthCounts>(us, no_counts(), i as int);
        }
        h.merge(&c);
        i += 1;
    }
    assert(us.take(us.len() as int) =~= us);
    h
}

/// Is the node a leaf, in the model and in the plan where there is one?
pub open spec fn is_leaf(
    ns: Seq<NodeView>,
    planned: Option<Seq<NodeView>>,
    id: Seq<char>,
) -> bool {
    !has_child(ns, id) && (planned is Some ==> !has_child(planned->0, id))
}

/// A node's own counts.
pub open spec fn own_counts(
    m: ScryModelView,
    planned: Option<Seq<NodeView>>,
    n: NodeView,
) -> HealthCountsView {
    let backed = code_backed(n);
    let leaf = backed && is_leaf(m.nodes, planned, n.id);
    let claims = claims_counts(m, n.responsibilities, backed, leaf);
    let with_properties = total::<HealthCounts>(property_units(n.properties), claims);
    HealthCounts::plus(with_properties, shape_counts(m, n, leaf))
}

/// The nodes of the plan, where there is one.
pub open spec fn nodes_in(planned: Option<&ScryModel>) -> Option<Seq<NodeView>> {
    match planned {
        Some(p) => Some(p.deep_view().nodes),
        None => None,
    }
}

fn count_own(model: &ScryModel, planned: Option<&ScryModel>, n: &Node) -> (h: HealthCounts)
    requires
        HealthCounts::fits(own_counts(model.deep_view(), nodes_in(planned), n.deep_view())),
    ensures
        h.deep_view() == own_counts(model.deep_view(), nodes_in(planned), n.deep_view()),
{
    let ghost m = model.deep_view();
    let ghost nv = n.deep_view();
    let backed = !is_on(&n.external) && n.kind != Kind::Person;
    let split = match planned {
        Some(p) => is_structural(p, n.id.as_str()),
        None => false,
    };
    let leaf = backed && !is_structural(model, n.id.as_str()) && !split;
    let ghost us = property_units(nv.properties);
    let ghost h0 = claims_counts(m, nv.responsibilities, backed, leaf);
    proof {
        HealthCounts::lemma_fits(total::<HealthCounts>(us, h0), shape_counts(m, nv, leaf));
        lemma_total_fits::<HealthCounts>(us, h0, 0);
    }
    let mut h = count_claims(model, &n.responsibilities, backed, leaf);
    let mut i: usize = 0;
    assert(us.take(0) =~= Seq::<HealthCountsView>::empty());
    while i < n.properties.len()
        invariant
            i <= n.properties@.len(),
            nv == n.deep_view(),
            us == property_units(nv.properties),
            HealthCounts::fits(total::<HealthCounts>(us, h0)),
            h.deep_view() == total::<HealthCounts>(us.take(i as int), h0),
        decreases n.properties@.len() - i,
    {
        let p = at(&n.properties, i);
        assert(nv.properties[i as int] == p.deep_view());
        let c = count_property(p);
        proof {
            assert(us.take(i + 1).drop_last() =~= us.take(i as int));
            assert(us.take(i + 1).last() == c.deep_view());
            lemma_total_fits::<HealthCounts>(us, h0, i as int);
        }
        h.merge(&c);
        i += 1;
    }
    assert(us.take(us.len() as int) =~= us);
    let shape = count_shape(model, n, leaf);
    h.merge(&shape);
    h
}

// ---- groups -----------------------------------------------------------------------

/// The node whose subtree a group's claims belong to: its declared parent, else the
/// parent of its first member; none where that names no node.
pub open spec fn group_host(m: ScryModelView, g: GroupView) -> Option<Seq<char>> {
    let named = if g.parent_node_id is Some {
        g.parent_node_id
    } else if g.member_ids.len() > 0 && last_node(m.nodes, g.member_ids[0]) is Some {
        last_node(m.nodes, g.member_ids[0])->0.parent_id
    } else {
        None
    };
    if named is Some && has_node(m.nodes, named->0) {
        named
    } else {
        None
    }
}

fn host_of_group(model: &ScryModel, g: &Group) -> (r: Option<String>)
    ensures
        r.deep_view() == group_host(model.deep_view(), g.deep_view()),
{
    let ghost ns = model.nodes.deep_view();
    let named: Option<String> = match &g.parent_node_id {
        Some(p) => Some(p.clone()),
        None => {
            if g.member_ids.len() > 0 {
                let first = at(&g.member_ids, 0);
                match find_last_node(&model.nodes, first.as_str()) {
                    Some(i) => at(&model.nodes, i).parent_id.dup(),
                    None => None,
                }
            } else {
                None
            }
        },
    };
    match named {
        Some(p) => {
            proof {
                lemma_lookups(ns, p@);
            }
            if find_last_node(&model.nodes, p.as_str()).is_some() {
                Some(p)
            } else {
                None
            }
        },
        None => None,
    }
}

/// What a group's claims count for: always structural, classified like a node's.
pub open spec fn group_counts(m: ScryModelView, g: GroupView) -> HealthCountsView {
    claims_counts(m, g.responsibilities, true, false)
}

/// What the groups with one host count for.
pub open spec fn hosted_counts(
    m: ScryModelView,
    gs: Seq<GroupView>,
    host: Option<Seq<char>>,
) -> HealthCountsView
    decreases gs.len(),
{
    if gs.len() == 0 {
        no_counts()
    } else if group_host(m, gs.last()) == host {
        HealthCounts::plus(hosted_counts(m, gs.drop_last(), host), group_counts(m, gs.last()))
    } else {
        hosted_counts(m, gs.drop_last(), host)
    }
}

proof fn lemma_hosted_fits(
    m: ScryModelView,
    gs: Seq<GroupView>,
    host: Option<Seq<char>>,
    i: int,
)
    requires
        HealthCounts::fits(hosted_counts(m, gs, host)),
        0 <= i <= gs.len(),
    ensures
        HealthCounts::fits(hosted_counts(m, gs.take(i), host)),
    decreases gs.len(),
{
    if i == gs.len() {
        assert(gs.take(i) =~= gs);
    } else {
        lemma_hosted_fits(m, gs.drop_last(), host, i);
        assert(gs.take(i) =~= gs.drop_last().take(i));
    }
}

fn count_hosted(model: &ScryModel, host: &Option<String>) -> (h: HealthCounts)
    requires
        HealthCounts::fits(
            hosted_counts(model.deep_view(), model.deep_view().groups, host.deep_view()),
        ),
    ensures
        h.deep_view() == hosted_counts(
            model.deep_view(),
            model.deep_view().groups,
            host.deep_view(),
        ),
{
    let ghost m = model.deep_view();
    let ghost gs = model.groups.deep_view();
    let mut h = HealthCounts::default();
    let mut i: usize = 0;
    assert(gs.take(0) =~= Seq::<GroupView>::empty());
    while i < model.groups.len()
        invariant
            i <= model.groups@.len(),
            m == model.deep_view(),
            gs == model.groups.deep_view(),
            HealthCounts::fits(hosted_counts(m, gs, host.deep_view())),
            h.deep_view() == hosted_counts(m, gs.take(i as int), host.deep_view()),
        decreases model.groups@.len() - i,
    {
        let g = at(&model.groups, i);
        proof {
            assert(gs.take(i + 1).drop_last() =~= gs.take(i as int));
            assert(gs.take(i + 1).last() == g.deep_view());
            lemma_hosted_fits(m, gs, host.deep_view(), i + 1);
        }
        let mine = host_of_group(model, g);
        if mine.same(host) {
            let c = count_claims(model, &g.responsibilities, true, false);
            h.merge(&c);
        }
        i += 1;
    }
    assert(gs.take(gs.len() as int) =~= gs);
    h
}

// ---- reached files ----------------------------------------------------------------

impl Tally for StrSet {
    open spec fn plus(a: Set<Seq<char>>, b: Set<Seq<char>>) -> Set<Seq<char>> {
        a.union(b)
    }

    open spec fn fits(v: Set<Seq<char>>) -> bool {
        true
    }

    proof fn lemma_fits(a: Set<Seq<char>>, b: Set<Seq<char>>) {
    }

    fn merge(&mut self, other: &Self) {
        let ghost a = self.deep_view();
        let n: usize = other.len();
        let ghost ks = ascending(other.deep_view());
        let mut i: usize = 0;
        assert(a.union(ks.take(0).to_set()) =~= a);
        while i < n
            invariant
                i <= n == ks.len(),
                ks == ascending(other.deep_view()),
                self.deep_view() == a.union(ks.take(i as int).to_set()),
            decreases n - i,
        {
            let s = other.item(i);
            self.insert(s.clone());
            proof {
                lemma_one_more(ks, i as int);
                assert(a.union(ks.take(i + 1).to_set()) =~= a.union(
                    ks.take(i as int).to_set(),
                ).insert(s@));
            }
            i += 1;
        }
        assert(ks.take(n as int) =~= ks);
    }
}

/// The files that a node's own anchors name: its declaration's and its claims'.
pub open spec fn own_files(m: ScryModelView, n: NodeView) -> Set<Seq<char>> {
    Set::new(
        |f: Seq<char>|
            key_at(m.source_map, n.id, f, None) || claims_at(
                m.source_map,
                n.responsibilities,
                f,
                None,
            ),
    )
}

/// The files that the anchors at a key name.
pub open spec fn files_at(
    map: Map<Seq<char>, Seq<SourceLocationView>>,
    key: Seq<char>,
) -> Set<Seq<char>> {
    Set::new(|f: Seq<char>| key_at(map, key, f, None))
}

fn add_files(map: &StrMap<Vec<SourceLocation>>, key: &str, out: &mut StrSet)
    ensures
        final(out).deep_view() == old(out).deep_view().union(files_at(map.deep_view(), key@)),
{
    let ghost o = out.deep_view();
    let ghost mv = map.deep_view();
    let locs = match map.get(key) {
        Some(locs) => locs,
        None => {
            assert(o.union(files_at(mv, key@)) =~= o);
            return;
        },
    };
    let ghost ls = locs.deep_view();
    let ghost names = Seq::new(ls.len(), |k: int| ls[k].pattern);
    let mut i: usize = 0;
    assert(o.union(names.take(0).to_set()) =~= o);
    while i < locs.len()
        invariant
            i <= locs@.len(),
            ls == locs.deep_view(),
            names == Seq::new(ls.len(), |k: int| ls[k].pattern),
            out.deep_view() == o.union(names.take(i as int).to_set()),
        decreases locs@.len() - i,
    {
        let l = at(locs, i);
        out.insert(l.pattern.clone());
        proof {
            lemma_one_more(names, i as int);
            assert(o.union(names.take(i + 1).to_set()) =~= o.union(
                names.take(i as int).to_set(),
            ).insert(l.pattern@));
        }
        i += 1;
    }
    proof {
        assert(names.take(names.len() as int) =~= names);
        assert forall|f: Seq<char>| names.to_set().contains(f) == files_at(mv, key@).contains(f) by {
            if names.contains(f) {
                let k = choose|k: int| 0 <= k < names.len() && names[k] == f;
                assert(ls[k].pattern == f);
            }
            if key_at(mv, key@, f, None) {
                let k = choose|k: int|
                    0 <= k < ls.len() && (#[trigger] ls[k]).pattern == f && (None::<
                        Seq<char>,
                    > is Some ==> ls[k].symbol == None::<Seq<char>>);
                assert(names[k] == f);
            }
        }
        assert(o.union(files_at(mv, key@)) =~= o.union(names.to_set()));
    }
}

fn files_of(model: &ScryModel, n: &Node) -> (r: StrSet)
    ensures
        r.deep_view() == own_files(model.deep_view(), n.deep_view()),
{
    let ghost mv = model.source_map.deep_view();
    let ghost rs = n.responsibilities.deep_view();
    let mut out = StrSet::new();
    add_files(&model.source_map, n.id.as_str(), &mut out);
    let ghost start = files_at(mv, n.id@);
    assert(out.deep_view() =~= start);
    let mut i: usize = 0;
    while i < n.responsibilities.len()
        invariant
            i <= n.responsibilities@.len(),
            mv == model.source_map.deep_view(),
            rs == n.responsibilities.deep_view(),
            forall|f: Seq<char>| #[trigger]
                out.deep_view().contains(f) <==> start.contains(f) || claims_at(
                    mv,
                    rs.take(i as int),
                    f,
                    None,
                ),
        decreases n.responsibilities@.len() - i,
    {
        let r = at(&n.responsibilities, i);
        let ghost had = out.deep_view();
        add_files(&model.source_map, r.id.as_str(), &mut out);
        proof {
            assert forall|f: Seq<char>| #[trigger] out.deep_view().contains(f) <==> start.contains(f)
                || claims_at(mv, rs.take(i + 1), f, None) by {
                lemma_claims_at(mv, rs, i as int, f);
                assert(rs[i as int].id == r.id@);
                assert(had.contains(f) <==> start.contains(f) || claims_at(
                    mv,
                    rs.take(i as int),
                    f,
                    None,
                ));
            }
        }
        i += 1;
    }
    assert(rs.take(rs.len() as int) =~= rs);
    assert(out.deep_view() =~= own_files(model.deep_view(), n.deep_view()));
    out
}

proof fn lemma_claims_at(
    map: Map<Seq<char>, Seq<SourceLocationView>>,
    rs: Seq<ResponsibilityView>,
    i: int,
    f: Seq<char>,
)
    requires
        0 <= i < rs.len(),
    ensures
        claims_at(map, rs.take(i + 1), f, None) == (claims_at(map, rs.take(i), f, None) || key_at(
            map,
            rs[i].id,
            f,
            None,
        )),
{
    let a = rs.take(i);
    let b = rs.take(i + 1);
    if claims_at(map, a, f, None) {
        let k = choose|k: int| 0 <= k < a.len() && key_at(map, (#[trigger] a[k]).id, f, None);
        assert(key_at(map, b[k].id, f, None));
    }
    if key_at(map, rs[i].id, f, None) {
        assert(key_at(map, b[i].id, f, None));
    }
    if claims_at(map, b, f, None) {
        let k = choose|k: int| 0 <= k < b.len() && key_at(map, (#[trigger] b[k]).id, f, None);
        if k < i {
            assert(key_at(map, a[k].id, f, None));
        }
    }
}

/// The files that the anchors in each node's subtree name.
pub open spec fn reached_files(m: ScryModelView) -> Map<Seq<char>, Set<Seq<char>>> {
    figures::<StrSet>(m.nodes, start_files(m))
}

/// The files that each node's own anchors name.
pub open spec fn start_files(m: ScryModelView) -> Map<Seq<char>, Set<Seq<char>>> {
    keyed(m.nodes, |id: Seq<char>| own_files(m, last_node(m.nodes, id)->0))
}

proof fn lemma_ids_named(ns: Seq<NodeView>)
    ensures
        forall|i: int| 0 <= i < ns.len() ==> has_node(ns, #[trigger] node_ids(ns)[i]),
{
    assert forall|i: int| 0 <= i < ns.len() implies has_node(ns, #[trigger] node_ids(ns)[i]) by {
        assert(ns[i].id == node_ids(ns)[i]);
    }
}

/// The files that the anchors in each node's subtree name.
fn anchored_files_per_subtree(model: &ScryModel) -> (r: StrMap<StrSet>)
    ensures
        r.deep_view() == reached_files(model.deep_view()),
        forall|i: int|
            0 <= i < model.deep_view().nodes.len() ==> r.deep_view().contains_key(
                (#[trigger] model.deep_view().nodes[i]).id,
            ),
{
    let ghost m = model.deep_view();
    let ghost ns = m.nodes;
    let ghost f = |id: Seq<char>| own_files(m, last_node(ns, id)->0);
    let mut base: StrMap<StrSet> = StrMap::new();
    let mut i: usize = 0;
    proof {
        lemma_keyed_ends(ns, f);
        lemma_ids_named(ns);
    }
    while i < model.nodes.len()
        invariant
            i <= model.nodes@.len(),
            m == model.deep_view(),
            ns == m.nodes,
            f == |id: Seq<char>| own_files(m, last_node(ns, id)->0),
            base.deep_view() == keyed(ns.take(i as int), f),
        decreases model.nodes@.len() - i,
    {
        let n = at(&model.nodes, i);
        proof {
            lemma_keyed(ns, i as int, f);
            lemma_lookups(ns, n.id@);
            assert(has_node(ns, ns[i as int].id));
        }
        match find_last_node(&model.nodes, n.id.as_str()) {
            Some(k) => {
                base.insert(n.id.clone(), files_of(model, at(&model.nodes, k)));
            },
            None => {},
        }
        i += 1;
    }
    let done = figures_of(model, &base);
    proof {
        assert forall|i: int| 0 <= i < ns.len() implies done.deep_view().contains_key(
            (#[trigger] ns[i]).id,
        ) by {
            assert(has_node(ns, ns[i].id));
        }
    }
    done
}

// ---- boundary coverage --------------------------------------------------------------

/// Those of the files that the node owns.
pub open spec fn files_owned(
    rows: Seq<(Seq<char>, Seq<char>)>,
    id: Seq<char>,
    fs: Seq<Seq<char>>,
) -> Seq<Seq<char>>
    decreases fs.len(),
{
    if fs.len() == 0 {
        Seq::empty()
    } else if owned(rows, id, fs.last()) {
        files_owned(rows, id, fs.drop_last()).push(fs.last())
    } else {
        files_owned(rows, id, fs.drop_last())
    }
}

/// Those of the files that are not reached.
pub open spec fn dark_of(fs: Seq<Seq<char>>, reached: Set<Seq<char>>) -> Seq<Seq<char>>
    decreases fs.len(),
{
    if fs.len() == 0 {
        Seq::empty()
    } else if reached.contains(fs.last()) {
        dark_of(fs.drop_last(), reached)
    } else {
        dark_of(fs.drop_last(), reached).push(fs.last())
    }
}

/// How much of the node's region is reached; nothing for a node without a boundary.
pub open spec fn coverage(
    m: ScryModelView,
    id: Seq<char>,
    files: Set<Seq<char>>,
    reached: Set<Seq<char>>,
) -> Option<BoundaryCoverageView> {
    if m.boundaries.contains_key(id) && m.boundaries[id].len() > 0 {
        let mine = files_owned(
            boundary_rows(m.boundaries, node_ids(m.nodes)),
            id,
            ascending(files),
        );
        let dark = dark_of(mine, reached);
        Some(
            BoundaryCoverageView {
                total_files: mine.len(),
                anchored_files: (mine.len() - dark.len()) as nat,
                dark_files: dark,
            },
        )
    } else {
        None
    }
}

/// Are the files written with `/` alone?
pub open spec fn files_slashed(files: Set<Seq<char>>) -> bool {
    forall|f: Seq<char>| #[trigger] files.contains(f) ==> slashed(f)
}

proof fn lemma_dark_len(fs: Seq<Seq<char>>, reached: Set<Seq<char>>)
    ensures
        dark_of(fs, reached).len() <= fs.len(),
    decreases fs.len(),
{
    if fs.len() > 0 {
        lemma_dark_len(fs.drop_last(), reached);
    }
}

proof fn lemma_files_owned_len(
    rows: Seq<(Seq<char>, Seq<char>)>,
    id: Seq<char>,
    fs: Seq<Seq<char>>,
    i: int,
)
    requires
        0 <= i <= fs.len(),
    ensures
        files_owned(rows, id, fs.take(i)).len() <= files_owned(rows, id, fs).len(),
    decreases fs.len(),
{
    if i == fs.len() {
        assert(fs.take(i) =~= fs);
    } else {
        lemma_files_owned_len(rows, id, fs.drop_last(), i);
        assert(fs.take(i) =~= fs.drop_last().take(i));
    }
}

fn boundary_coverage(
    model: &ScryModel,
    ownership: &BoundaryOwnership,
    node_id: &str,
    files: &StrSet,
    anchored: &StrSet,
) -> (r: Option<BoundaryCoverage>)
    requires
        ownership.deep_view() == boundary_rows(
            model.deep_view().boundaries,
            node_ids(model.deep_view().nodes),
        ),
        rows_slashed(ownership.deep_view()),
        files_slashed(files.deep_view()),
        files_owned(ownership.deep_view(), node_id@, ascending(files.deep_view())).len()
            <= u32::MAX,
    ensures
        r.deep_view() == coverage(
            model.deep_view(),
            node_id@,
            files.deep_view(),
            anchored.deep_view(),
        ),
{
    match model.boundaries.get(node_id) {
        None => {
            return None;
        },
        Some(s) => {
            if s.len() == 0 {
                return None;
            }
        },
    }
    let ghost rows = ownership.deep_view();
    let ghost av = anchored.deep_view();
    let n: usize = files.len();
    let ghost fs = ascending(files.deep_view());
    let mut count: u32 = 0;
    let mut hit: u32 = 0;
    let mut dark: Vec<String> = fresh();
    let mut i: usize = 0;
    assert(fs.take(0) =~= Seq::<Seq<char>>::empty());
    while i < n
        invariant
            i <= n == fs.len(),
            fs == ascending(files.deep_view()),
            fs.to_set() == files.deep_view(),
            rows == ownership.deep_view(),
            av == anchored.deep_view(),
            rows_slashed(rows),
            files_slashed(files.deep_view()),
            files_owned(rows, node_id@, fs).len() <= u32::MAX,
            count == files_owned(rows, node_id@, fs.take(i as int)).len(),
            dark.deep_view() == dark_of(files_owned(rows, node_id@, fs.take(i as int)), av),
            hit + dark@.len() == count,
        decreases n - i,
    {
        let f = files.item(i);
        proof {
            assert(fs.to_set().contains(fs[i as int]));
            assert(fs.take(i + 1).drop_last() =~= fs.take(i as int));
            lemma_files_owned_len(rows, node_id@, fs, i + 1);
        }
        if ownership.owns(node_id, f.as_str()) {
            let ghost mine = files_owned(rows, node_id@, fs.take(i as int));
            assert(mine.push(f@).drop_last() =~= mine);
            count += 1;
            if anchored.contains(f.as_str()) {
                hit += 1;
            } else {
                put(&mut dark, f.clone());
            }
        }
        i += 1;
    }
    assert(fs.take(n as int) =~= fs);
    proof {
        lemma_dark_len(files_owned(rows, node_id@, fs), av);
    }
    Some(BoundaryCoverage { total_files: count, anchored_files: hit, dark_files: dark })
}

// ---- the health of a model ----------------------------------------------------------

/// The own counts of the node called `id`.
pub open spec fn own_of(
    m: ScryModelView,
    planned: Option<Seq<NodeView>>,
    id: Seq<char>,
) -> HealthCountsView {
    own_counts(m, planned, last_node(m.nodes, id)->0)
}

/// What a node brings to its subtree: its own counts, and those of the groups that
/// organise the level below it.
pub open spec fn brought(
    m: ScryModelView,
    planned: Option<Seq<NodeView>>,
    id: Seq<char>,
) -> HealthCountsView {
    HealthCounts::plus(own_of(m, planned, id), hosted_counts(m, m.groups, Some(id)))
}

/// What each node brings to its subtree.
pub open spec fn start_counts(
    m: ScryModelView,
    planned: Option<Seq<NodeView>>,
) -> Map<Seq<char>, HealthCountsView> {
    keyed(m.nodes, |id: Seq<char>| brought(m, planned, id))
}

/// The counts of every subtree.
pub open spec fn all_counts(
    m: ScryModelView,
    planned: Option<Seq<NodeView>>,
) -> Map<Seq<char>, HealthCountsView> {
    figures::<HealthCounts>(m.nodes, start_counts(m, planned))
}

/// What a list of nodes counts for, each on its own.
pub open spec fn nodes_counts(
    m: ScryModelView,
    planned: Option<Seq<NodeView>>,
    ns: Seq<NodeView>,
) -> HealthCountsView
    decreases ns.len(),
{
    if ns.len() == 0 {
        no_counts()
    } else {
        HealthCounts::plus(
            nodes_counts(m, planned, ns.drop_last()),
            own_counts(m, planned, ns.last()),
        )
    }
}

/// What a list of groups counts for.
pub open spec fn groups_counts(m: ScryModelView, gs: Seq<GroupView>) -> HealthCountsView
    decreases gs.len(),
{
    if gs.len() == 0 {
        no_counts()
    } else {
        HealthCounts::plus(groups_counts(m, gs.drop_last()), group_counts(m, gs.last()))
    }
}

/// The counts of the whole model: every node and every group once, wherever parented.
pub open spec fn totals_of(
    m: ScryModelView,
    planned: Option<Seq<NodeView>>,
) -> HealthCountsView {
    HealthCounts::plus(nodes_counts(m, planned, m.nodes), groups_counts(m, m.groups))
}

proof fn lemma_nodes_fit(
    m: ScryModelView,
    planned: Option<Seq<NodeView>>,
    ns: Seq<NodeView>,
    i: int,
)
    requires
        HealthCounts::fits(nodes_counts(m, planned, ns)),
        0 <= i <= ns.len(),
    ensures
        HealthCounts::fits(nodes_counts(m, planned, ns.take(i))),
    decreases ns.len(),
{
    if i == ns.len() {
        assert(ns.take(i) =~= ns);
    } else {
        lemma_nodes_fit(m, planned, ns.drop_last(), i);
        assert(ns.take(i) =~= ns.drop_last().take(i));
    }
}

proof fn lemma_groups_fit(m: ScryModelView, gs: Seq<GroupView>, i: int)
    requires
        HealthCounts::fits(groups_counts(m, gs)),
        0 <= i <= gs.len(),
    ensures
        HealthCounts::fits(groups_counts(m, gs.take(i))),
    decreases gs.len(),
{
    if i == gs.len() {
        assert(gs.take(i) =~= gs);
    } else {
        lemma_groups_fit(m, gs.drop_last(), i);
        assert(gs.take(i) =~= gs.drop_last().take(i));
    }
}

fn count_all(model: &ScryModel, planned: Option<&ScryModel>) -> (h: HealthCounts)
    requires
        HealthCounts::fits(totals_of(model.deep_view(), nodes_in(planned))),
    ensures
        h.deep_view() == totals_of(model.deep_view(), nodes_in(planned)),
{
    let ghost m = model.deep_view();
    let ghost pv = nodes_in(planned);
    let mut h = HealthCounts::default();
    let mut i: usize = 0;
    assert(m.nodes.take(0) =~= Seq::<NodeView>::empty());
    while i < model.nodes.len()
        invariant
            i <= model.nodes@.len(),
            m == model.deep_view(),
            pv == nodes_in(planned),
            HealthCounts::fits(nodes_counts(m, pv, m.nodes)),
            h.deep_view() == nodes_counts(m, pv, m.nodes.take(i as int)),
        decreases model.nodes@.len() - i,
    {
        let n = at(&model.nodes, i);
        proof {
            assert(m.nodes.take(i + 1).drop_last() =~= m.nodes.take(i as int));
            assert(m.nodes.take(i + 1).last() == n.deep_view());
            lemma_nodes_fit(m, pv, m.nodes, i + 1);
        }
        let c = count_own(model, planned, n);
        h.merge(&c);
        i += 1;
    }
    assert(m.nodes.take(i as int) =~= m.nodes);
    let mut g = HealthCounts::default();
    let mut j: usize = 0;
    assert(m.groups.take(0) =~= Seq::<GroupView>::empty());
    while j < model.groups.len()
        invariant
            j <= model.groups@.len(),
            m == model.deep_view(),
            HealthCounts::fits(groups_counts(m, m.groups)),
            g.deep_view() == groups_counts(m, m.groups.take(j as int)),
        decreases model.groups@.len() - j,
    {
        let x = at(&model.groups, j);
        proof {
            assert(m.groups.take(j + 1).drop_last() =~= m.groups.take(j as int));
            assert(m.groups.take(j + 1).last() == x.deep_view());
            lemma_groups_fit(m, m.groups, j + 1);
        }
        let c = count_claims(model, &x.responsibilities, true, false);
        g.merge(&c);
        j += 1;
    }
    assert(m.groups.take(j as int) =~= m.groups);
    h.merge(&g);
    h
}

/// The health of the node called `id`.
pub open spec fn node_health_of(
    m: ScryModelView,
    planned: Option<Seq<NodeView>>,
    files: Option<Set<Seq<char>>>,
    id: Seq<char>,
) -> NodeHealthView {
    NodeHealthView {
        own: own_of(m, planned, id),
        subtree: all_counts(m, planned)[id],
        boundary: match files {
            Some(fs) => coverage(m, id, fs, reached_files(m)[id]),
            None => None,
        },
    }
}

/// The health of a model.
pub open spec fn health_of(
    m: ScryModelView,
    planned: Option<Seq<NodeView>>,
    files: Option<Set<Seq<char>>>,
) -> ModelHealthView {
    ModelHealthView {
        nodes: keyed(m.nodes, |id: Seq<char>| node_health_of(m, planned, files, id)),
        totals: totals_of(m, planned),
        disconnected: floating(m),
    }
}

/// Can what each node brings to its subtree be held?
pub open spec fn starts_fit(m: ScryModelView, planned: Option<Seq<NodeView>>) -> bool {
    forall|i: int|
        0 <= i < m.nodes.len() ==> HealthCounts::fits(
            brought(m, planned, (#[trigger] m.nodes[i]).id),
        )
}

/// Can the counts of the model be held, all of them?
pub open spec fn counts_fit(m: ScryModelView, planned: Option<Seq<NodeView>>) -> bool {
    &&& starts_fit(m, planned)
    &&& all_fit::<HealthCounts>(all_counts(m, planned))
    &&& HealthCounts::fits(totals_of(m, planned))
}

/// Are the files and the boundaries written with `/` alone, and few enough files
/// in each boundary to be counted?
pub open spec fn files_fit(m: ScryModelView, files: Set<Seq<char>>) -> bool {
    &&& files_slashed(files)
    &&& boundaries_slashed(m.boundaries)
    &&& forall|i: int|
        0 <= i < m.nodes.len() ==> files_owned(
            boundary_rows(m.boundaries, node_ids(m.nodes)),
            (#[trigger] m.nodes[i]).id,
            ascending(files),
        ).len() <= u32::MAX
}

/// The files, where they were given.
pub open spec fn files_in(files: Option<&StrSet>) -> Option<Set<Seq<char>>> {
    match files {
        Some(fs) => Some(fs.deep_view()),
        None => None,
    }
}

fn count_start(model: &ScryModel, planned: Option<&ScryModel>) -> (r: (
    StrMap<HealthCounts>,
    StrMap<HealthCounts>,
))
    requires
        starts_fit(model.deep_view(), nodes_in(planned)),
    ensures
        r.0.deep_view() == keyed(
            model.deep_view().nodes,
            |id: Seq<char>| own_of(model.deep_view(), nodes_in(planned), id),
        ),
        r.1.deep_view() == start_counts(model.deep_view(), nodes_in(planned)),
{
    let ghost m = model.deep_view();
    let ghost pv = nodes_in(planned);
    let ghost ns = m.nodes;
    let ghost f = |id: Seq<char>| own_of(m, pv, id);
    let ghost g = |id: Seq<char>| brought(m, pv, id);
    let mut own: StrMap<HealthCounts> = StrMap::new();
    let mut base: StrMap<HealthCounts> = StrMap::new();
    let mut i: usize = 0;
    proof {
        lemma_keyed_ends(ns, f);
        lemma_keyed_ends(ns, g);
    }
    while i < model.nodes.len()
        invariant
            i <= model.nodes@.len(),
            m == model.deep_view(),
            pv == nodes_in(planned),
            ns == m.nodes,
            starts_fit(m, pv),
            f == |id: Seq<char>| own_of(m, pv, id),
            g == |id: Seq<char>| brought(m, pv, id),
            own.deep_view() == keyed(ns.take(i as int), f),
            base.deep_view() == keyed(ns.take(i as int), g),
        decreases model.nodes@.len() - i,
    {
        let n = at(&model.nodes, i);
        proof {
            lemma_keyed(ns, i as int, f);
            lemma_keyed(ns, i as int, g);
            lemma_lookups(ns, n.id@);
            assert(has_node(ns, ns[i as int].id));
            assert(HealthCounts::fits(brought(m, pv, ns[i as int].id)));
        }
        match find_last_node(&model.nodes, n.id.as_str()) {
            Some(k) => {
                let mine = count_own(model, planned, at(&model.nodes, k));
                let host = Some(n.id.clone());
                let extra = count_hosted(model, &host);
                let mut all = mine.dup();
                all.merge(&extra);
                own.insert(n.id.clone(), mine);
                base.insert(n.id.clone(), all);
            },
            None => {},
        }
        i += 1;
    }
    (own, base)
}

/// The health of a model. `files` are the project's source files, by paths relative
/// to the project and written with `/`; without them no boundary is measured.
/// `planned` widens the verdict on what is a leaf to the tree as authored: a node
/// whose children exist only in the plan discharges its claims through them.
#[verifier::rlimit(30)]
pub fn compute_health(
    model: &ScryModel,
    planned: Option<&ScryModel>,
    files: Option<&StrSet>,
) -> (r: ModelHealth)
    requires
        counts_fit(model.deep_view(), nodes_in(planned)),
        files is Some ==> files_fit(model.deep_view(), files->0.deep_view()),
    ensures
        r.deep_view() == health_of(model.deep_view(), nodes_in(planned), files_in(files)),
{
    let ghost m = model.deep_view();
    let ghost pv = nodes_in(planned);
    let ghost fv = files_in(files);
    let ghost ns = m.nodes;
    let (own, base) = count_start(model, planned);
    proof {
        lemma_keyed_ends(ns, |id: Seq<char>| brought(m, pv, id));
    }
    let done = figures_of(model, &base);
    let totals = count_all(model, planned);

    let mut nodes: StrMap<NodeHealth> = StrMap::new();
    let ghost f = |id: Seq<char>| node_health_of(m, pv, fv, id);
    let ownership = BoundaryOwnership::new(model);
    let reached: Option<StrMap<StrSet>> = match files {
        Some(_) => {
            let n: usize = model.boundaries.len();
            proof {
                lemma_boundary_rows_slashed(m.boundaries, node_ids(ns));
            }
            Some(anchored_files_per_subtree(model))
        },
        None => None,
    };
    let mut i: usize = 0;
    proof {
        lemma_keyed_ends(ns, f);
        assert forall|k: int| 0 <= k < ns.len() implies done.deep_view().contains_key(
            (#[trigger] ns[k]).id,
        ) by {
            assert(has_node(ns, ns[k].id));
        }
    }
    while i < model.nodes.len()
        invariant
            i <= model.nodes@.len(),
            m == model.deep_view(),
            pv == nodes_in(planned),
            fv == files_in(files),
            ns == m.nodes,
            f == |id: Seq<char>| node_health_of(m, pv, fv, id),
            files is Some ==> files_fit(m, files->0.deep_view()) && rows_slashed(
                ownership.deep_view(),
            ),
            ownership.deep_view() == boundary_rows(m.boundaries, node_ids(ns)),
            own.deep_view() == keyed(ns, |id: Seq<char>| own_of(m, pv, id)),
            done.deep_view() == all_counts(m, pv),
            forall|k: int|
                0 <= k < ns.len() ==> done.deep_view().contains_key((#[trigger] ns[k]).id),
            files is Some <==> reached is Some,
            reached is Some ==> reached->0.deep_view() == reached_files(m) && forall|k: int|
                0 <= k < ns.len() ==> reached->0.deep_view().contains_key((#[trigger] ns[k]).id),
            nodes.deep_view() == keyed(ns.take(i as int), f),
        decreases model.nodes@.len() - i,
    {
        let n = at(&model.nodes, i);
        proof {
            lemma_keyed(ns, i as int, f);
            assert(has_node(ns, ns[i as int].id));
            assert(done.deep_view().contains_key(ns[i as int].id));
        }
        let boundary = match (files, &reached) {
            (Some(fs), Some(anchored)) => match anchored.get(n.id.as_str()) {
                Some(a) => boundary_coverage(model, &ownership, n.id.as_str(), fs, a),
                None => None,
            },
            _ => None,
        };
        match (own.get(n.id.as_str()), done.get(n.id.as_str())) {
            (Some(mine), Some(all)) => {
                let h = NodeHealth { own: mine.dup(), subtree: all.dup(), boundary };
                assert(h.deep_view() == f(n.id@));
                nodes.insert(n.id.clone(), h);
            },
            _ => {},
        }
        i += 1;
    }
    ModelHealth { nodes, totals, disconnected: disconnected_nodes(model) }
}

// ---- laws of health -----------------------------------------------------------------

/// Do the counts hang together: is every anchorable claim anchored or unmapped, and
/// are the tested, testable and untested claims among the claims?
pub open spec fn coherent(h: HealthCountsView) -> bool {
    &&& h.anchored + h.unmapped == h.anchorable
    &&& h.untested <= h.testable
    &&& h.testable <= h.responsibilities
    &&& h.tested <= h.responsibilities
    &&& h.testable - h.untested <= h.tested
}

proof fn lemma_total_coherent(us: Seq<HealthCountsView>, h: HealthCountsView)
    requires
        coherent(h),
        forall|i: int| 0 <= i < us.len() ==> coherent(#[trigger] us[i]),
    ensures
        coherent(total::<HealthCounts>(us, h)),
    decreases us.len(),
{
    if us.len() > 0 {
        let d = us.drop_last();
        assert forall|i: int| 0 <= i < d.len() implies coherent(#[trigger] d[i]) by {
            assert(d[i] == us[i]);
        }
        lemma_total_coherent(d, h);
        assert(coherent(us[us.len() - 1]));
    }
}

proof fn lemma_claims_coherent(
    m: ScryModelView,
    rs: Seq<ResponsibilityView>,
    backed: bool,
    leaf: bool,
)
    ensures
        coherent(claims_counts(m, rs, backed, leaf)),
{
    lemma_total_coherent(claim_units(m, rs, backed, leaf), no_counts());
}

proof fn lemma_hosted_coherent(m: ScryModelView, gs: Seq<GroupView>, host: Option<Seq<char>>)
    ensures
        coherent(hosted_counts(m, gs, host)),
    decreases gs.len(),
{
    if gs.len() > 0 {
        lemma_hosted_coherent(m, gs.drop_last(), host);
        lemma_claims_coherent(m, gs.last().responsibilities, true, false);
    }
}

proof fn lemma_groups_coherent(m: ScryModelView, gs: Seq<GroupView>)
    ensures
        coherent(groups_counts(m, gs)),
    decreases gs.len(),
{
    if gs.len() > 0 {
        lemma_groups_coherent(m, gs.drop_last());
        lemma_claims_coherent(m, gs.last().responsibilities, true, false);
    }
}

/// A node's own counts hang together.
pub proof fn law_own_counts_are_coherent(
    m: ScryModelView,
    planned: Option<Seq<NodeView>>,
    n: NodeView,
)
    ensures
        coherent(own_counts(m, planned, n)),
{
    let backed = code_backed(n);
    let leaf = backed && is_leaf(m.nodes, planned, n.id);
    lemma_claims_coherent(m, n.responsibilities, backed, leaf);
    lemma_total_coherent(
        property_units(n.properties),
        claims_counts(m, n.responsibilities, backed, leaf),
    );
}

proof fn lemma_nodes_coherent(
    m: ScryModelView,
    planned: Option<Seq<NodeView>>,
    ns: Seq<NodeView>,
)
    ensures
        coherent(nodes_counts(m, planned, ns)),
    decreases ns.len(),
{
    if ns.len() > 0 {
        lemma_nodes_coherent(m, planned, ns.drop_last());
        law_own_counts_are_coherent(m, planned, ns.last());
    }
}

/// At every altitude the unmapped claims are the anchorable ones that are not
/// anchored, and the untested ones are among the testable: on each node, in each
/// subtree and in the totals.
pub proof fn law_counts_are_coherent(
    m: ScryModelView,
    planned: Option<Seq<NodeView>>,
    files: Option<Set<Seq<char>>>,
    id: Seq<char>,
)
    requires
        has_node(m.nodes, id),
    ensures
        coherent(health_of(m, planned, files).nodes[id].own),
        coherent(health_of(m, planned, files).nodes[id].subtree),
        coherent(health_of(m, planned, files).totals),
{
    let p = |h: HealthCountsView| coherent(h);
    let bs = start_counts(m, planned);
    let ns = m.nodes;
    law_own_counts_are_coherent(m, planned, last_node(ns, id)->0);
    assert(additive::<HealthCounts>(p));
    assert forall|i: int| 0 <= i < ns.len() implies p(bs[(#[trigger] ns[i]).id]) by {
        assert(has_node(ns, ns[i].id));
        law_own_counts_are_coherent(m, planned, last_node(ns, ns[i].id)->0);
        lemma_hosted_coherent(m, m.groups, Some(ns[i].id));
    }
    law_every_figure_has::<HealthCounts>(ns, bs, id, p);
    lemma_nodes_coherent(m, planned, ns);
    lemma_groups_coherent(m, m.groups);
}

proof fn lemma_none_anchorable(us: Seq<HealthCountsView>, h: HealthCountsView)
    requires
        h.anchorable == 0,
        forall|i: int| 0 <= i < us.len() ==> (#[trigger] us[i]).anchorable == 0,
    ensures
        total::<HealthCounts>(us, h).anchorable == 0,
    decreases us.len(),
{
    if us.len() > 0 {
        let d = us.drop_last();
        assert forall|i: int| 0 <= i < d.len() implies (#[trigger] d[i]).anchorable == 0 by {
            assert(d[i] == us[i]);
        }
        lemma_none_anchorable(d, h);
        assert(us[us.len() - 1].anchorable == 0);
    }
}

/// The claims of a structural node, of a person and of an external system are never
/// expected to carry an anchor, so they are never unmapped. Children that exist only
/// in the plan make a node structural too.
pub proof fn law_only_leaves_are_unmapped(
    m: ScryModelView,
    planned: Option<Seq<NodeView>>,
    n: NodeView,
)
    requires
        !code_backed(n) || has_child(m.nodes, n.id) || (planned is Some && has_child(
            planned->0,
            n.id,
        )),
    ensures
        own_counts(m, planned, n).anchorable == 0,
        own_counts(m, planned, n).anchored == 0,
        own_counts(m, planned, n).unmapped == 0,
{
    let backed = code_backed(n);
    let cu = claim_units(m, n.responsibilities, backed, false);
    let pu = property_units(n.properties);
    lemma_none_anchorable(cu, no_counts());
    lemma_none_anchorable(pu, claims_counts(m, n.responsibilities, backed, false));
    law_own_counts_are_coherent(m, planned, n);
}

/// How many claims a node brings to its subtree: its own, and those of the groups that
/// organise the level below it.
pub open spec fn claims_brought(m: ScryModelView) -> spec_fn(Seq<char>) -> nat {
    |x: Seq<char>|
        last_node(m.nodes, x)->0.responsibilities.len() + hosted_counts(
            m,
            m.groups,
            Some(x),
        ).responsibilities
}

/// The counts of a subtree count every claim of the node, of everything below it and of
/// their groups exactly once, whatever loops the parents close.
pub proof fn law_a_subtree_counts_every_claim_once(
    m: ScryModelView,
    planned: Option<Seq<NodeView>>,
    files: Option<Set<Seq<char>>>,
    id: Seq<char>,
)
    requires
        has_node(m.nodes, id),
    ensures
        health_of(m, planned, files).nodes[id].subtree.responsibilities == sum(
            subtree(m.nodes, id),
            claims_brought(m),
        ),
        subtree(m.nodes, id).no_duplicates(),
{
    let ns = m.nodes;
    let bs = start_counts(m, planned);
    let rel = |h: HealthCountsView, n: nat| h.responsibilities == n;
    let c = claims_brought(m);
    assert(adds_up::<HealthCounts>(rel));
    assert forall|i: int| 0 <= i < ns.len() implies rel(bs[(#[trigger] ns[i]).id], c(ns[i].id)) by {
        assert(has_node(ns, ns[i].id));
        law_own_claims_are_counted(m, planned, last_node(ns, ns[i].id)->0);
    }
    law_every_node_counts_once::<HealthCounts>(ns, bs, id, rel, c);
}

/// A boundary's files are reached or dark, each of them one of the two.
pub proof fn law_files_are_reached_or_dark(
    m: ScryModelView,
    id: Seq<char>,
    files: Set<Seq<char>>,
    reached: Set<Seq<char>>,
)
    requires
        coverage(m, id, files, reached) is Some,
    ensures
        ({
            let c = coverage(m, id, files, reached)->0;
            c.anchored_files + c.dark_files.len() == c.total_files
        }),
        forall|f: Seq<char>|
            coverage(m, id, files, reached)->0.dark_files.contains(f) ==> !reached.contains(f),
{
    let mine = files_owned(
        boundary_rows(m.boundaries, node_ids(m.nodes)),
        id,
        ascending(files),
    );
    lemma_dark_len(mine, reached);
    lemma_dark(mine, reached);
}

proof fn lemma_dark(fs: Seq<Seq<char>>, reached: Set<Seq<char>>)
    ensures
        forall|f: Seq<char>| dark_of(fs, reached).contains(f) ==> !reached.contains(f),
    decreases fs.len(),
{
    if fs.len() > 0 {
        lemma_dark(fs.drop_last(), reached);
        let before = dark_of(fs.drop_last(), reached);
        assert forall|f: Seq<char>| dark_of(fs, reached).contains(f) implies !reached.contains(
            f,
        ) by {
            if !reached.contains(fs.last()) && f != fs.last() {
                let k = choose|k: int|
                    0 <= k < dark_of(fs, reached).len() && dark_of(fs, reached)[k] == f;
                assert(before[k] == f);
            }
        }
    }
}

proof fn lemma_claims_counted(us: Seq<HealthCountsView>, h: HealthCountsView)
    requires
        forall|i: int| 0 <= i < us.len() ==> (#[trigger] us[i]).responsibilities == 1,
    ensures
        total::<HealthCounts>(us, h).responsibilities == h.responsibilities + us.len(),
    decreases us.len(),
{
    if us.len() > 0 {
        let d = us.drop_last();
        assert forall|i: int| 0 <= i < d.len() implies (#[trigger] d[i]).responsibilities == 1 by {
            assert(d[i] == us[i]);
        }
        lemma_claims_counted(d, h);
        assert(us[us.len() - 1].responsibilities == 1);
    }
}

proof fn lemma_properties_claim_nothing(us: Seq<HealthCountsView>, h: HealthCountsView)
    requires
        forall|i: int| 0 <= i < us.len() ==> (#[trigger] us[i]).responsibilities == 0,
    ensures
        total::<HealthCounts>(us, h).responsibilities == h.responsibilities,
    decreases us.len(),
{
    if us.len() > 0 {
        let d = us.drop_last();
        assert forall|i: int| 0 <= i < d.len() implies (#[trigger] d[i]).responsibilities == 0 by {
            assert(d[i] == us[i]);
        }
        lemma_properties_claim_nothing(d, h);
        assert(us[us.len() - 1].responsibilities == 0);
    }
}

/// A node's own count of claims is how many it has.
pub proof fn law_own_claims_are_counted(
    m: ScryModelView,
    planned: Option<Seq<NodeView>>,
    n: NodeView,
)
    ensures
        own_counts(m, planned, n).responsibilities == n.responsibilities.len(),
{
    let backed = code_backed(n);
    let leaf = backed && is_leaf(m.nodes, planned, n.id);
    lemma_claims_counted(claim_units(m, n.responsibilities, backed, leaf), no_counts());
    lemma_properties_claim_nothing(
        property_units(n.properties),
        claims_counts(m, n.responsibilities, backed, leaf),
    );
}

/// How many claims the groups have.
pub open spec fn group_claims(gs: Seq<GroupView>) -> nat
    decreases gs.len(),
{
    if gs.len() == 0 {
        0
    } else {
        group_claims(gs.drop_last()) + gs.last().responsibilities.len()
    }
}

/// How many claims the nodes have.
pub open spec fn node_claims(ns: Seq<NodeView>) -> nat
    decreases ns.len(),
{
    if ns.len() == 0 {
        0
    } else {
        node_claims(ns.drop_last()) + ns.last().responsibilities.len()
    }
}

spec fn claims_hosted(m: ScryModelView, gs: Seq<GroupView>) -> spec_fn(Seq<char>) -> nat {
    |x: Seq<char>| hosted_counts(m, gs, Some(x)).responsibilities
}

proof fn lemma_groups_hosted_once(m: ScryModelView, gs: Seq<GroupView>, ids: Seq<Seq<char>>)
    requires
        ids.no_duplicates(),
    ensures
        sum(ids, claims_hosted(m, gs)) <= group_claims(gs),
    decreases gs.len(),
{
    if gs.len() == 0 {
        lemma_sum_zero(ids, claims_hosted(m, gs));
    } else {
        let d = gs.drop_last();
        let g = gs.last();
        lemma_groups_hosted_once(m, d, ids);
        lemma_claims_counted(claim_units(m, g.responsibilities, true, false), no_counts());
        let n = g.responsibilities.len();
        assert(group_counts(m, g).responsibilities == n);
        match group_host(m, g) {
            Some(p) => {
                assert forall|x: Seq<char>| #[trigger] claims_hosted(m, gs)(x) == claims_hosted(
                    m,
                    d,
                )(x) + if x == p {
                    n
                } else {
                    0
                } by {}
                lemma_sum_more(ids, claims_hosted(m, d), claims_hosted(m, gs), p, n);
            },
            None => {
                assert forall|x: Seq<char>| #[trigger] claims_hosted(m, gs)(x) == claims_hosted(
                    m,
                    d,
                )(x) by {}
                lemma_sum_agrees(ids, claims_hosted(m, gs), claims_hosted(m, d));
            },
        }
    }
}

proof fn lemma_nodes_counted(
    m: ScryModelView,
    planned: Option<Seq<NodeView>>,
    ns: Seq<NodeView>,
)
    ensures
        nodes_counts(m, planned, ns).responsibilities == node_claims(ns),
    decreases ns.len(),
{
    if ns.len() > 0 {
        lemma_nodes_counted(m, planned, ns.drop_last());
        law_own_claims_are_counted(m, planned, ns.last());
    }
}

proof fn lemma_groups_counted(m: ScryModelView, gs: Seq<GroupView>)
    ensures
        groups_counts(m, gs).responsibilities == group_claims(gs),
    decreases gs.len(),
{
    if gs.len() > 0 {
        lemma_groups_counted(m, gs.drop_last());
        lemma_claims_counted(
            claim_units(m, gs.last().responsibilities, true, false),
            no_counts(),
        );
    }
}

/// The totals count every claim of every node and group exactly once, wherever it is
/// parented: under a root, in a parent loop, or below one.
pub proof fn law_totals_count_every_claim_once(
    m: ScryModelView,
    planned: Option<Seq<NodeView>>,
    files: Option<Set<Seq<char>>>,
)
    ensures
        health_of(m, planned, files).totals.responsibilities == node_claims(m.nodes)
            + group_claims(m.groups),
{
    lemma_nodes_counted(m, planned, m.nodes);
    lemma_groups_counted(m, m.groups);
}

// ---- when the counts can be held ------------------------------------------------------

/// Is every count at most `n`?
pub open spec fn at_most(h: HealthCountsView, n: nat) -> bool {
    &&& h.responsibilities <= n
    &&& h.properties <= n
    &&& h.tested <= n
    &&& h.testable <= n
    &&& h.untested <= n
    &&& h.vagrant <= n
    &&& h.stale <= n
    &&& h.anchorable <= n
    &&& h.anchored <= n
    &&& h.unmapped <= n
}

/// How much a node has to count: its claims, its properties and its data shape.
pub open spec fn node_size(n: NodeView) -> nat {
    n.responsibilities.len() + n.properties.len() + 1
}

/// How much the nodes have to count.
pub open spec fn nodes_size(ns: Seq<NodeView>) -> nat
    decreases ns.len(),
{
    if ns.len() == 0 {
        0
    } else {
        nodes_size(ns.drop_last()) + node_size(ns.last())
    }
}

proof fn lemma_total_at_most(us: Seq<HealthCountsView>, h: HealthCountsView, n: nat)
    requires
        at_most(h, n),
        forall|i: int| 0 <= i < us.len() ==> at_most(#[trigger] us[i], 1),
    ensures
        at_most(total::<HealthCounts>(us, h), n + us.len()),
    decreases us.len(),
{
    if us.len() > 0 {
        let d = us.drop_last();
        assert forall|i: int| 0 <= i < d.len() implies at_most(#[trigger] d[i], 1) by {
            assert(d[i] == us[i]);
        }
        lemma_total_at_most(d, h, n);
        assert(at_most(us[us.len() - 1], 1));
    }
}

proof fn lemma_own_at_most(m: ScryModelView, planned: Option<Seq<NodeView>>, n: NodeView)
    ensures
        at_most(own_counts(m, planned, n), node_size(n)),
{
    let backed = code_backed(n);
    let leaf = backed && is_leaf(m.nodes, planned, n.id);
    lemma_total_at_most(claim_units(m, n.responsibilities, backed, leaf), no_counts(), 0);
    lemma_total_at_most(
        property_units(n.properties),
        claims_counts(m, n.responsibilities, backed, leaf),
        n.responsibilities.len(),
    );
}

proof fn lemma_hosted_at_most(m: ScryModelView, gs: Seq<GroupView>, host: Option<Seq<char>>)
    ensures
        at_most(hosted_counts(m, gs, host), hosted_counts(m, gs, host).responsibilities),
        hosted_counts(m, gs, host).responsibilities <= group_claims(gs),
    decreases gs.len(),
{
    if gs.len() > 0 {
        lemma_hosted_at_most(m, gs.drop_last(), host);
        let us = claim_units(m, gs.last().responsibilities, true, false);
        lemma_total_at_most(us, no_counts(), 0);
        lemma_claims_counted(us, no_counts());
    }
}

spec fn sizes(ns: Seq<NodeView>) -> spec_fn(Seq<char>) -> nat {
    |x: Seq<char>| node_size(last_node(ns, x)->0)
}

/// Nodes that are counted once come to no more than all of them.
proof fn lemma_sizes_within(ns: Seq<NodeView>, ids: Seq<Seq<char>>)
    requires
        ids.no_duplicates(),
        forall|k: int| 0 <= k < ids.len() ==> has_node(ns, #[trigger] ids[k]),
    ensures
        sum(ids, sizes(ns)) <= nodes_size(ns),
    decreases ns.len(),
{
    if ns.len() == 0 {
        if ids.len() > 0 {
            assert(has_node(ns, ids[0]));
        }
    } else {
        let d = ns.drop_last();
        let l = ns.last();
        let rest = without_one(ids, l.id);
        lemma_without_one(ids, l.id, sizes(ns));
        assert forall|k: int| 0 <= k < rest.len() implies has_node(d, #[trigger] rest[k]) by {
            assert(ids.contains(rest[k]) && rest[k] != l.id);
            let q = choose|q: int| 0 <= q < ids.len() && ids[q] == rest[k];
            assert(has_node(ns, ids[q]));
            let j = choose|j: int| 0 <= j < ns.len() && (#[trigger] ns[j]).id == rest[k];
            assert(d[j].id == rest[k]);
        }
        lemma_sizes_within(d, rest);
        assert forall|k: int| 0 <= k < rest.len() implies sizes(ns)(#[trigger] rest[k]) == sizes(d)(
            rest[k],
        ) by {
            assert(rest[k] != l.id);
        }
        lemma_sum_same_on(rest, sizes(ns), sizes(d));
    }
}

/// Is there not more in the model than can be counted?
pub open spec fn few(m: ScryModelView) -> bool {
    nodes_size(m.nodes) + group_claims(m.groups) <= u32::MAX
}

proof fn lemma_one_node_size(ns: Seq<NodeView>, id: Seq<char>)
    ensures
        last_node(ns, id) is Some ==> node_size(last_node(ns, id)->0) <= nodes_size(ns),
    decreases ns.len(),
{
    if ns.len() > 0 {
        lemma_one_node_size(ns.drop_last(), id);
    }
}

proof fn lemma_nodes_at_most(
    m: ScryModelView,
    planned: Option<Seq<NodeView>>,
    ns: Seq<NodeView>,
)
    ensures
        at_most(nodes_counts(m, planned, ns), nodes_size(ns)),
    decreases ns.len(),
{
    if ns.len() > 0 {
        lemma_nodes_at_most(m, planned, ns.drop_last());
        lemma_own_at_most(m, planned, ns.last());
    }
}

proof fn lemma_groups_at_most(m: ScryModelView, gs: Seq<GroupView>)
    ensures
        at_most(groups_counts(m, gs), group_claims(gs)),
    decreases gs.len(),
{
    if gs.len() > 0 {
        lemma_groups_at_most(m, gs.drop_last());
        lemma_total_at_most(
            claim_units(m, gs.last().responsibilities, true, false),
            no_counts(),
            0,
        );
    }
}

/// Where there is not more in a model than can be counted, all its counts can be held:
/// the totals, what each node brings, and every subtree's, whatever loops the parents
/// close and whatever ids are used twice.
pub proof fn law_few_fit(m: ScryModelView, planned: Option<Seq<NodeView>>)
    requires
        few(m),
    ensures
        counts_fit(m, planned),
{
    let ns = m.nodes;
    let bs = start_counts(m, planned);
    lemma_nodes_at_most(m, planned, ns);
    lemma_groups_at_most(m, m.groups);
    let c = |x: Seq<char>| sizes(ns)(x) + claims_hosted(m, m.groups)(x);
    let rel = |v: HealthCountsView, n: nat| at_most(v, n);
    assert forall|i: int| 0 <= i < ns.len() implies HealthCounts::fits(
        brought(m, planned, (#[trigger] ns[i]).id),
    ) && rel(bs[ns[i].id], c(ns[i].id)) by {
        assert(has_node(ns, ns[i].id));
        lemma_lookups(ns, ns[i].id);
        lemma_one_node_size(ns, ns[i].id);
        lemma_own_at_most(m, planned, last_node(ns, ns[i].id)->0);
        lemma_hosted_at_most(m, m.groups, Some(ns[i].id));
    }
    assert(rated(ns, bs, rel, c));
    assert(adds_up::<HealthCounts>(rel));
    let all = all_counts(m, planned);
    assert forall|x: Seq<char>| #[trigger] all.contains_key(x) implies HealthCounts::fits(
        all[x],
    ) by {
        law_every_node_counts_once::<HealthCounts>(ns, bs, x, rel, c);
        let s = subtree(ns, x);
        lemma_sizes_within(ns, s);
        lemma_groups_hosted_once(m, m.groups, s);
        lemma_sum_of_two(s, sizes(ns), claims_hosted(m, m.groups), c);
        assert(at_most(all[x], sum(s, c)));
    }
}

} // verus!
