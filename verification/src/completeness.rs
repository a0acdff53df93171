//! How much of what was authored reads through to real code.
//!
//! Health is a lens over the committed model; completeness spans the model as
//! authored, committed and planned, so it is defined before any code exists: the
//! denominator is intent, the numerator what is anchored to code that is there.
//!
//! What is counted is the anchorable primitive: a node's own boundary (a claimed
//! territory), each claim of a leaf, and each data shape of a leaf.

use crate::commit::{working, working_view};
use crate::health::{code_backed, files_slashed, has_child, is_structural, one};
use crate::drift::subtree;
use crate::model::{
    find_last_node, has_node, last_node, lemma_lookups, Kind, Node, NodeView, Responsibility,
    ResponsibilityView, ScryModel, ScryModelView, SourceLocation, SourceLocationView,
};
use crate::modelled::{at, is_on, Modelled};
use crate::ownership::{
    boundaries_slashed, boundary_rows, ids_of, lemma_boundary_rows_slashed, node_ids, owned,
    rows_slashed, BoundaryOwnership,
};
use crate::percent::{law_a_percentage_is_nearest, law_percentages_stay_within, percent, percent_of};
use crate::rollup::{
    additive, adds_up, all_fit, figures, figures_of, keyed, law_every_figure_has,
    law_every_node_counts_once, lemma_keyed, lemma_keyed_ends, lemma_sum_same_on, lemma_without_one,
    rated, sum, without_one, Tally,
};
use crate::strmap::StrMap;
use crate::strset::StrSet;
use crate::text::{ascending, holds};
use vstd::prelude::*;
use vstd::string::*;

verus! {

/// A node's build completeness.
#[derive(Debug, PartialEq)]
pub struct Completeness {
    /// Anchored primitives in the subtree: boundaries whose glob owns real files,
    /// leaf claims and data shapes whose anchor resolves to live code.
    pub anchored: u32,
    /// Authored primitives in the subtree.
    pub total: u32,
    /// Leaf primitives in the subtree. Where there is none the node is unmeasured.
    pub leaf_total: u32,
    /// A rounded percentage, or nothing where there is nothing to measure.
    pub pct: Option<u32>,
}

/// The model of [`Completeness`].
#[verifier::ext_equal]
pub struct CompletenessView {
    pub anchored: nat,
    pub total: nat,
    pub leaf_total: nat,
    pub pct: Option<u32>,
}

impl DeepView for Completeness {
    type V = CompletenessView;

    open spec fn deep_view(&self) -> CompletenessView {
        CompletenessView {
            anchored: self.anchored as nat,
            total: self.total as nat,
            leaf_total: self.leaf_total as nat,
            pct: self.pct,
        }
    }
}

impl Modelled for Completeness {
    fn dup(&self) -> (r: Self) {
        Completeness {
            anchored: self.anchored,
            total: self.total,
            leaf_total: self.leaf_total,
            pct: self.pct,
        }
    }

    fn same(&self, other: &Self) -> (r: bool) {
        self.anchored == other.anchored && self.total == other.total && self.leaf_total
            == other.leaf_total && self.pct.same(&other.pct)
    }
}

impl Clone for Completeness {
    fn clone(&self) -> (r: Self)
        ensures
            r.deep_view() == self.deep_view(),
    {
        self.dup()
    }
}

impl Default for Completeness {
    fn default() -> (r: Self)
        ensures
            r.deep_view() == nothing_authored(),
    {
        Completeness { anchored: 0, total: 0, leaf_total: 0, pct: None }
    }
}

/// Nothing authored.
pub open spec fn nothing_authored() -> CompletenessView {
    CompletenessView { anchored: 0, total: 0, leaf_total: 0, pct: None }
}

impl Tally for Completeness {
    open spec fn plus(a: CompletenessView, b: CompletenessView) -> CompletenessView {
        CompletenessView {
            anchored: a.anchored + b.anchored,
            total: a.total + b.total,
            leaf_total: a.leaf_total + b.leaf_total,
            pct: a.pct,
        }
    }

    open spec fn fits(v: CompletenessView) -> bool {
        v.anchored <= u32::MAX && v.total <= u32::MAX && v.leaf_total <= u32::MAX
    }

    proof fn lemma_fits(a: CompletenessView, b: CompletenessView) {
    }

    fn merge(&mut self, other: &Self) {
        self.anchored = self.anchored + other.anchored;
        self.total = self.total + other.total;
        self.leaf_total = self.leaf_total + other.leaf_total;
    }
}

/// What was resolved against the real files.
pub struct AnchorFacts<'a> {
    /// The nodes whose boundary owns at least one real file.
    pub real_boxes: &'a StrSet,
    /// The keys of the source map (a claim, or a node for a data shape) whose anchor
    /// resolves to code that exists.
    pub live_anchors: &'a StrSet,
}

/// Does the node claim a territory?
pub open spec fn boxed(m: ScryModelView, id: Seq<char>) -> bool {
    m.boundaries.contains_key(id) && m.boundaries[id].len() > 0
}

/// How many of the claims have a live anchor.
pub open spec fn live_claims(rs: Seq<ResponsibilityView>, live: Set<Seq<char>>) -> nat
    decreases rs.len(),
{
    if rs.len() == 0 {
        0
    } else {
        live_claims(rs.drop_last(), live) + one(live.contains(rs.last().id))
    }
}

/// A node's own primitives. Persons and external systems are not our code, and
/// carry none; the claims of a structural node discharge through its subtree.
pub open spec fn own_primitives(
    m: ScryModelView,
    solid: Set<Seq<char>>,
    live: Set<Seq<char>>,
    n: NodeView,
) -> CompletenessView {
    if !code_backed(n) {
        nothing_authored()
    } else {
        let territory = boxed(m, n.id);
        let leaf = !has_child(m.nodes, n.id);
        let claims = if leaf {
            n.responsibilities.len()
        } else {
            0
        };
        let live_ones = if leaf {
            live_claims(n.responsibilities, live)
        } else {
            0
        };
        let shape = leaf && n.properties.len() > 0;
        CompletenessView {
            anchored: one(territory && solid.contains(n.id)) + live_ones + one(
                shape && live.contains(n.id),
            ),
            total: one(territory) + claims + one(shape),
            leaf_total: claims + one(shape),
            pct: None,
        }
    }
}

proof fn lemma_live_claims(rs: Seq<ResponsibilityView>, live: Set<Seq<char>>)
    ensures
        live_claims(rs, live) <= rs.len(),
    decreases rs.len(),
{
    if rs.len() > 0 {
        lemma_live_claims(rs.drop_last(), live);
    }
}

fn count_live(rs: &Vec<Responsibility>, live: &StrSet) -> (r: usize)
    ensures
        r == live_claims(rs.deep_view(), live.deep_view()),
{
    let ghost v = rs.deep_view();
    let ghost lv = live.deep_view();
    let mut count: usize = 0;
    let mut i: usize = 0;
    assert(v.take(0) =~= Seq::<ResponsibilityView>::empty());
    while i < rs.len()
        invariant
            i <= rs@.len(),
            v == rs.deep_view(),
            lv == live.deep_view(),
            count <= i,
            count == live_claims(v.take(i as int), lv),
        decreases rs@.len() - i,
    {
        let r = at(rs, i);
        assert(v.take(i + 1).drop_last() =~= v.take(i as int));
        if live.contains(r.id.as_str()) {
            count += 1;
        }
        i += 1;
    }
    assert(v.take(v.len() as int) =~= v);
    count
}

/// Does the node claim a territory?
pub fn is_boxed(model: &ScryModel, id: &str) -> (r: bool)
    ensures
        r == boxed(model.deep_view(), id@),
{
    match model.boundaries.get(id) {
        Some(b) => b.len() > 0,
        None => false,
    }
}

fn count_primitives(model: &ScryModel, facts: &AnchorFacts, n: &Node) -> (c: Completeness)
    requires
        Completeness::fits(
            own_primitives(
                model.deep_view(),
                facts.real_boxes.deep_view(),
                facts.live_anchors.deep_view(),
                n.deep_view(),
            ),
        ),
    ensures
        c.deep_view() == own_primitives(
            model.deep_view(),
            facts.real_boxes.deep_view(),
            facts.live_anchors.deep_view(),
            n.deep_view(),
        ),
{
    let mut c = Completeness::default();
    if n.kind == Kind::Person || is_on(&n.external) {
        return c;
    }
    if is_boxed(model, n.id.as_str()) {
        c.total = 1;
        if facts.real_boxes.contains(n.id.as_str()) {
            c.anchored = 1;
        }
    }
    if !is_structural(model, n.id.as_str()) {
        proof {
            lemma_live_claims(n.deep_view().responsibilities, facts.live_anchors.deep_view());
        }
        let shape = n.properties.len() > 0;
        let shape_live = shape && facts.live_anchors.contains(n.id.as_str());
        let claims: usize = n.responsibilities.len();
        let live: usize = count_live(&n.responsibilities, facts.live_anchors);
        c.total = c.total + claims as u32;
        c.leaf_total = claims as u32;
        c.anchored = c.anchored + live as u32;
        if shape {
            c.total = c.total + 1;
            c.leaf_total = c.leaf_total + 1;
            if shape_live {
                c.anchored = c.anchored + 1;
            }
        }
    }
    c
}

/// Each node's own primitives.
pub open spec fn start_primitives(
    m: ScryModelView,
    solid: Set<Seq<char>>,
    live: Set<Seq<char>>,
) -> Map<Seq<char>, CompletenessView> {
    keyed(m.nodes, |id: Seq<char>| own_primitives(m, solid, live, last_node(m.nodes, id)->0))
}

/// The primitives of every subtree, counted.
pub open spec fn all_primitives(
    m: ScryModelView,
    solid: Set<Seq<char>>,
    live: Set<Seq<char>>,
) -> Map<Seq<char>, CompletenessView> {
    figures::<Completeness>(m.nodes, start_primitives(m, solid, live))
}

/// A rolled figure with its percentage: none where there is no leaf primitive.
pub open spec fn measured(c: CompletenessView) -> CompletenessView {
    CompletenessView {
        pct: if c.leaf_total == 0 {
            None
        } else {
            Some(percent(c.anchored, c.total) as u32)
        },
        ..c
    }
}

/// The completeness of every node, by id.
pub open spec fn completeness_of(
    m: ScryModelView,
    solid: Set<Seq<char>>,
    live: Set<Seq<char>>,
) -> Map<Seq<char>, CompletenessView> {
    keyed(m.nodes, |id: Seq<char>| measured(all_primitives(m, solid, live)[id]))
}

/// Can each node's own primitives be counted?
pub open spec fn own_primitives_fit(
    m: ScryModelView,
    solid: Set<Seq<char>>,
    live: Set<Seq<char>>,
) -> bool {
    forall|i: int|
        0 <= i < m.nodes.len() ==> Completeness::fits(
            own_primitives(m, solid, live, last_node(m.nodes, (#[trigger] m.nodes[i]).id)->0),
        )
}

/// Can the counts be held, all of them?
pub open spec fn primitives_fit(
    m: ScryModelView,
    solid: Set<Seq<char>>,
    live: Set<Seq<char>>,
) -> bool {
    &&& own_primitives_fit(m, solid, live)
    &&& all_fit::<Completeness>(all_primitives(m, solid, live))
}

/// Do the counts hang together: is what is anchored, and what is on leaves, among
/// what is authored?
pub open spec fn proportionate(c: CompletenessView) -> bool {
    c.anchored <= c.total && c.leaf_total <= c.total
}

proof fn lemma_primitives(m: ScryModelView, solid: Set<Seq<char>>, live: Set<Seq<char>>)
    ensures
        forall|i: int|
            0 <= i < m.nodes.len() ==> all_primitives(m, solid, live).contains_key(
                (#[trigger] m.nodes[i]).id,
            ) && proportionate(all_primitives(m, solid, live)[m.nodes[i].id]),
{
    let ns = m.nodes;
    let bs = start_primitives(m, solid, live);
    let p = |c: CompletenessView| proportionate(c);
    assert(additive::<Completeness>(p));
    assert forall|i: int| 0 <= i < ns.len() implies p(bs[(#[trigger] ns[i]).id]) by {
        assert(has_node(ns, ns[i].id));
        lemma_live_claims(last_node(ns, ns[i].id)->0.responsibilities, live);
    }
    let all = all_primitives(m, solid, live);
    assert forall|i: int| 0 <= i < ns.len() implies all.contains_key((#[trigger] ns[i]).id)
        && proportionate(all[ns[i].id]) by {
        assert(has_node(ns, ns[i].id));
        law_every_figure_has::<Completeness>(ns, bs, ns[i].id, p);
        assert(p(all[ns[i].id]));
    }
}

/// The completeness of every node of an authored model, by id, over what was
/// resolved against real code.
pub fn compute_completeness(model: &ScryModel, facts: &AnchorFacts) -> (r: StrMap<Completeness>)
    requires
        primitives_fit(
            model.deep_view(),
            facts.real_boxes.deep_view(),
            facts.live_anchors.deep_view(),
        ),
    ensures
        r.deep_view() == completeness_of(
            model.deep_view(),
            facts.real_boxes.deep_view(),
            facts.live_anchors.deep_view(),
        ),
{
    let ghost m = model.deep_view();
    let ghost solid = facts.real_boxes.deep_view();
    let ghost live = facts.live_anchors.deep_view();
    let ghost ns = m.nodes;
    let ghost g = |id: Seq<char>| own_primitives(m, solid, live, last_node(ns, id)->0);
    let mut base: StrMap<Completeness> = StrMap::new();
    let mut i: usize = 0;
    proof {
        lemma_keyed_ends(ns, g);
    }
    while i < model.nodes.len()
        invariant
            i <= model.nodes@.len(),
            m == model.deep_view(),
            ns == m.nodes,
            solid == facts.real_boxes.deep_view(),
            live == facts.live_anchors.deep_view(),
            own_primitives_fit(m, solid, live),
            g == |id: Seq<char>| own_primitives(m, solid, live, last_node(ns, id)->0),
            base.deep_view() == keyed(ns.take(i as int), g),
        decreases model.nodes@.len() - i,
    {
        let n = at(&model.nodes, i);
        proof {
            lemma_keyed(ns, i as int, g);
            lemma_lookups(ns, n.id@);
            assert(has_node(ns, ns[i as int].id));
            assert(Completeness::fits(g(ns[i as int].id)));
        }
        match find_last_node(&model.nodes, n.id.as_str()) {
            Some(k) => {
                base.insert(n.id.clone(), count_primitives(model, facts, at(&model.nodes, k)));
            },
            None => {},
        }
        i += 1;
    }
    let done = figures_of(model, &base);
    let ghost r2 = all_primitives(m, solid, live);
    let mut out: StrMap<Completeness> = StrMap::new();
    let ghost f = |id: Seq<char>| measured(r2[id]);
    i = 0;
    proof {
        lemma_primitives(m, solid, live);
        lemma_keyed_ends(ns, f);
    }
    while i < model.nodes.len()
        invariant
            i <= model.nodes@.len(),
            ns == model.nodes.deep_view(),
            done.deep_view() == r2,
            f == |id: Seq<char>| measured(r2[id]),
            forall|k: int|
                0 <= k < ns.len() ==> r2.contains_key((#[trigger] ns[k]).id) && proportionate(
                    r2[ns[k].id],
                ),
            out.deep_view() == keyed(ns.take(i as int), f),
        decreases model.nodes@.len() - i,
    {
        let n = at(&model.nodes, i);
        proof {
            lemma_keyed(ns, i as int, f);
            assert(r2.contains_key(ns[i as int].id));
        }
        match done.get(n.id.as_str()) {
            Some(d) => {
                let mut c = d.dup();
                if c.leaf_total == 0 {
                    c.pct = None;
                } else {
                    c.pct = Some(percent_of(c.anchored, c.total));
                }
                assert(c.deep_view() == f(n.id@));
                out.insert(n.id.clone(), c);
            },
            None => {},
        }
        i += 1;
    }
    out
}

// ---- against the real files -----------------------------------------------------------

/// Does the node own one of the files?
pub open spec fn owns_some(
    rows: Seq<(Seq<char>, Seq<char>)>,
    id: Seq<char>,
    files: Set<Seq<char>>,
) -> bool {
    exists|f: Seq<char>| #[trigger] files.contains(f) && owned(rows, id, f)
}

/// The nodes whose boundary owns at least one of the files.
pub open spec fn real_boxes_of(m: ScryModelView, files: Set<Seq<char>>) -> Set<Seq<char>> {
    Set::new(
        |id: Seq<char>|
            has_node(m.nodes, id) && boxed(m, id) && owns_some(
                boundary_rows(m.boundaries, node_ids(m.nodes)),
                id,
                files,
            ),
    )
}

/// Does every anchor name one of the files?
pub open spec fn all_in(locs: Seq<SourceLocationView>, files: Set<Seq<char>>) -> bool {
    forall|i: int| 0 <= i < locs.len() ==> files.contains((#[trigger] locs[i]).pattern)
}

/// The keys whose anchors all name files that exist and are not known to be dead.
pub open spec fn live_anchors_of(
    m: ScryModelView,
    files: Set<Seq<char>>,
    dead: Seq<Seq<char>>,
) -> Set<Seq<char>> {
    Set::new(
        |k: Seq<char>|
            m.source_map.contains_key(k) && m.source_map[k].len() > 0 && !dead.contains(k)
                && all_in(m.source_map[k], files),
    )
}

fn owns_any(ownership: &BoundaryOwnership, id: &str, files: &StrSet) -> (r: bool)
    requires
        rows_slashed(ownership.deep_view()),
        files_slashed(files.deep_view()),
    ensures
        r == owns_some(ownership.deep_view(), id@, files.deep_view()),
{
    let n: usize = files.len();
    let ghost fs = ascending(files.deep_view());
    let mut i: usize = 0;
    while i < n
        invariant
            i <= n == fs.len(),
            fs == ascending(files.deep_view()),
            fs.to_set() == files.deep_view(),
            rows_slashed(ownership.deep_view()),
            files_slashed(files.deep_view()),
            forall|j: int|
                0 <= j < i ==> !owned(ownership.deep_view(), id@, #[trigger] fs[j]),
        decreases n - i,
    {
        let f = files.item(i);
        assert(fs.to_set().contains(fs[i as int]));
        if ownership.owns(id, f.as_str()) {
            return true;
        }
        i += 1;
    }
    proof {
        assert forall|f: Seq<char>| #[trigger] files.deep_view().contains(f) implies !owned(
            ownership.deep_view(),
            id@,
            f,
        ) by {
            assert(fs.to_set().contains(f));
            let j = choose|j: int| 0 <= j < fs.len() && fs[j] == f;
            assert(!owned(ownership.deep_view(), id@, fs[j]));
        }
    }
    false
}

fn all_exist(locs: &Vec<SourceLocation>, files: &StrSet) -> (r: bool)
    ensures
        r == all_in(locs.deep_view(), files.deep_view()),
{
    let ghost ls = locs.deep_view();
    let mut i: usize = 0;
    while i < locs.len()
        invariant
            i <= locs@.len(),
            ls == locs.deep_view(),
            forall|j: int| 0 <= j < i ==> files.deep_view().contains((#[trigger] ls[j]).pattern),
        decreases locs@.len() - i,
    {
        let l = at(locs, i);
        assert(ls[i as int].pattern == l.pattern@);
        if !files.contains(l.pattern.as_str()) {
            return false;
        }
        i += 1;
    }
    true
}

fn real_boxes(model: &ScryModel, files: &StrSet) -> (r: StrSet)
    requires
        boundaries_slashed(model.deep_view().boundaries),
        files_slashed(files.deep_view()),
    ensures
        r.deep_view() == real_boxes_of(model.deep_view(), files.deep_view()),
{
    let ghost m = model.deep_view();
    let ghost ns = m.nodes;
    let ghost fv = files.deep_view();
    let ghost rows = boundary_rows(m.boundaries, node_ids(ns));
    let live = ids_of(&model.nodes);
    let ownership = BoundaryOwnership::from_boundaries(&model.boundaries, &live);
    let n: usize = model.boundaries.len();
    proof {
        lemma_boundary_rows_slashed(m.boundaries, node_ids(ns));
    }
    let mut out = StrSet::new();
    let mut i: usize = 0;
    while i < model.nodes.len()
        invariant
            i <= model.nodes@.len(),
            m == model.deep_view(),
            ns == m.nodes,
            fv == files.deep_view(),
            rows == boundary_rows(m.boundaries, node_ids(ns)),
            ownership.deep_view() == rows,
            rows_slashed(rows),
            files_slashed(fv),
            forall|id: Seq<char>| #[trigger]
                out.deep_view().contains(id) <==> has_node(ns.take(i as int), id) && boxed(m, id)
                    && owns_some(rows, id, fv),
        decreases model.nodes@.len() - i,
    {
        let nd = at(&model.nodes, i);
        let ghost had = out.deep_view();
        if is_boxed(model, nd.id.as_str()) && owns_any(&ownership, nd.id.as_str(), files) {
            out.insert(nd.id.clone());
        }
        proof {
            assert forall|id: Seq<char>| #[trigger] out.deep_view().contains(id) <==> has_node(
                ns.take(i + 1),
                id,
            ) && boxed(m, id) && owns_some(rows, id, fv) by {
                lemma_node_joins(ns, i as int, id);
                assert(had.contains(id) <==> has_node(ns.take(i as int), id) && boxed(m, id)
                    && owns_some(rows, id, fv));
            }
        }
        i += 1;
    }
    assert(ns.take(ns.len() as int) =~= ns);
    assert(out.deep_view() =~= real_boxes_of(m, fv));
    out
}

proof fn lemma_node_joins(ns: Seq<NodeView>, i: int, id: Seq<char>)
    requires
        0 <= i < ns.len(),
    ensures
        has_node(ns.take(i + 1), id) == (has_node(ns.take(i), id) || ns[i].id == id),
{
    let a = ns.take(i);
    let b = ns.take(i + 1);
    if has_node(a, id) {
        let k = choose|k: int| 0 <= k < a.len() && (#[trigger] a[k]).id == id;
        assert(b[k].id == id);
    }
    assert(b[i].id == ns[i].id);
    if has_node(b, id) && ns[i].id != id {
        let k = choose|k: int| 0 <= k < b.len() && (#[trigger] b[k]).id == id;
        assert(a[k].id == id);
    }
}

fn live_anchors(model: &ScryModel, files: &StrSet, dead: &Vec<String>) -> (r: StrSet)
    ensures
        r.deep_view() == live_anchors_of(model.deep_view(), files.deep_view(), dead.deep_view()),
{
    let ghost m = model.deep_view();
    let ghost sm = m.source_map;
    let ghost fv = files.deep_view();
    let ghost dv = dead.deep_view();
    let ghost want = live_anchors_of(m, fv, dv);
    let n: usize = model.source_map.len();
    let ghost ks = ascending(sm.dom());
    let mut out = StrSet::new();
    let mut i: usize = 0;
    while i < n
        invariant
            i <= n == ks.len(),
            m == model.deep_view(),
            sm == m.source_map,
            fv == files.deep_view(),
            dv == dead.deep_view(),
            want == live_anchors_of(m, fv, dv),
            ks == ascending(sm.dom()),
            ks.to_set() == sm.dom(),
            forall|k: Seq<char>| #[trigger]
                out.deep_view().contains(k) <==> ks.take(i as int).contains(k) && want.contains(k),
        decreases n - i,
    {
        let k = model.source_map.key_at(i);
        let locs = model.source_map.value_at(i);
        let ghost had = out.deep_view();
        if locs.len() > 0 && !holds(dead, k.as_str()) && all_exist(locs, files) {
            out.insert(k.clone());
        }
        proof {
            assert forall|x: Seq<char>| #[trigger] out.deep_view().contains(x) <==> ks.take(
                i + 1,
            ).contains(x) && want.contains(x) by {
                let a = ks.take(i as int);
                let b = ks.take(i + 1);
                assert(had.contains(x) <==> a.contains(x) && want.contains(x));
                if a.contains(x) {
                    let j = choose|j: int| 0 <= j < a.len() && a[j] == x;
                    assert(b[j] == x);
                }
                assert(b[i as int] == k@);
                if b.contains(x) && x != k@ {
                    let j = choose|j: int| 0 <= j < b.len() && b[j] == x;
                    assert(a[j] == x);
                }
            }
        }
        i += 1;
    }
    proof {
        assert(ks.take(n as int) =~= ks);
        assert forall|x: Seq<char>| want.contains(x) implies ks.contains(x) by {
            assert(ks.to_set().contains(x));
        }
        assert(out.deep_view() =~= want);
    }
    out
}

/// The completeness of every node of the authored model (the working view of the
/// committed model and the plan), resolved against the project's files. `dead` are
/// the keys of the source map whose code is known to be broken or missing. A
/// boundary counts only when it owns a real file; a claim only when each of its
/// anchors names a file that exists and it is not dead.
pub fn resolve_completeness(
    model: &ScryModel,
    planned: &ScryModel,
    files: &StrSet,
    dead_anchors: &Vec<String>,
) -> (r: StrMap<Completeness>)
    requires
        boundaries_slashed(working(model.deep_view(), planned.deep_view()).boundaries),
        files_slashed(files.deep_view()),
        ({
            let authored = working(model.deep_view(), planned.deep_view());
            primitives_fit(
                authored,
                real_boxes_of(authored, files.deep_view()),
                live_anchors_of(authored, files.deep_view(), dead_anchors.deep_view()),
            )
        }),
    ensures
        r.deep_view() == ({
            let authored = working(model.deep_view(), planned.deep_view());
            completeness_of(
                authored,
                real_boxes_of(authored, files.deep_view()),
                live_anchors_of(authored, files.deep_view(), dead_anchors.deep_view()),
            )
        }),
{
    let authored = working_view(model, planned);
    let boxes = real_boxes(&authored, files);
    let anchors = live_anchors(&authored, files, dead_anchors);
    compute_completeness(&authored, &AnchorFacts { real_boxes: &boxes, live_anchors: &anchors })
}

// ---- laws -----------------------------------------------------------------------------

/// A node's percentage is between 0 and 100 and off by one half at most; it is missing
/// exactly where the node has no leaf primitive beneath it.
pub proof fn law_percentages_are_percentages(
    m: ScryModelView,
    solid: Set<Seq<char>>,
    live: Set<Seq<char>>,
    id: Seq<char>,
)
    requires
        primitives_fit(m, solid, live),
        has_node(m.nodes, id),
    ensures
        ({
            let c = completeness_of(m, solid, live)[id];
            &&& c.anchored <= c.total
            &&& c.leaf_total <= c.total
            &&& c.pct is None <==> c.leaf_total == 0
            &&& c.pct is Some ==> c.pct->0 <= 100
            &&& c.pct is Some ==> 2 * (c.pct->0 * c.total) <= 200 * c.anchored + c.total
            &&& c.pct is Some ==> 200 * c.anchored <= 2 * (c.pct->0 * c.total) + c.total
        }),
{
    lemma_primitives(m, solid, live);
    let i = choose|i: int| 0 <= i < m.nodes.len() && (#[trigger] m.nodes[i]).id == id;
    let d = all_primitives(m, solid, live)[m.nodes[i].id];
    assert(proportionate(d));
    assert(all_primitives(m, solid, live).contains_key(m.nodes[i].id));
    if d.leaf_total > 0 {
        law_percentages_stay_within(d.anchored, d.total);
        law_a_percentage_is_nearest(d.anchored, d.total);
    }
}

/// With nothing anchored a measured node reads 0 percent; with everything anchored
/// it reads 100.
pub proof fn law_the_ends_of_the_scale(
    m: ScryModelView,
    solid: Set<Seq<char>>,
    live: Set<Seq<char>>,
    id: Seq<char>,
)
    requires
        primitives_fit(m, solid, live),
        has_node(m.nodes, id),
        completeness_of(m, solid, live)[id].leaf_total > 0,
    ensures
        ({
            let c = completeness_of(m, solid, live)[id];
            &&& c.anchored == 0 ==> c.pct == Some(0u32)
            &&& c.anchored == c.total ==> c.pct == Some(100u32)
        }),
{
    lemma_primitives(m, solid, live);
    let i = choose|i: int| 0 <= i < m.nodes.len() && (#[trigger] m.nodes[i]).id == id;
    let d = all_primitives(m, solid, live)[m.nodes[i].id];
    assert(proportionate(d));
    assert(all_primitives(m, solid, live).contains_key(m.nodes[i].id));
    law_percentages_stay_within(d.anchored, d.total);
}

/// An anchor into a file that does not exist is dead, whatever layer it was written
/// in and whatever else is known of it.
pub proof fn law_anchors_into_missing_files_are_dead(
    m: ScryModelView,
    files: Set<Seq<char>>,
    dead: Seq<Seq<char>>,
    key: Seq<char>,
    i: int,
)
    requires
        m.source_map.contains_key(key),
        0 <= i < m.source_map[key].len(),
        !files.contains(m.source_map[key][i].pattern),
    ensures
        !live_anchors_of(m, files, dead).contains(key),
{
}

/// How many primitives the nodes can have at most: each its claims, a boundary and a data
/// shape.
pub open spec fn primitives_size(ns: Seq<NodeView>) -> nat
    decreases ns.len(),
{
    if ns.len() == 0 {
        0
    } else {
        primitives_size(ns.drop_last()) + ns.last().responsibilities.len() + 2
    }
}

spec fn weights(ns: Seq<NodeView>) -> spec_fn(Seq<char>) -> nat {
    |x: Seq<char>| last_node(ns, x)->0.responsibilities.len() + 2
}

/// Nodes that are counted once have no more primitives than all of them.
proof fn lemma_weights_within(ns: Seq<NodeView>, ids: Seq<Seq<char>>)
    requires
        ids.no_duplicates(),
        forall|k: int| 0 <= k < ids.len() ==> has_node(ns, #[trigger] ids[k]),
    ensures
        sum(ids, weights(ns)) <= primitives_size(ns),
    decreases ns.len(),
{
    if ns.len() == 0 {
        if ids.len() > 0 {
            assert(has_node(ns, ids[0]));
        }
    } else {
        let d = ns.drop_last();
        let l = ns.last();
        let rest = without_one(ids, l.id);
        lemma_without_one(ids, l.id, weights(ns));
        assert forall|k: int| 0 <= k < rest.len() implies has_node(d, #[trigger] rest[k]) by {
            assert(ids.contains(rest[k]) && rest[k] != l.id);
            let q = choose|q: int| 0 <= q < ids.len() && ids[q] == rest[k];
            assert(has_node(ns, ids[q]));
            let j = choose|j: int| 0 <= j < ns.len() && (#[trigger] ns[j]).id == rest[k];
            assert(d[j].id == rest[k]);
        }
        lemma_weights_within(d, rest);
        assert forall|k: int| 0 <= k < rest.len() implies weights(ns)(#[trigger] rest[k]) == weights(
            d,
        )(rest[k]) by {
            assert(rest[k] != l.id);
        }
        lemma_sum_same_on(rest, weights(ns), weights(d));
    }
}

proof fn lemma_one_node_primitives(ns: Seq<NodeView>, id: Seq<char>)
    ensures
        last_node(ns, id) is Some ==> last_node(ns, id)->0.responsibilities.len() + 2
            <= primitives_size(ns),
    decreases ns.len(),
{
    if ns.len() > 0 {
        lemma_one_node_primitives(ns.drop_last(), id);
    }
}

/// Where there are not more primitives than can be counted, all the counts can be held,
/// whatever loops the parents close and whatever ids are used twice.
pub proof fn law_few_primitives_fit(m: ScryModelView, solid: Set<Seq<char>>, live: Set<Seq<char>>)
    requires
        primitives_size(m.nodes) <= u32::MAX,
    ensures
        primitives_fit(m, solid, live),
{
    let ns = m.nodes;
    let bs = start_primitives(m, solid, live);
    let c = weights(ns);
    let rel = |v: CompletenessView, n: nat| v.anchored <= n && v.total <= n && v.leaf_total <= n;
    assert forall|i: int| 0 <= i < ns.len() implies Completeness::fits(
        own_primitives(m, solid, live, last_node(ns, (#[trigger] ns[i]).id)->0),
    ) && rel(bs[ns[i].id], c(ns[i].id)) by {
        assert(has_node(ns, ns[i].id));
        lemma_lookups(ns, ns[i].id);
        lemma_one_node_primitives(ns, ns[i].id);
        lemma_live_claims(last_node(ns, ns[i].id)->0.responsibilities, live);
    }
    assert(rated(ns, bs, rel, c));
    assert(adds_up::<Completeness>(rel));
    let all = all_primitives(m, solid, live);
    assert forall|x: Seq<char>| #[trigger] all.contains_key(x) implies Completeness::fits(
        all[x],
    ) by {
        law_every_node_counts_once::<Completeness>(ns, bs, x, rel, c);
        lemma_weights_within(ns, subtree(ns, x));
        assert(rel(all[x], sum(subtree(ns, x), c)));
    }
}

} // verus!
