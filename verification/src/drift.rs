//! Drift: which parts of the model have code that changed since it was last
//! reconciled.
//!
//! A changed file never means that the model drifted, only that a scope wants another
//! look. Whether the code still does what the claims say is for whoever looks.

use crate::completeness::{boxed, is_boxed};
use crate::health::files_slashed;
use crate::locate::{anchors_slashed, covers, pattern_covers};
use crate::model::{
    has_node, lemma_unseen_shrinks, unseen, Node, NodeView, ScryModel, ScryModelView,
    SourceLocation, SourceLocationView,
};
use crate::modelled::{at, fresh, put, Modelled};
use crate::named::{law_sorting_by_name, ordered_by, sort_by_name, sorted_by, Named};
use crate::ownership::{
    boundaries_slashed, boundary_rows, lemma_boundary_rows_slashed, node_ids, owned, rows_slashed,
    slashed, BoundaryOwnership,
};
use crate::rollup::Tally;
use crate::strmap::StrMap;
use crate::strset::StrSet;
use crate::text::{
    ascending, chars_of, first_place, holds, same_text, split_once, trim, trimmed,
};
use vstd::prelude::*;
use vstd::string::*;

verus! {

/// What one node was last reconciled against, where it was dismissed on its own.
#[derive(Debug, PartialEq)]
pub struct NodeAnchor {
    /// Unix seconds.
    pub reconciled_at: u64,
    /// Unix nanoseconds.
    pub reconciled_at_ns: Option<u64>,
    pub commit: Option<String>,
    /// Files of the inventory that were gone already when the node was dismissed:
    /// deletions that the dismissal reconciled.
    pub missing: StrSet,
}

/// The model of a [`NodeAnchor`].
#[verifier::ext_equal]
pub struct NodeAnchorView {
    pub reconciled_at: u64,
    pub reconciled_at_ns: Option<u64>,
    pub commit: Option<Seq<char>>,
    pub missing: Set<Seq<char>>,
}

impl DeepView for NodeAnchor {
    type V = NodeAnchorView;

    open spec fn deep_view(&self) -> NodeAnchorView {
        NodeAnchorView {
            reconciled_at: self.reconciled_at.deep_view(),
            reconciled_at_ns: self.reconciled_at_ns.deep_view(),
            commit: self.commit.deep_view(),
            missing: self.missing.deep_view(),
        }
    }
}

impl Modelled for NodeAnchor {
    fn dup(&self) -> (r: Self) {
        NodeAnchor {
            reconciled_at: self.reconciled_at.dup(),
            reconciled_at_ns: self.reconciled_at_ns.dup(),
            commit: self.commit.dup(),
            missing: self.missing.dup(),
        }
    }

    fn same(&self, other: &Self) -> (r: bool) {
        self.reconciled_at.same(&other.reconciled_at)
            && self.reconciled_at_ns.same(&other.reconciled_at_ns)
            && self.commit.same(&other.commit)
            && self.missing.same(&other.missing)
    }
}

impl Clone for NodeAnchor {
    fn clone(&self) -> (r: Self)
        ensures
            r.deep_view() == self.deep_view(),
    {
        self.dup()
    }
}

/// What the model was last reconciled against.
#[derive(Debug, PartialEq)]
pub struct SyncState {
    /// Unix seconds of the last reconcile.
    pub reconciled_at: u64,
    /// Unix nanoseconds of it. Without them an edit in the second of the reconcile goes
    /// unseen.
    pub reconciled_at_ns: Option<u64>,
    /// The commit that the project was at, where it is a repository.
    pub commit: Option<String>,
    /// The product-code files that were there: one that is gone now has changed.
    pub files: StrSet,
    /// The nodes that were dismissed on their own, each with its own anchor.
    pub nodes: StrMap<NodeAnchor>,
}

/// The model of a [`SyncState`].
#[verifier::ext_equal]
pub struct SyncStateView {
    pub reconciled_at: u64,
    pub reconciled_at_ns: Option<u64>,
    pub commit: Option<Seq<char>>,
    pub files: Set<Seq<char>>,
    pub nodes: Map<Seq<char>, NodeAnchorView>,
}

impl DeepView for SyncState {
    type V = SyncStateView;

    open spec fn deep_view(&self) -> SyncStateView {
        SyncStateView {
            reconciled_at: self.reconciled_at.deep_view(),
            reconciled_at_ns: self.reconciled_at_ns.deep_view(),
            commit: self.commit.deep_view(),
            files: self.files.deep_view(),
            nodes: self.nodes.deep_view(),
        }
    }
}

impl Modelled for SyncState {
    fn dup(&self) -> (r: Self) {
        SyncState {
            reconciled_at: self.reconciled_at.dup(),
            reconciled_at_ns: self.reconciled_at_ns.dup(),
            commit: self.commit.dup(),
            files: self.files.dup(),
            nodes: self.nodes.dup(),
        }
    }

    fn same(&self, other: &Self) -> (r: bool) {
        self.reconciled_at.same(&other.reconciled_at)
            && self.reconciled_at_ns.same(&other.reconciled_at_ns)
            && self.commit.same(&other.commit)
            && self.files.same(&other.files)
            && self.nodes.same(&other.nodes)
    }
}

impl Clone for SyncState {
    fn clone(&self) -> (r: Self)
        ensures
            r.deep_view() == self.deep_view(),
    {
        self.dup()
    }
}

/// A boundary-owning node whose code changed since the last reconcile.
#[derive(Debug, PartialEq)]
pub struct DriftScope {
    pub node_id: String,
    pub node_name: String,
    /// The changed files that the node owns.
    pub changed_files: Vec<String>,
}

/// The model of a [`DriftScope`].
#[verifier::ext_equal]
pub struct DriftScopeView {
    pub node_id: Seq<char>,
    pub node_name: Seq<char>,
    pub changed_files: Seq<Seq<char>>,
}

impl DeepView for DriftScope {
    type V = DriftScopeView;

    open spec fn deep_view(&self) -> DriftScopeView {
        DriftScopeView {
            node_id: self.node_id.deep_view(),
            node_name: self.node_name.deep_view(),
            changed_files: self.changed_files.deep_view(),
        }
    }
}

impl Modelled for DriftScope {
    fn dup(&self) -> (r: Self) {
        DriftScope {
            node_id: self.node_id.dup(),
            node_name: self.node_name.dup(),
            changed_files: self.changed_files.dup(),
        }
    }

    fn same(&self, other: &Self) -> (r: bool) {
        self.node_id.same(&other.node_id)
            && self.node_name.same(&other.node_name)
            && self.changed_files.same(&other.changed_files)
    }
}

impl Clone for DriftScope {
    fn clone(&self) -> (r: Self)
        ensures
            r.deep_view() == self.deep_view(),
    {
        self.dup()
    }
}

/// A file of the project and when it was last modified.
#[derive(Debug, PartialEq)]
pub struct FileStamp {
    /// Relative to the project, written with `/`.
    pub path: String,
    /// Unix seconds.
    pub secs: u64,
    /// Unix nanoseconds.
    pub ns: u64,
}

/// The model of a [`FileStamp`].
#[verifier::ext_equal]
pub struct FileStampView {
    pub path: Seq<char>,
    pub secs: u64,
    pub ns: u64,
}

impl DeepView for FileStamp {
    type V = FileStampView;

    open spec fn deep_view(&self) -> FileStampView {
        FileStampView {
            path: self.path.deep_view(),
            secs: self.secs.deep_view(),
            ns: self.ns.deep_view(),
        }
    }
}

impl Modelled for FileStamp {
    fn dup(&self) -> (r: Self) {
        FileStamp {
            path: self.path.dup(),
            secs: self.secs.dup(),
            ns: self.ns.dup(),
        }
    }

    fn same(&self, other: &Self) -> (r: bool) {
        self.path.same(&other.path)
            && self.secs.same(&other.secs)
            && self.ns.same(&other.ns)
    }
}

impl Clone for FileStamp {
    fn clone(&self) -> (r: Self)
        ensures
            r.deep_view() == self.deep_view(),
    {
        self.dup()
    }
}

/// What was seen of the project.
#[derive(Debug, PartialEq)]
pub struct Worktree {
    /// Its files.
    pub stamps: Vec<FileStamp>,
    /// Those files of the inventory that do not exist any more.
    pub gone: StrSet,
    /// By commit, the files whose content differs from it and those it does not track.
    /// No entry for a commit that there is no telling of.
    pub content_changed: StrMap<StrSet>,
    /// The paths that are product code.
    pub product: StrSet,
}

/// The model of a [`Worktree`].
#[verifier::ext_equal]
pub struct WorktreeView {
    pub stamps: Seq<FileStampView>,
    pub gone: Set<Seq<char>>,
    pub content_changed: Map<Seq<char>, Set<Seq<char>>>,
    pub product: Set<Seq<char>>,
}

impl DeepView for Worktree {
    type V = WorktreeView;

    open spec fn deep_view(&self) -> WorktreeView {
        WorktreeView {
            stamps: self.stamps.deep_view(),
            gone: self.gone.deep_view(),
            content_changed: self.content_changed.deep_view(),
            product: self.product.deep_view(),
        }
    }
}

impl Modelled for Worktree {
    fn dup(&self) -> (r: Self) {
        Worktree {
            stamps: self.stamps.dup(),
            gone: self.gone.dup(),
            content_changed: self.content_changed.dup(),
            product: self.product.dup(),
        }
    }

    fn same(&self, other: &Self) -> (r: bool) {
        self.stamps.same(&other.stamps)
            && self.gone.same(&other.gone)
            && self.content_changed.same(&other.content_changed)
            && self.product.same(&other.product)
    }
}

impl Clone for Worktree {
    fn clone(&self) -> (r: Self)
        ensures
            r.deep_view() == self.deep_view(),
    {
        self.dup()
    }
}

impl Default for SyncState {
    fn default() -> (r: Self)
        ensures
            r.deep_view() == (SyncStateView {
                reconciled_at: 0,
                reconciled_at_ns: None,
                commit: None,
                files: Set::empty(),
                nodes: Map::empty(),
            }),
    {
        SyncState {
            reconciled_at: 0,
            reconciled_at_ns: None,
            commit: None,
            files: StrSet::new(),
            nodes: StrMap::new(),
        }
    }
}

impl SyncState {
    /// An anchor at the given instant (in seconds, and in nanoseconds) against the
    /// given commit. The inventory is left empty.
    pub fn anchored_now(secs: u64, ns: u64, commit: Option<String>) -> (r: Self)
        ensures
            r.deep_view() == (SyncStateView {
                reconciled_at: secs,
                reconciled_at_ns: Some(ns),
                commit: commit.deep_view(),
                files: Set::empty(),
                nodes: Map::empty(),
            }),
    {
        SyncState {
            reconciled_at: secs,
            reconciled_at_ns: Some(ns),
            commit,
            files: StrSet::new(),
            nodes: StrMap::new(),
        }
    }
}

impl NodeAnchor {
    /// An anchor of one node at the given instant. `missing` are the deletions that
    /// are dismissed.
    pub fn now(secs: u64, ns: u64, commit: Option<String>, missing: StrSet) -> (r: Self)
        ensures
            r.deep_view() == (NodeAnchorView {
                reconciled_at: secs,
                reconciled_at_ns: Some(ns),
                commit: commit.deep_view(),
                missing: missing.deep_view(),
            }),
    {
        NodeAnchor { reconciled_at: secs, reconciled_at_ns: Some(ns), commit, missing }
    }
}

// ---- changed files ----------------------------------------------------------------

/// Was the file modified after the anchor? To the nanosecond where the anchor has
/// them, else to the second.
pub open spec fn newer(f: FileStampView, secs: u64, ns: Option<u64>) -> bool {
    match ns {
        Some(n) => f.ns > n,
        None => f.secs > secs,
    }
}

/// The files that were modified after the anchor.
pub open spec fn touched_since(
    fs: Seq<FileStampView>,
    secs: u64,
    ns: Option<u64>,
) -> Set<Seq<char>>
    decreases fs.len(),
{
    if fs.len() == 0 {
        Set::empty()
    } else {
        let earlier = touched_since(fs.drop_last(), secs, ns);
        if newer(fs.last(), secs, ns) {
            earlier.insert(fs.last().path)
        } else {
            earlier
        }
    }
}

/// The files that changed since the anchor: those modified after it (of which a
/// commit, where there is telling, keeps only those whose content differs), and
/// those of the inventory that are gone.
pub open spec fn changed_since(t: WorktreeView, s: SyncStateView) -> Set<Seq<char>> {
    let touched = touched_since(t.stamps, s.reconciled_at, s.reconciled_at_ns);
    let kept = if s.commit is Some && t.content_changed.contains_key(s.commit->0) {
        touched.intersect(t.content_changed[s.commit->0])
    } else {
        touched
    };
    kept.union(s.files.intersect(t.gone))
}

/// The files that were modified after the anchor.
pub fn mtime_changed_files(
    stamps: &Vec<FileStamp>,
    baseline_secs: u64,
    baseline_ns: Option<u64>,
) -> (r: StrSet)
    ensures
        r.deep_view() == touched_since(stamps.deep_view(), baseline_secs, baseline_ns),
{
    let ghost v = stamps.deep_view();
    let mut out = StrSet::new();
    let mut i: usize = 0;
    assert(v.take(0) =~= Seq::<FileStampView>::empty());
    while i < stamps.len()
        invariant
            i <= stamps@.len(),
            v == stamps.deep_view(),
            out.deep_view() == touched_since(v.take(i as int), baseline_secs, baseline_ns),
        decreases stamps@.len() - i,
    {
        let f = at(stamps, i);
        assert(v.take(i + 1).drop_last() =~= v.take(i as int));
        let is_newer = match baseline_ns {
            Some(n) => f.ns > n,
            None => f.secs > baseline_secs,
        };
        if is_newer {
            out.insert(f.path.clone());
        }
        i += 1;
    }
    assert(v.take(v.len() as int) =~= v);
    out
}

/// The files that changed since the anchor.
///
/// The time of modification decides first: right after a reconcile nothing is newer
/// than the anchor, uncommitted edits or not. A commit only refines what is
/// newer. A deletion has no time to read and rides on the inventory instead.
pub fn changed_files_since(tree: &Worktree, sync: &SyncState) -> (r: StrSet)
    ensures
        r.deep_view() == changed_since(tree.deep_view(), sync.deep_view()),
{
    let mut touched = mtime_changed_files(&tree.stamps, sync.reconciled_at, sync.reconciled_at_ns);
    match &sync.commit {
        Some(c) => {
            match tree.content_changed.get(c.as_str()) {
                Some(changed) => {
                    touched = touched.shared(changed);
                },
                None => {},
            }
        },
        None => {},
    }
    let lost = sync.files.shared(&tree.gone);
    touched.merge(&lost);
    touched
}

/// The product-code files that are there now: the inventory of a reconcile.
pub open spec fn inventory(t: WorktreeView) -> Set<Seq<char>> {
    Set::new(
        |f: Seq<char>|
            t.product.contains(f) && exists|i: int|
                0 <= i < t.stamps.len() && (#[trigger] t.stamps[i]).path == f,
    )
}

/// The product-code files that are there now: the inventory of a reconcile, by which a
/// later check sees deletions.
pub fn product_file_inventory(tree: &Worktree) -> (r: StrSet)
    ensures
        r.deep_view() == inventory(tree.deep_view()),
{
    let ghost t = tree.deep_view();
    let mut out = StrSet::new();
    let mut i: usize = 0;
    while i < tree.stamps.len()
        invariant
            i <= tree.stamps@.len(),
            t == tree.deep_view(),
            forall|f: Seq<char>| #[trigger]
                out.deep_view().contains(f) <==> t.product.contains(f) && exists|k: int|
                    0 <= k < i && (#[trigger] t.stamps[k]).path == f,
        decreases tree.stamps@.len() - i,
    {
        let s = at(&tree.stamps, i);
        let ghost had = out.deep_view();
        assert(t.stamps[i as int].path == s.path@);
        if tree.product.contains(s.path.as_str()) {
            out.insert(s.path.clone());
        }
        proof {
            assert forall|f: Seq<char>| #[trigger] out.deep_view().contains(f) <==> t.product.contains(
                f,
            ) && exists|k: int| 0 <= k < i + 1 && (#[trigger] t.stamps[k]).path == f by {
                assert(had.contains(f) <==> t.product.contains(f) && exists|k: int|
                    0 <= k < i && (#[trigger] t.stamps[k]).path == f);
                if t.product.contains(f) && exists|k: int|
                    0 <= k < i + 1 && (#[trigger] t.stamps[k]).path == f {
                    let k = choose|k: int| 0 <= k < i + 1 && (#[trigger] t.stamps[k]).path == f;
                    if k < i {
                        assert(had.contains(f));
                    }
                }
            }
        }
        i += 1;
    }
    assert(out.deep_view() =~= inventory(t));
    out
}

// ---- scopes -----------------------------------------------------------------------

/// The anchor that a node is measured against: its own where it was dismissed on its
/// own, with the inventory less the deletions that the dismissal reconciled.
pub open spec fn anchor_for(s: SyncStateView, id: Seq<char>) -> SyncStateView {
    if s.nodes.contains_key(id) {
        let a = s.nodes[id];
        SyncStateView {
            reconciled_at: a.reconciled_at,
            reconciled_at_ns: a.reconciled_at_ns,
            commit: a.commit,
            files: s.files.difference(a.missing),
            nodes: Map::empty(),
        }
    } else {
        s
    }
}

/// Does one of the anchors cover the file?
pub open spec fn some_covers(locs: Seq<SourceLocationView>, file: Seq<char>) -> bool {
    exists|i: int| 0 <= i < locs.len() && covers((#[trigger] locs[i]).pattern, file)
}

/// Does the model anchor the file?
pub open spec fn anchored_file(
    map: Map<Seq<char>, Seq<SourceLocationView>>,
    file: Seq<char>,
) -> bool {
    exists|k: Seq<char>| #[trigger] map.contains_key(k) && some_covers(map[k], file)
}

/// Does a change of the file call for a check? It does for product code, and for
/// whatever the model anchors a claim to.
pub open spec fn relevant(m: ScryModelView, product: Set<Seq<char>>, file: Seq<char>) -> bool {
    product.contains(file) || anchored_file(m.source_map, file)
}

/// Those of the files that call for a check and that the node owns.
pub open spec fn drifting(
    m: ScryModelView,
    product: Set<Seq<char>>,
    id: Seq<char>,
    fs: Seq<Seq<char>>,
) -> Seq<Seq<char>>
    decreases fs.len(),
{
    if fs.len() == 0 {
        Seq::empty()
    } else {
        let earlier = drifting(m, product, id, fs.drop_last());
        if relevant(m, product, fs.last()) && owned(
            boundary_rows(m.boundaries, node_ids(m.nodes)),
            id,
            fs.last(),
        ) {
            earlier.push(fs.last())
        } else {
            earlier
        }
    }
}

/// The changed files that call for a check of the node.
pub open spec fn drift_of(
    m: ScryModelView,
    t: WorktreeView,
    s: SyncStateView,
    id: Seq<char>,
) -> Seq<Seq<char>> {
    drifting(m, t.product, id, ascending(changed_since(t, anchor_for(s, id))))
}

/// The scopes of the nodes, in their order: one for each that has a boundary and
/// changed files that call for a check.
pub open spec fn scopes_of(
    m: ScryModelView,
    ns: Seq<NodeView>,
    t: WorktreeView,
    s: SyncStateView,
) -> Seq<DriftScopeView>
    decreases ns.len(),
{
    if ns.len() == 0 {
        Seq::empty()
    } else {
        let earlier = scopes_of(m, ns.drop_last(), t, s);
        let n = ns.last();
        let files = drift_of(m, t, s, n.id);
        if boxed(m, n.id) && files.len() > 0 {
            earlier.push(
                DriftScopeView { node_id: n.id, node_name: n.name, changed_files: files },
            )
        } else {
            earlier
        }
    }
}

impl Named for DriftScope {
    open spec fn name_of(v: DriftScopeView) -> Seq<char> {
        v.node_id
    }

    fn found_by(&self) -> (r: &String) {
        &self.node_id
    }
}

/// The scopes that need a check, by node id.
pub open spec fn drifted(
    m: ScryModelView,
    t: WorktreeView,
    s: SyncStateView,
) -> Seq<DriftScopeView> {
    sorted_by::<DriftScope>(scopes_of(m, m.nodes, t, s))
}

/// Are the paths that were seen written with `/` alone?
pub open spec fn tree_slashed(t: WorktreeView) -> bool {
    forall|i: int| 0 <= i < t.stamps.len() ==> slashed((#[trigger] t.stamps[i]).path)
}

proof fn lemma_touched_slashed(fs: Seq<FileStampView>, secs: u64, ns: Option<u64>)
    requires
        forall|i: int| 0 <= i < fs.len() ==> slashed((#[trigger] fs[i]).path),
    ensures
        files_slashed(touched_since(fs, secs, ns)),
    decreases fs.len(),
{
    if fs.len() > 0 {
        let d = fs.drop_last();
        assert forall|i: int| 0 <= i < d.len() implies slashed((#[trigger] d[i]).path) by {
            assert(d[i] == fs[i]);
        }
        lemma_touched_slashed(d, secs, ns);
        assert(slashed(fs[fs.len() - 1].path));
    }
}

proof fn lemma_changed_slashed(t: WorktreeView, s: SyncStateView, id: Seq<char>)
    requires
        tree_slashed(t),
        files_slashed(s.files),
    ensures
        files_slashed(changed_since(t, anchor_for(s, id))),
{
    let a = anchor_for(s, id);
    lemma_touched_slashed(t.stamps, a.reconciled_at, a.reconciled_at_ns);
    assert forall|f: Seq<char>| #[trigger] changed_since(t, a).contains(f) implies slashed(f) by {
        assert(touched_since(t.stamps, a.reconciled_at, a.reconciled_at_ns).contains(f)
            || s.files.contains(f));
    }
}

fn some_cover(locs: &Vec<SourceLocation>, file: &str) -> (r: bool)
    requires
        forall|i: int|
            0 <= i < locs@.len() ==> slashed((#[trigger] locs.deep_view()[i]).pattern),
        slashed(file@),
    ensures
        r == some_covers(locs.deep_view(), file@),
{
    let ghost ls = locs.deep_view();
    let mut i: usize = 0;
    while i < locs.len()
        invariant
            i <= locs@.len(),
            ls == locs.deep_view(),
            forall|j: int| 0 <= j < ls.len() ==> slashed((#[trigger] ls[j]).pattern),
            slashed(file@),
            forall|j: int| 0 <= j < i ==> !covers((#[trigger] ls[j]).pattern, file@),
        decreases locs@.len() - i,
    {
        let l = at(locs, i);
        assert(ls[i as int] == l.deep_view());
        assert(slashed(ls[i as int].pattern));
        if pattern_covers(l.pattern.as_str(), file) {
            return true;
        }
        i += 1;
    }
    false
}

fn is_anchored(map: &StrMap<Vec<SourceLocation>>, file: &str) -> (r: bool)
    requires
        anchors_slashed(map.deep_view()),
        slashed(file@),
    ensures
        r == anchored_file(map.deep_view(), file@),
{
    let ghost mv = map.deep_view();
    let n: usize = map.len();
    let ghost ks = ascending(mv.dom());
    let mut i: usize = 0;
    while i < n
        invariant
            i <= n == ks.len(),
            mv == map.deep_view(),
            ks == ascending(mv.dom()),
            ks.to_set() == mv.dom(),
            anchors_slashed(mv),
            slashed(file@),
            forall|j: int| 0 <= j < i ==> !some_covers(mv[#[trigger] ks[j]], file@),
        decreases n - i,
    {
        let k = map.key_at(i);
        let locs = map.value_at(i);
        proof {
            assert forall|q: int| 0 <= q < locs@.len() implies slashed(
                (#[trigger] locs.deep_view()[q]).pattern,
            ) by {
                assert(slashed(mv[k@][q].pattern));
            }
        }
        if some_cover(locs, file) {
            assert(mv.contains_key(k@));
            return true;
        }
        i += 1;
    }
    proof {
        assert forall|k: Seq<char>| #[trigger] mv.contains_key(k) implies !some_covers(
            mv[k],
            file@,
        ) by {
            assert(ks.to_set().contains(k));
            let j = choose|j: int| 0 <= j < ks.len() && ks[j] == k;
            assert(!some_covers(mv[ks[j]], file@));
        }
    }
    false
}

fn drifting_files(
    model: &ScryModel,
    ownership: &BoundaryOwnership,
    product: &StrSet,
    id: &str,
    changed: &StrSet,
) -> (r: Vec<String>)
    requires
        ownership.deep_view() == boundary_rows(
            model.deep_view().boundaries,
            node_ids(model.deep_view().nodes),
        ),
        rows_slashed(ownership.deep_view()),
        anchors_slashed(model.deep_view().source_map),
        files_slashed(changed.deep_view()),
    ensures
        r.deep_view() == drifting(
            model.deep_view(),
            product.deep_view(),
            id@,
            ascending(changed.deep_view()),
        ),
{
    let ghost m = model.deep_view();
    let ghost pv = product.deep_view();
    let n: usize = changed.len();
    let ghost fs = ascending(changed.deep_view());
    let mut out: Vec<String> = fresh();
    let mut i: usize = 0;
    assert(fs.take(0) =~= Seq::<Seq<char>>::empty());
    while i < n
        invariant
            i <= n == fs.len(),
            m == model.deep_view(),
            pv == product.deep_view(),
            fs == ascending(changed.deep_view()),
            fs.to_set() == changed.deep_view(),
            ownership.deep_view() == boundary_rows(m.boundaries, node_ids(m.nodes)),
            rows_slashed(ownership.deep_view()),
            anchors_slashed(m.source_map),
            files_slashed(changed.deep_view()),
            out.deep_view() == drifting(m, pv, id@, fs.take(i as int)),
        decreases n - i,
    {
        let f = changed.item(i);
        proof {
            assert(fs.to_set().contains(fs[i as int]));
            assert(fs.take(i + 1).drop_last() =~= fs.take(i as int));
        }
        if (product.contains(f.as_str()) || is_anchored(&model.source_map, f.as_str()))
            && ownership.owns(id, f.as_str()) {
            put(&mut out, f.clone());
        }
        i += 1;
    }
    assert(fs.take(n as int) =~= fs);
    out
}

fn anchor_of(sync: &SyncState, id: &str) -> (r: SyncState)
    ensures
        r.deep_view() == anchor_for(sync.deep_view(), id@),
{
    match sync.nodes.get(id) {
        Some(a) => SyncState {
            reconciled_at: a.reconciled_at,
            reconciled_at_ns: a.reconciled_at_ns,
            commit: a.commit.dup(),
            files: sync.files.minus(&a.missing),
            nodes: StrMap::new(),
        },
        None => sync.dup(),
    }
}

/// The boundary-owning nodes whose code changed since they were last reconciled, by
/// node id, each with the changed files to look at. A changed file counts for the
/// node whose boundary owns it, and only where it is product code or the model
/// anchors a claim to it: assets, lock files and generated churn call for no check.
pub fn drifted_scopes(model: &ScryModel, tree: &Worktree, sync: &SyncState) -> (r: Vec<DriftScope>)
    requires
        boundaries_slashed(model.deep_view().boundaries),
        anchors_slashed(model.deep_view().source_map),
        tree_slashed(tree.deep_view()),
        files_slashed(sync.deep_view().files),
    ensures
        r.deep_view() == drifted(model.deep_view(), tree.deep_view(), sync.deep_view()),
{
    let ghost m = model.deep_view();
    let ghost t = tree.deep_view();
    let ghost s = sync.deep_view();
    let ghost ns = m.nodes;
    let ownership = BoundaryOwnership::new(model);
    let _n: usize = model.boundaries.len();
    proof {
        lemma_boundary_rows_slashed(m.boundaries, node_ids(ns));
    }
    let mut scopes: Vec<DriftScope> = fresh();
    let mut i: usize = 0;
    assert(ns.take(0) =~= Seq::<NodeView>::empty());
    while i < model.nodes.len()
        invariant
            i <= model.nodes@.len(),
            m == model.deep_view(),
            t == tree.deep_view(),
            s == sync.deep_view(),
            ns == m.nodes,
            ownership.deep_view() == boundary_rows(m.boundaries, node_ids(ns)),
            rows_slashed(ownership.deep_view()),
            anchors_slashed(m.source_map),
            tree_slashed(t),
            files_slashed(s.files),
            scopes.deep_view() == scopes_of(m, ns.take(i as int), t, s),
        decreases model.nodes@.len() - i,
    {
        let n = at(&model.nodes, i);
        assert(ns.take(i + 1).drop_last() =~= ns.take(i as int));
        assert(ns.take(i + 1).last() == n.deep_view());
        if is_boxed(model, n.id.as_str()) {
            let anchor = anchor_of(sync, n.id.as_str());
            let changed = changed_files_since(tree, &anchor);
            proof {
                lemma_changed_slashed(t, s, n.id@);
            }
            let files = drifting_files(
                model,
                &ownership,
                &tree.product,
                n.id.as_str(),
                &changed,
            );
            if files.len() > 0 {
                put(
                    &mut scopes,
                    DriftScope {
                        node_id: n.id.dup(),
                        node_name: n.name.dup(),
                        changed_files: files,
                    },
                );
            }
        }
        i += 1;
    }
    assert(ns.take(ns.len() as int) =~= ns);
    sort_by_name(&scopes)
}

// ---- laws -------------------------------------------------------------------------

proof fn lemma_nothing_touched(fs: Seq<FileStampView>, secs: u64, ns: Option<u64>)
    requires
        forall|i: int| 0 <= i < fs.len() ==> !newer(#[trigger] fs[i], secs, ns),
    ensures
        touched_since(fs, secs, ns) == Set::<Seq<char>>::empty(),
    decreases fs.len(),
{
    if fs.len() > 0 {
        let d = fs.drop_last();
        assert(!newer(fs[fs.len() - 1], secs, ns));
        assert forall|i: int| 0 <= i < d.len() implies !newer(#[trigger] d[i], secs, ns) by {
            assert(!newer(fs[i], secs, ns));
        }
        lemma_nothing_touched(d, secs, ns);
    }
}

/// Right after a reconcile nothing has changed, however the working tree differs
/// from the commit: where no file is newer than the anchor and none of the inventory
/// is gone, no file counts.
pub proof fn law_nothing_newer_nothing_changed(t: WorktreeView, s: SyncStateView)
    requires
        forall|i: int|
            0 <= i < t.stamps.len() ==> !newer(
                #[trigger] t.stamps[i],
                s.reconciled_at,
                s.reconciled_at_ns,
            ),
        s.files.disjoint(t.gone),
    ensures
        changed_since(t, s) == Set::<Seq<char>>::empty(),
{
    lemma_nothing_touched(t.stamps, s.reconciled_at, s.reconciled_at_ns);
    assert(changed_since(t, s) =~= Set::<Seq<char>>::empty());
}

/// A commit refines what changed and never expands it.
pub proof fn law_a_commit_only_refines(t: WorktreeView, s: SyncStateView)
    ensures
        changed_since(t, s).subset_of(changed_since(t, SyncStateView { commit: None, ..s })),
{
}

/// A file of the inventory that is gone has changed, whatever its time and whatever
/// the commit says.
pub proof fn law_deletions_count(t: WorktreeView, s: SyncStateView, f: Seq<char>)
    requires
        s.files.contains(f),
        t.gone.contains(f),
    ensures
        changed_since(t, s).contains(f),
{
}

/// Dismissing one node leaves every other node measured as it was.
pub proof fn law_a_dismissal_clears_one_node(
    m: ScryModelView,
    t: WorktreeView,
    s: SyncStateView,
    id: Seq<char>,
    a: NodeAnchorView,
    other: Seq<char>,
)
    requires
        other != id,
    ensures
        drift_of(m, t, SyncStateView { nodes: s.nodes.insert(id, a), ..s }, other) == drift_of(
            m,
            t,
            s,
            other,
        ),
{
    let s2 = SyncStateView { nodes: s.nodes.insert(id, a), ..s };
    let x = anchor_for(s, other);
    let y = anchor_for(s2, other);
    assert(changed_since(t, x) =~= changed_since(t, y));
}

/// A deletion that a dismissal reconciled does not count for that node any more,
/// unless a file of that name came back and was modified since.
pub proof fn law_a_dismissed_deletion_is_cleared(
    t: WorktreeView,
    s: SyncStateView,
    id: Seq<char>,
    f: Seq<char>,
)
    requires
        s.nodes.contains_key(id),
        s.nodes[id].missing.contains(f),
        !touched_since(
            t.stamps,
            s.nodes[id].reconciled_at,
            s.nodes[id].reconciled_at_ns,
        ).contains(f),
    ensures
        !changed_since(t, anchor_for(s, id)).contains(f),
{
}

proof fn lemma_drifting(
    m: ScryModelView,
    product: Set<Seq<char>>,
    id: Seq<char>,
    fs: Seq<Seq<char>>,
)
    ensures
        forall|i: int|
            0 <= i < drifting(m, product, id, fs).len() ==> relevant(
                m,
                product,
                #[trigger] drifting(m, product, id, fs)[i],
            ) && owned(
                boundary_rows(m.boundaries, node_ids(m.nodes)),
                id,
                drifting(m, product, id, fs)[i],
            ) && fs.contains(drifting(m, product, id, fs)[i]),
    decreases fs.len(),
{
    if fs.len() > 0 {
        let d = fs.drop_last();
        let earlier = drifting(m, product, id, d);
        let all = drifting(m, product, id, fs);
        lemma_drifting(m, product, id, d);
        assert forall|i: int| 0 <= i < all.len() implies relevant(m, product, #[trigger] all[i])
            && owned(boundary_rows(m.boundaries, node_ids(m.nodes)), id, all[i]) && fs.contains(
            all[i],
        ) by {
            if i < earlier.len() {
                assert(all[i] == earlier[i]);
                assert(d.contains(earlier[i]));
                let k = choose|k: int| 0 <= k < d.len() && d[k] == earlier[i];
                assert(fs[k] == all[i]);
            } else {
                assert(fs[fs.len() - 1] == all[i]);
            }
        }
    }
}

/// A file that calls for a check of a node is one that it owns, and is product code
/// or anchored by the model: churn in anything else never does.
pub proof fn law_only_relevant_files_drift(
    m: ScryModelView,
    t: WorktreeView,
    s: SyncStateView,
    id: Seq<char>,
    i: int,
)
    requires
        0 <= i < drift_of(m, t, s, id).len(),
    ensures
        relevant(m, t.product, drift_of(m, t, s, id)[i]),
        owned(boundary_rows(m.boundaries, node_ids(m.nodes)), id, drift_of(m, t, s, id)[i]),
{
    lemma_drifting(m, t.product, id, ascending(changed_since(t, anchor_for(s, id))));
}

/// The scopes come in the order of their ids.
pub proof fn law_scopes_are_sorted(m: ScryModelView, t: WorktreeView, s: SyncStateView)
    ensures
        ordered_by::<DriftScope>(drifted(m, t, s)),
        drifted(m, t, s).to_multiset() == scopes_of(m, m.nodes, t, s).to_multiset(),
{
    law_sorting_by_name::<DriftScope>(scopes_of(m, m.nodes, t, s));
}

// ---- subtrees -------------------------------------------------------------------

/// `found`, and the ids of the children of `cur` that are not yet in it.
pub open spec fn with_children(
    ns: Seq<NodeView>,
    cur: Seq<char>,
    found: Seq<Seq<char>>,
) -> Seq<Seq<char>>
    decreases ns.len(),
{
    if ns.len() == 0 {
        found
    } else {
        let before = with_children(ns.drop_last(), cur, found);
        let n = ns.last();
        if n.parent_id == Some(cur) && !before.contains(n.id) {
            before.push(n.id)
        } else {
            before
        }
    }
}

/// Is there a node `id` under `cur`?
pub open spec fn child(ns: Seq<NodeView>, cur: Seq<char>, id: Seq<char>) -> bool {
    exists|i: int|
        0 <= i < ns.len() && (#[trigger] ns[i]).parent_id == Some(cur) && ns[i].id == id
}

/// What looking for children adds: only ids of nodes, each once, and no more
/// than are left unseen.
pub proof fn lemma_with_children(
    all: Seq<NodeView>,
    ns: Seq<NodeView>,
    cur: Seq<char>,
    found: Seq<Seq<char>>,
)
    requires
        forall|i: int| 0 <= i < ns.len() ==> has_node(all, (#[trigger] ns[i]).id),
    ensures
        found.len() <= with_children(ns, cur, found).len(),
        with_children(ns, cur, found).take(found.len() as int) == found,
        unseen(all, with_children(ns, cur, found)) <= unseen(all, found),
        with_children(ns, cur, found).len() > found.len() ==> unseen(
            all,
            with_children(ns, cur, found),
        ) < unseen(all, found),
        found.no_duplicates() ==> with_children(ns, cur, found).no_duplicates(),
        forall|i: int|
            0 <= i < ns.len() && (#[trigger] ns[i]).parent_id == Some(cur) ==> with_children(
                ns,
                cur,
                found,
            ).contains(ns[i].id),
        forall|k: int|
            found.len() <= k < with_children(ns, cur, found).len() ==> child(
                ns,
                cur,
                #[trigger] with_children(ns, cur, found)[k],
            ),
    decreases ns.len(),
{
    if ns.len() == 0 {
        assert(found.take(found.len() as int) =~= found);
    } else {
        let d = ns.drop_last();
        let n = ns.last();
        assert forall|i: int| 0 <= i < d.len() implies has_node(all, (#[trigger] d[i]).id) by {
            assert(d[i] == ns[i]);
        }
        lemma_with_children(all, d, cur, found);
        let before = with_children(d, cur, found);
        let after = with_children(ns, cur, found);
        assert(has_node(all, ns[ns.len() - 1].id));
        if n.parent_id == Some(cur) && !before.contains(n.id) {
            lemma_unseen_shrinks(all, before, n.id);
            assert(after.take(found.len() as int) =~= before.take(found.len() as int));
            assert(after[before.len() as int] == n.id);
        }
        assert forall|i: int|
            0 <= i < ns.len() && (#[trigger] ns[i]).parent_id == Some(
                cur,
            ) implies after.contains(ns[i].id) by {
            if i < d.len() {
                assert(d[i].parent_id == Some(cur));
                let j = choose|j: int| 0 <= j < before.len() && before[j] == d[i].id;
                assert(after[j] == ns[i].id);
            }
        }
        assert forall|k: int| found.len() <= k < after.len() implies child(
            ns,
            cur,
            #[trigger] after[k],
        ) by {
            if k < before.len() {
                assert(child(d, cur, before[k]));
                let i = choose|i: int|
                    0 <= i < d.len() && (#[trigger] d[i]).parent_id == Some(cur) && d[i].id
                        == before[k];
                assert(ns[i].parent_id == Some(cur) && ns[i].id == after[k]);
            } else {
                assert(ns[ns.len() - 1].parent_id == Some(cur));
            }
        }
    }
}

/// Each node of a list is a node of the list.
pub proof fn lemma_all_named(ns: Seq<NodeView>)
    ensures
        forall|i: int| 0 <= i < ns.len() ==> has_node(ns, (#[trigger] ns[i]).id),
{
}

/// The ids reached from those in `found` by going down, breadth first; the
/// children of the first `i` have been looked at.
pub open spec fn reached(ns: Seq<NodeView>, found: Seq<Seq<char>>, i: nat) -> Seq<Seq<char>>
    decreases unseen(ns, found), found.len() - i,
{
    if i >= found.len() {
        found
    } else {
        let next = with_children(ns, found[i as int], found);
        proof {
            lemma_all_named(ns);
            lemma_with_children(ns, ns, found[i as int], found);
        }
        reached(ns, next, i + 1)
    }
}

/// The id and every id below it, breadth first.
pub open spec fn subtree(ns: Seq<NodeView>, id: Seq<char>) -> Seq<Seq<char>> {
    reached(ns, seq![id], 0)
}

fn add_children(ns: &Vec<Node>, cur: &str, found: &mut Vec<String>)
    ensures
        final(found).deep_view() == with_children(ns.deep_view(), cur@, old(found).deep_view()),
{
    let ghost nv = ns.deep_view();
    let ghost f0 = found.deep_view();
    let mut i: usize = 0;
    assert(nv.take(0) =~= Seq::<NodeView>::empty());
    while i < ns.len()
        invariant
            i <= ns@.len(),
            nv == ns.deep_view(),
            found.deep_view() == with_children(nv.take(i as int), cur@, f0),
        decreases ns@.len() - i,
    {
        let n = at(ns, i);
        assert(nv.take(i + 1).drop_last() =~= nv.take(i as int));
        let under = match &n.parent_id {
            Some(p) => same_text(p.as_str(), cur),
            None => false,
        };
        if under && !holds(found, n.id.as_str()) {
            put(found, n.id.clone());
        }
        i += 1;
    }
    assert(nv.take(nv.len() as int) =~= nv);
}

/// The id and every id below it, breadth first. A parent loop ends where it
/// closes.
pub fn subtree_ids(model: &ScryModel, node_id: &str) -> (r: Vec<String>)
    ensures
        r.deep_view() == subtree(model.deep_view().nodes, node_id@),
{
    let ghost ns = model.nodes.deep_view();
    let mut out: Vec<String> = fresh();
    put(&mut out, node_id.to_owned());
    assert(out.deep_view() =~= seq![node_id@]);
    let mut i: usize = 0;
    while i < out.len()
        invariant
            i <= out@.len(),
            ns == model.nodes.deep_view(),
            reached(ns, out.deep_view(), i as nat) == subtree(ns, node_id@),
        decreases unseen(ns, out.deep_view()), out@.len() - i,
    {
        let cur = at(&out, i).clone();
        proof {
            lemma_all_named(ns);
            lemma_with_children(ns, ns, cur@, out.deep_view());
        }
        add_children(&model.nodes, cur.as_str(), &mut out);
        i += 1;
    }
    out
}

/// Are the children of the first `i` ids all there?
pub open spec fn closed_upto(ns: Seq<NodeView>, found: Seq<Seq<char>>, i: nat) -> bool {
    forall|k: int, j: int|
        #![trigger found[k], ns[j]]
        0 <= k < i && k < found.len() && 0 <= j < ns.len() && ns[j].parent_id == Some(found[k])
            ==> found.contains(ns[j].id)
}

/// Is the id a child of one of the first `k` ids?
pub open spec fn under_one_of(
    ns: Seq<NodeView>,
    found: Seq<Seq<char>>,
    k: int,
    id: Seq<char>,
) -> bool {
    exists|q: int| 0 <= q < k && q < found.len() && child(ns, #[trigger] found[q], id)
}

/// Has each id behind the first a parent among those before it?
pub open spec fn rooted(ns: Seq<NodeView>, found: Seq<Seq<char>>) -> bool {
    forall|k: int| 1 <= k < found.len() ==> under_one_of(ns, found, k, #[trigger] found[k])
}

proof fn lemma_reached(ns: Seq<NodeView>, found: Seq<Seq<char>>, i: nat)
    requires
        i <= found.len(),
        found.len() > 0,
        found.no_duplicates(),
        closed_upto(ns, found, i),
        rooted(ns, found),
    ensures
        reached(ns, found, i).no_duplicates(),
        reached(ns, found, i).len() > 0,
        reached(ns, found, i)[0] == found[0],
        closed_upto(ns, reached(ns, found, i), reached(ns, found, i).len()),
        rooted(ns, reached(ns, found, i)),
    decreases unseen(ns, found), found.len() - i,
{
    if i < found.len() {
        let cur = found[i as int];
        let next = with_children(ns, cur, found);
        lemma_all_named(ns);
        lemma_with_children(ns, ns, cur, found);
        assert forall|k: int| 0 <= k < found.len() implies next[k] == found[k] by {
            assert(next.take(found.len() as int)[k] == found[k]);
        }
        assert forall|k: int, j: int|
            #![trigger next[k], ns[j]]
            0 <= k < i + 1 && k < next.len() && 0 <= j < ns.len() && ns[j].parent_id == Some(
                next[k],
            ) implies next.contains(ns[j].id) by {
            if k < i {
                assert(found[k] == next[k]);
                assert(found.contains(ns[j].id));
                let q = choose|q: int| 0 <= q < found.len() && found[q] == ns[j].id;
                assert(next[q] == ns[j].id);
            }
        }
        assert forall|k: int| 1 <= k < next.len() implies under_one_of(
            ns,
            next,
            k,
            #[trigger] next[k],
        ) by {
            if k < found.len() {
                assert(found[k] == next[k]);
                assert(under_one_of(ns, found, k, found[k]));
                let q = choose|q: int|
                    0 <= q < k && q < found.len() && child(ns, #[trigger] found[q], found[k]);
                assert(next[q] == found[q]);
            } else {
                assert(child(ns, cur, next[k]));
                assert(next[i as int] == cur);
            }
        }
        lemma_reached(ns, next, i + 1);
    }
}

/// A subtree is what it should be: it starts with its root, holds nothing twice,
/// holds every child of what it holds, and holds nothing else (whatever is behind
/// the root has a parent in it).
pub proof fn law_subtree(ns: Seq<NodeView>, id: Seq<char>)
    ensures
        subtree(ns, id).len() > 0,
        subtree(ns, id)[0] == id,
        subtree(ns, id).no_duplicates(),
        forall|j: int|
            0 <= j < ns.len() && (#[trigger] ns[j]).parent_id is Some && subtree(
                ns,
                id,
            ).contains(ns[j].parent_id->0) ==> subtree(ns, id).contains(ns[j].id),
        rooted(ns, subtree(ns, id)),
{
    let f = seq![id];
    assert(f[0] == id);
    lemma_reached(ns, f, 0);
    let s = subtree(ns, id);
    assert forall|j: int|
        0 <= j < ns.len() && (#[trigger] ns[j]).parent_id is Some && s.contains(
            ns[j].parent_id->0,
        ) implies s.contains(ns[j].id) by {
        let k = choose|k: int| 0 <= k < s.len() && s[k] == ns[j].parent_id->0;
        assert(s[k] == ns[j].parent_id->0);
    }
}

// ---- paths in listings ------------------------------------------------------------

/// A path with every backslash turned.
pub open spec fn turned(s: Seq<char>) -> Seq<char> {
    Seq::new(
        s.len(),
        |i: int|
            if s[i] == '\\' {
                '/'
            } else {
                s[i]
            },
    )
}

/// A path written with `/` alone: every backslash turned.
pub fn forward_slashes(s: &str) -> (r: String)
    ensures
        r@ == turned(s@),
        slashed(r@),
{
    let v = chars_of(s);
    let mut out = String::new();
    let mut i: usize = 0;
    assert(out@ =~= turned(s@).take(0));
    while i < v.len()
        invariant
            i <= v@.len(),
            v@ == s@,
            out@ == turned(s@).take(i as int),
        decreases v@.len() - i,
    {
        let c = if v[i] == '\\' {
            '/'
        } else {
            v[i]
        };
        out.push(c);
        assert(turned(s@).take(i + 1) =~= turned(s@).take(i as int).push(c));
        i += 1;
    }
    assert(turned(s@).take(s@.len() as int) =~= turned(s@));
    out
}

/// The paths in a listing: one to a line, without the white space around it, written
/// with `/`. Blank lines hold none.
pub open spec fn listed(s: Seq<char>) -> Set<Seq<char>>
    decreases s.len(),
{
    if s.contains('\n') {
        let i = first_place(s, '\n');
        if 0 <= i < s.len() {
            listed(s.skip(i + 1)).union(on_line(s.take(i)))
        } else {
            on_line(s)
        }
    } else {
        on_line(s)
    }
}

/// The path on one line.
pub open spec fn on_line(s: Seq<char>) -> Set<Seq<char>> {
    if trimmed(s).len() == 0 {
        Set::empty()
    } else {
        Set::empty().insert(turned(trimmed(s)))
    }
}

/// The paths in a listing, one to a line.
pub fn listed_paths(text: &str) -> (r: StrSet)
    ensures
        r.deep_view() == listed(text@),
    decreases text@.len(),
{
    match split_once(text, '\n') {
        Some((line, rest)) => {
            let mut r = listed_paths(rest);
            let t = trim(line);
            if t.unicode_len() > 0 {
                r.insert(forward_slashes(t));
            }
            assert(r.deep_view() =~= listed(text@));
            r
        },
        None => {
            let mut r = StrSet::new();
            let t = trim(text);
            if t.unicode_len() > 0 {
                r.insert(forward_slashes(t));
            }
            r
        },
    }
}

} // verus!
