//! Entrances that ask nothing of their caller.
//!
//! The readings of a model ask that paths and patterns are written with `/`, and that
//! what they count can be counted. Each function here tests that first, and gives
//! nothing where it does not hold.

use crate::build_edges::{
    audit_of, derive_graph, edges_slashed, law_few_edges_fit, lists_resolved, lists_unmodeled,
    path_slashed, BuildEdges, CachedEdge, DerivedGraph,
};
use crate::commit::{working, working_view};
use crate::completeness::{
    completeness_of, law_few_primitives_fit, live_anchors_of, primitives_size, real_boxes_of,
    resolve_completeness, Completeness,
};
use crate::drift::{drifted, drifted_scopes, tree_slashed, DriftScope, SyncState, Worktree};
use crate::health::{
    compute_health, few, files_in, files_owned, files_slashed, group_claims, health_of, law_few_fit,
    nodes_in, nodes_size, ModelHealth,
};
use crate::locate::{anchors_slashed, locate_at, model_slashed, report_of, LocateReport};
use crate::model::{GroupView, NodeView, ScryModel, ScryModelView, Source, SourceLocation};
use crate::modelled::at;
use crate::ownership::{boundaries_slashed, boundary_rows, is_slashed, node_ids, opt_text, slashed};
use crate::strmap::StrMap;
use crate::strset::StrSet;
use crate::text::ascending;
use vstd::prelude::*;

verus! {

// ---- paths ------------------------------------------------------------------------------

/// Are the patterns of a set of boundaries written with `/` alone?
pub fn boundaries_are_slashed(bs: &StrMap<Vec<Source>>) -> (r: bool)
    ensures
        r == boundaries_slashed(bs.deep_view()),
{
    let ghost bv = bs.deep_view();
    let n: usize = bs.len();
    let ghost ks = ascending(bv.dom());
    let mut i: usize = 0;
    while i < n
        invariant
            i <= n == ks.len(),
            bv == bs.deep_view(),
            ks == ascending(bv.dom()),
            ks.to_set() == bv.dom(),
            forall|j: int, q: int|
                #![trigger bv[ks[j]][q]]
                0 <= j < i && 0 <= q < bv[ks[j]].len() ==> slashed(bv[ks[j]][q].pattern),
        decreases n - i,
    {
        let k = bs.key_at(i);
        let sources = bs.value_at(i);
        let mut q: usize = 0;
        while q < sources.len()
            invariant
                i < n == ks.len(),
                q <= sources@.len(),
                bv == bs.deep_view(),
                k@ == ks[i as int],
                bv.contains_key(k@),
                sources.deep_view() == bv[k@],
                forall|p: int| 0 <= p < q ==> slashed((#[trigger] bv[k@][p]).pattern),
            decreases sources@.len() - q,
        {
            let s = at(sources, q);
            if !is_slashed(s.pattern.as_str()) {
                assert(!slashed(bv[k@][q as int].pattern));
                return false;
            }
            q += 1;
        }
        i += 1;
    }
    proof {
        assert forall|k: Seq<char>, q: int|
            #![trigger bv[k][q]]
            bv.contains_key(k) && 0 <= q < bv[k].len() implies slashed(bv[k][q].pattern) by {
            assert(ks.to_set().contains(k));
            let j = choose|j: int| 0 <= j < ks.len() && ks[j] == k;
            assert(slashed(bv[ks[j]][q].pattern));
        }
    }
    true
}

/// Are the anchors of a map written with `/` alone?
pub fn anchors_are_slashed(map: &StrMap<Vec<SourceLocation>>) -> (r: bool)
    ensures
        r == anchors_slashed(map.deep_view()),
{
    let ghost mv = map.deep_view();
    let n: usize = map.len();
    let ghost ks = ascending(mv.dom());
    let mut i: usize = 0;
    while i < n
        invariant
            i <= n == ks.len(),
            mv == map.deep_view(),
            ks == ascending(mv.dom()),
            ks.to_set() == mv.dom(),
            forall|j: int, q: int|
                #![trigger mv[ks[j]][q]]
                0 <= j < i && 0 <= q < mv[ks[j]].len() ==> slashed(mv[ks[j]][q].pattern),
        decreases n - i,
    {
        let k = map.key_at(i);
        let locs = map.value_at(i);
        let mut q: usize = 0;
        while q < locs.len()
            invariant
                i < n == ks.len(),
                q <= locs@.len(),
                mv == map.deep_view(),
                k@ == ks[i as int],
                mv.contains_key(k@),
                locs.deep_view() == mv[k@],
                forall|p: int| 0 <= p < q ==> slashed((#[trigger] mv[k@][p]).pattern),
            decreases locs@.len() - q,
        {
            let s = at(locs, q);
            if !is_slashed(s.pattern.as_str()) {
                assert(!slashed(mv[k@][q as int].pattern));
                return false;
            }
            q += 1;
        }
        i += 1;
    }
    proof {
        assert forall|k: Seq<char>, q: int|
            #![trigger mv[k][q]]
            mv.contains_key(k) && 0 <= q < mv[k].len() implies slashed(mv[k][q].pattern) by {
            assert(ks.to_set().contains(k));
            let j = choose|j: int| 0 <= j < ks.len() && ks[j] == k;
            assert(slashed(mv[ks[j]][q].pattern));
        }
    }
    true
}

/// Are the files written with `/` alone?
pub fn files_are_slashed(files: &StrSet) -> (r: bool)
    ensures
        r == files_slashed(files.deep_view()),
{
    let ghost fv = files.deep_view();
    let n: usize = files.len();
    let ghost fs = ascending(fv);
    let mut i: usize = 0;
    while i < n
        invariant
            i <= n == fs.len(),
            fv == files.deep_view(),
            fs == ascending(fv),
            fs.to_set() == fv,
            forall|j: int| 0 <= j < i ==> slashed(#[trigger] fs[j]),
        decreases n - i,
    {
        if !is_slashed(files.item(i).as_str()) {
            assert(fs.to_set().contains(fs[i as int]));
            return false;
        }
        i += 1;
    }
    proof {
        assert forall|f: Seq<char>| #[trigger] fv.contains(f) implies slashed(f) by {
            assert(fs.to_set().contains(f));
            let j = choose|j: int| 0 <= j < fs.len() && fs[j] == f;
            assert(slashed(fs[j]));
        }
    }
    true
}

fn path_is_slashed(endpoint: &str) -> (r: bool)
    ensures
        r == path_slashed(endpoint@),
{
    match BuildEdges::split_symbol_key(endpoint) {
        Some((path, _)) => is_slashed(path),
        None => true,
    }
}

/// Are the paths of the edges written with `/` alone?
pub fn edges_are_slashed(es: &Vec<CachedEdge>) -> (r: bool)
    ensures
        r == edges_slashed(es.deep_view()),
{
    let ghost ev = es.deep_view();
    let mut i: usize = 0;
    while i < es.len()
        invariant
            i <= es@.len(),
            ev == es.deep_view(),
            forall|j: int|
                0 <= j < i ==> path_slashed((#[trigger] ev[j]).src) && path_slashed(ev[j].dst),
        decreases es@.len() - i,
    {
        let e = at(es, i);
        if !path_is_slashed(e.src.as_str()) || !path_is_slashed(e.dst.as_str()) {
            assert(!(path_slashed(ev[i as int].src) && path_slashed(ev[i as int].dst)));
            return false;
        }
        i += 1;
    }
    true
}

/// Are the paths that were seen written with `/` alone?
pub fn tree_is_slashed(t: &Worktree) -> (r: bool)
    ensures
        r == tree_slashed(t.deep_view()),
{
    let ghost fv = t.deep_view().stamps;
    let mut i: usize = 0;
    while i < t.stamps.len()
        invariant
            i <= t.stamps@.len(),
            fv == t.deep_view().stamps,
            forall|j: int| 0 <= j < i ==> slashed((#[trigger] fv[j]).path),
        decreases t.stamps@.len() - i,
    {
        let f = at(&t.stamps, i);
        if !is_slashed(f.path.as_str()) {
            assert(!slashed(fv[i as int].path));
            return false;
        }
        i += 1;
    }
    true
}

// ---- sizes ------------------------------------------------------------------------------

proof fn lemma_sizes_grow(m: ScryModelView, i: int, j: int)
    requires
        0 <= i <= m.nodes.len(),
        0 <= j <= m.groups.len(),
    ensures
        nodes_size(m.nodes.take(i)) <= nodes_size(m.nodes),
        primitives_size(m.nodes.take(i)) <= primitives_size(m.nodes),
        group_claims(m.groups.take(j)) <= group_claims(m.groups),
    decreases m.nodes.len() - i + m.groups.len() - j,
{
    if i < m.nodes.len() {
        lemma_sizes_grow(m, i + 1, j);
        assert(m.nodes.take(i + 1).drop_last() =~= m.nodes.take(i));
    } else if j < m.groups.len() {
        lemma_sizes_grow(m, i, j + 1);
        assert(m.groups.take(j + 1).drop_last() =~= m.groups.take(j));
    }
    if i == m.nodes.len() {
        assert(m.nodes.take(i) =~= m.nodes);
    }
    if j == m.groups.len() {
        assert(m.groups.take(j) =~= m.groups);
    }
}

fn within(sum: u64, more: usize) -> (r: Option<u64>)
    requires
        sum <= u32::MAX,
    ensures
        match r {
            Some(s) => s == sum + more && s <= u32::MAX,
            None => sum + more > u32::MAX,
        },
{
    let room: u64 = u32::MAX as u64 - sum;
    if more as u64 <= room {
        Some(sum + more as u64)
    } else {
        None
    }
}

/// Is there not more in the model than can be counted?
pub fn has_few(m: &ScryModel) -> (r: bool)
    ensures
        r == few(m.deep_view()),
{
    let ghost mv = m.deep_view();
    let mut sum: u64 = 0;
    let mut i: usize = 0;
    assert(mv.nodes.take(0) =~= Seq::<NodeView>::empty());
    assert(mv.groups.take(0) =~= Seq::<GroupView>::empty());
    while i < m.nodes.len()
        invariant
            i <= m.nodes@.len(),
            mv == m.deep_view(),
            sum == nodes_size(mv.nodes.take(i as int)),
            sum <= u32::MAX,
        decreases m.nodes@.len() - i,
    {
        let n = at(&m.nodes, i);
        proof {
            assert(mv.nodes.take(i + 1).drop_last() =~= mv.nodes.take(i as int));
            lemma_sizes_grow(mv, i + 1, 0);
        }
        let a = match within(sum, n.responsibilities.len()) {
            Some(s) => s,
            None => {
                return false;
            },
        };
        let b = match within(a, n.properties.len()) {
            Some(s) => s,
            None => {
                return false;
            },
        };
        sum = match within(b, 1) {
            Some(s) => s,
            None => {
                return false;
            },
        };
        i += 1;
    }
    assert(mv.nodes.take(i as int) =~= mv.nodes);
    let mut j: usize = 0;
    while j < m.groups.len()
        invariant
            j <= m.groups@.len(),
            mv == m.deep_view(),
            sum == nodes_size(mv.nodes) + group_claims(mv.groups.take(j as int)),
            sum <= u32::MAX,
        decreases m.groups@.len() - j,
    {
        let g = at(&m.groups, j);
        proof {
            assert(mv.groups.take(j + 1).drop_last() =~= mv.groups.take(j as int));
            lemma_sizes_grow(mv, 0, j + 1);
        }
        sum = match within(sum, g.responsibilities.len()) {
            Some(s) => s,
            None => {
                return false;
            },
        };
        j += 1;
    }
    assert(mv.groups.take(j as int) =~= mv.groups);
    true
}

/// Are there not more primitives in the model than can be counted?
pub fn has_few_primitives(m: &ScryModel) -> (r: bool)
    ensures
        r == (primitives_size(m.deep_view().nodes) <= u32::MAX),
{
    let ghost mv = m.deep_view();
    let mut sum: u64 = 0;
    let mut i: usize = 0;
    assert(mv.nodes.take(0) =~= Seq::<NodeView>::empty());
    while i < m.nodes.len()
        invariant
            i <= m.nodes@.len(),
            mv == m.deep_view(),
            sum == primitives_size(mv.nodes.take(i as int)),
            sum <= u32::MAX,
        decreases m.nodes@.len() - i,
    {
        let n = at(&m.nodes, i);
        proof {
            assert(mv.nodes.take(i + 1).drop_last() =~= mv.nodes.take(i as int));
            lemma_sizes_grow(mv, i + 1, 0);
        }
        let a = match within(sum, n.responsibilities.len()) {
            Some(s) => s,
            None => {
                return false;
            },
        };
        sum = match within(a, 2) {
            Some(s) => s,
            None => {
                return false;
            },
        };
        i += 1;
    }
    assert(mv.nodes.take(i as int) =~= mv.nodes);
    true
}

// ---- readings ---------------------------------------------------------------------------

/// Can the files be measured against the boundaries of a model?
pub open spec fn measurable(m: ScryModelView, files: Option<Set<Seq<char>>>) -> bool {
    match files {
        Some(fs) => files_slashed(fs) && boundaries_slashed(m.boundaries) && ascending(fs).len()
            <= u32::MAX,
        None => true,
    }
}

proof fn lemma_files_owned_few(
    rows: Seq<(Seq<char>, Seq<char>)>,
    id: Seq<char>,
    fs: Seq<Seq<char>>,
)
    ensures
        files_owned(rows, id, fs).len() <= fs.len(),
    decreases fs.len(),
{
    if fs.len() > 0 {
        lemma_files_owned_few(rows, id, fs.drop_last());
    }
}

/// [`compute_health`], or nothing where there is more than can be counted, or paths are not
/// written with `/`.
pub fn checked_health(
    model: &ScryModel,
    planned: Option<&ScryModel>,
    files: Option<&StrSet>,
) -> (r: Option<ModelHealth>)
    ensures
        r is Some <==> few(model.deep_view()) && measurable(
            model.deep_view(),
            files_in(files),
        ),
        r is Some ==> r->0.deep_view() == health_of(
            model.deep_view(),
            nodes_in(planned),
            files_in(files),
        ),
{
    if !has_few(model) {
        return None;
    }
    let ghost m = model.deep_view();
    if let Some(fs) = files {
        if !files_are_slashed(fs) || !boundaries_are_slashed(&model.boundaries) || fs.len()
            > u32::MAX as usize {
            return None;
        }
        proof {
            let rows = boundary_rows(m.boundaries, node_ids(m.nodes));
            assert forall|i: int| 0 <= i < m.nodes.len() implies files_owned(
                rows,
                (#[trigger] m.nodes[i]).id,
                ascending(fs.deep_view()),
            ).len() <= u32::MAX by {
                lemma_files_owned_few(rows, m.nodes[i].id, ascending(fs.deep_view()));
            }
        }
    }
    proof {
        law_few_fit(m, nodes_in(planned));
    }
    Some(compute_health(model, planned, files))
}

/// [`resolve_completeness`], or nothing where there is more authored than can be counted,
/// or paths are not written with `/`.
pub fn checked_completeness(
    model: &ScryModel,
    planned: &ScryModel,
    files: &StrSet,
    dead_anchors: &Vec<String>,
) -> (r: Option<StrMap<Completeness>>)
    ensures
        ({
            let authored = working(model.deep_view(), planned.deep_view());
            let solid = real_boxes_of(authored, files.deep_view());
            let live = live_anchors_of(authored, files.deep_view(), dead_anchors.deep_view());
            &&& r is Some <==> primitives_size(authored.nodes) <= u32::MAX && boundaries_slashed(
                authored.boundaries,
            ) && files_slashed(files.deep_view())
            &&& r is Some ==> r->0.deep_view() == completeness_of(authored, solid, live)
        }),
{
    let view = working_view(model, planned);
    if !has_few_primitives(&view) || !boundaries_are_slashed(&view.boundaries)
        || !files_are_slashed(files) {
        return None;
    }
    proof {
        let authored = view.deep_view();
        law_few_primitives_fit(
            authored,
            real_boxes_of(authored, files.deep_view()),
            live_anchors_of(authored, files.deep_view(), dead_anchors.deep_view()),
        );
    }
    Some(resolve_completeness(model, planned, files, dead_anchors))
}

/// [`derive_graph`], or nothing where there are more edges than can be counted, or
/// paths are not written with `/`.
pub fn checked_graph(model: &ScryModel, edges: &BuildEdges) -> (r: Option<DerivedGraph>)
    ensures
        r is Some <==> boundaries_slashed(model.deep_view().boundaries) && edges_slashed(
            edges.symbol_edges.deep_view(),
        ) && edges.symbol_edges@.len() <= u32::MAX,
        r is Some ==> ({
            let m = model.deep_view();
            let es = edges.symbol_edges.deep_view();
            &&& r->0.link_audit.deep_view() == audit_of(m, es, m.links)
            &&& lists_unmodeled(m, es, r->0.unmodeled.deep_view())
            &&& lists_resolved(m, es, r->0.resolved_edges.deep_view())
        }),
{
    if !boundaries_are_slashed(&model.boundaries) || !edges_are_slashed(&edges.symbol_edges)
        || edges.symbol_edges.len() > u32::MAX as usize {
        return None;
    }
    proof {
        law_few_edges_fit(model.deep_view(), edges.symbol_edges.deep_view());
    }
    Some(derive_graph(model, edges))
}

/// [`locate_at`], or nothing where the file or a pattern is not written with `/`.
pub fn checked_locate(
    committed: &ScryModel,
    planned: &ScryModel,
    file: &str,
    symbol: Option<&str>,
) -> (r: Option<LocateReport>)
    ensures
        r is Some <==> slashed(file@) && model_slashed(
            working(committed.deep_view(), planned.deep_view()),
        ),
        r is Some ==> r->0.deep_view() == report_of(
            committed.deep_view(),
            planned.deep_view(),
            file@,
            opt_text(symbol),
        ),
{
    let view = working_view(committed, planned);
    if !is_slashed(file) || !boundaries_are_slashed(&view.boundaries) || !anchors_are_slashed(
        &view.source_map,
    ) || !anchors_are_slashed(&view.test_map) {
        return None;
    }
    Some(locate_at(committed, planned, file, symbol))
}

/// [`drifted_scopes`], or nothing where a path or a pattern is not written with `/`.
pub fn checked_drift(model: &ScryModel, tree: &Worktree, sync: &SyncState) -> (r: Option<
    Vec<DriftScope>,
>)
    ensures
        r is Some <==> boundaries_slashed(model.deep_view().boundaries) && anchors_slashed(
            model.deep_view().source_map,
        ) && tree_slashed(tree.deep_view()) && files_slashed(sync.deep_view().files),
        r is Some ==> r->0.deep_view() == drifted(
            model.deep_view(),
            tree.deep_view(),
            sync.deep_view(),
        ),
{
    if !boundaries_are_slashed(&model.boundaries) || !anchors_are_slashed(&model.source_map)
        || !tree_is_slashed(tree) || !files_are_slashed(&sync.files) {
        return None;
    }
    Some(drifted_scopes(model, tree, sync))
}

} // verus!
