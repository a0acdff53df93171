//! Which files have drifted, and from what.

use crate::drift::{
    anchor_for, changed_since, drift_of, drifted, drifting, inventory, listed, scopes_of,
    touched_since, turned, DriftScopeView, FileStampView, SyncStateView, WorktreeView,
};
use crate::locate::covers;
use crate::model::{NodeView, ScryModelView};
use crate::ownership::{boundary_rows, node_ids, owned};
use crate::text::{ascending, trimmed};
use vstd::prelude::*;

verus! {

/// Was the file modified after the time, to the nanosecond where that is known?
pub open spec fn is_newer(f: FileStampView, secs: u64, ns: Option<u64>) -> bool {
    if ns is Some {
        f.ns > ns->0
    } else {
        f.secs > secs
    }
}

proof fn lemma_touched(fs: Seq<FileStampView>, secs: u64, ns: Option<u64>, f: Seq<char>)
    ensures
        touched_since(fs, secs, ns).contains(f) <==> exists|i: int|
            0 <= i < fs.len() && (#[trigger] fs[i]).path == f && is_newer(fs[i], secs, ns),
    decreases fs.len(),
{
    if fs.len() > 0 {
        let d = fs.drop_last();
        lemma_touched(d, secs, ns, f);
        assert(fs[fs.len() - 1] == fs.last());
        if exists|i: int|
            0 <= i < d.len() && (#[trigger] d[i]).path == f && is_newer(d[i], secs, ns) {
            let i = choose|i: int|
                0 <= i < d.len() && (#[trigger] d[i]).path == f && is_newer(d[i], secs, ns);
            assert(fs[i] == d[i]);
        }
        if exists|i: int|
            0 <= i < fs.len() && (#[trigger] fs[i]).path == f && is_newer(fs[i], secs, ns) {
            let i = choose|i: int|
                0 <= i < fs.len() && (#[trigger] fs[i]).path == f && is_newer(fs[i], secs, ns);
            if i < d.len() {
                assert(d[i] == fs[i]);
            }
        }
    }
}

/// A file has changed exactly where it is of the inventory and gone, or where it was modified
/// after the anchor and, as far as the content at the anchor's commit is known, differs from it.
pub proof fn law_which_files_have_changed(t: WorktreeView, s: SyncStateView, f: Seq<char>)
    ensures
        changed_since(t, s).contains(f) <==> (s.files.contains(f) && t.gone.contains(f)) || ((exists|
            i: int,
        |
            0 <= i < t.stamps.len() && (#[trigger] t.stamps[i]).path == f && is_newer(
                t.stamps[i],
                s.reconciled_at,
                s.reconciled_at_ns,
            )) && (s.commit is Some && t.content_changed.contains_key(s.commit->0)
            ==> t.content_changed[s.commit->0].contains(f))),
{
    lemma_touched(t.stamps, s.reconciled_at, s.reconciled_at_ns, f);
}

/// Does the file matter: is it product code, or does an anchor of the model cover it?
pub open spec fn matters(m: ScryModelView, product: Set<Seq<char>>, f: Seq<char>) -> bool {
    product.contains(f) || exists|k: Seq<char>, i: int|
        #![trigger m.source_map[k][i]]
        m.source_map.contains_key(k) && 0 <= i < m.source_map[k].len() && covers(
            m.source_map[k][i].pattern,
            f,
        )
}

proof fn lemma_matters(m: ScryModelView, product: Set<Seq<char>>, f: Seq<char>)
    ensures
        crate::drift::relevant(m, product, f) == matters(m, product, f),
{
    if crate::drift::anchored_file(m.source_map, f) {
        let k = choose|k: Seq<char>| #[trigger]
            m.source_map.contains_key(k) && crate::drift::some_covers(m.source_map[k], f);
        let ls = m.source_map[k];
        let i = choose|i: int| 0 <= i < ls.len() && covers((#[trigger] ls[i]).pattern, f);
        assert(covers(m.source_map[k][i].pattern, f));
    }
    if matters(m, product, f) && !product.contains(f) {
        let (k, i) = choose|k: Seq<char>, i: int|
            #![trigger m.source_map[k][i]]
            m.source_map.contains_key(k) && 0 <= i < m.source_map[k].len() && covers(
                m.source_map[k][i].pattern,
                f,
            );
        assert(crate::drift::some_covers(m.source_map[k], f));
    }
}

proof fn lemma_drifting(
    m: ScryModelView,
    product: Set<Seq<char>>,
    id: Seq<char>,
    fs: Seq<Seq<char>>,
)
    ensures
        drifting(m, product, id, fs) == fs.filter(
            |f: Seq<char>|
                matters(m, product, f) && owned(
                    boundary_rows(m.boundaries, node_ids(m.nodes)),
                    id,
                    f,
                ),
        ),
    decreases fs.len(),
{
    reveal(Seq::filter);
    if fs.len() > 0 {
        lemma_drifting(m, product, id, fs.drop_last());
        lemma_matters(m, product, fs.last());
    }
}

/// The files that call for a check of a node are those that changed since it was last looked at,
/// that matter, and that it owns, in ascending order. It was last looked at when it was dismissed
/// on its own, where it was, with the deletions it was dismissed with counted as seen; else with
/// the rest.
pub proof fn law_what_calls_for_a_check(
    m: ScryModelView,
    t: WorktreeView,
    s: SyncStateView,
    id: Seq<char>,
)
    ensures
        ({
            let rows = boundary_rows(m.boundaries, node_ids(m.nodes));
            let since = anchor_for(s, id);
            &&& drift_of(m, t, s, id) == ascending(changed_since(t, since)).filter(
                |f: Seq<char>| matters(m, t.product, f) && owned(rows, id, f),
            )
            &&& !s.nodes.contains_key(id) ==> since == s
            &&& s.nodes.contains_key(id) ==> {
                &&& since.reconciled_at == s.nodes[id].reconciled_at
                &&& since.reconciled_at_ns == s.nodes[id].reconciled_at_ns
                &&& since.commit == s.nodes[id].commit
                &&& forall|f: Seq<char>| #[trigger]
                    since.files.contains(f) <==> s.files.contains(f) && !s.nodes[id].missing.contains(
                        f,
                    )
            }
        }),
{
    lemma_drifting(m, t.product, id, ascending(changed_since(t, anchor_for(s, id))));
}

proof fn lemma_scopes(
    m: ScryModelView,
    ns: Seq<NodeView>,
    t: WorktreeView,
    s: SyncStateView,
    d: DriftScopeView,
)
    ensures
        scopes_of(m, ns, t, s).contains(d) <==> exists|i: int|
            0 <= i < ns.len() && (#[trigger] ns[i]).id == d.node_id && ns[i].name == d.node_name
                && m.boundaries.contains_key(d.node_id) && m.boundaries[d.node_id].len() > 0
                && d.changed_files == drift_of(m, t, s, d.node_id) && d.changed_files.len() > 0,
    decreases ns.len(),
{
    if ns.len() > 0 {
        let e = ns.drop_last();
        let n = ns.last();
        lemma_scopes(m, e, t, s, d);
        let a = scopes_of(m, e, t, s);
        let b = scopes_of(m, ns, t, s);
        assert(ns[ns.len() - 1] == n);
        if a.contains(d) {
            let i = choose|i: int| 0 <= i < a.len() && a[i] == d;
            assert(b[i] == d);
            let j = choose|j: int|
                0 <= j < e.len() && (#[trigger] e[j]).id == d.node_id && e[j].name == d.node_name;
            assert(ns[j] == e[j]);
        }
        if b.len() > a.len() {
            assert(b[a.len() as int] == (DriftScopeView {
                node_id: n.id,
                node_name: n.name,
                changed_files: drift_of(m, t, s, n.id),
            }));
        }
        if b.contains(d) && !a.contains(d) {
            let i = choose|i: int| 0 <= i < b.len() && b[i] == d;
            if i < a.len() {
                assert(a[i] == d);
            }
            assert(ns[ns.len() - 1].id == d.node_id);
        }
        if exists|i: int|
            0 <= i < ns.len() && (#[trigger] ns[i]).id == d.node_id && ns[i].name == d.node_name
                && m.boundaries.contains_key(d.node_id) && m.boundaries[d.node_id].len() > 0
                && d.changed_files == drift_of(m, t, s, d.node_id) && d.changed_files.len() > 0 {
            let i = choose|i: int|
                0 <= i < ns.len() && (#[trigger] ns[i]).id == d.node_id && ns[i].name == d.node_name
                    && m.boundaries.contains_key(d.node_id) && m.boundaries[d.node_id].len() > 0
                    && d.changed_files == drift_of(m, t, s, d.node_id) && d.changed_files.len() > 0;
            if i < e.len() {
                assert(e[i] == ns[i]);
            } else {
                assert(d == (DriftScopeView {
                    node_id: n.id,
                    node_name: n.name,
                    changed_files: drift_of(m, t, s, n.id),
                }));
                assert(b[a.len() as int] == d);
            }
        }
    }
}

/// Every node with a boundary and files that call for a check is told, with its name and those
/// files, and no other is.
pub proof fn law_which_nodes_drift(
    m: ScryModelView,
    t: WorktreeView,
    s: SyncStateView,
    d: DriftScopeView,
)
    ensures
        drifted(m, t, s).contains(d) <==> exists|i: int|
            0 <= i < m.nodes.len() && (#[trigger] m.nodes[i]).id == d.node_id && m.nodes[i].name
                == d.node_name && m.boundaries.contains_key(d.node_id)
                && m.boundaries[d.node_id].len() > 0 && d.changed_files == drift_of(
                m,
                t,
                s,
                d.node_id,
            ) && d.changed_files.len() > 0,
{
    broadcast use vstd::seq_lib::group_to_multiset_ensures;

    crate::drift::law_scopes_are_sorted(m, t, s);
    lemma_scopes(m, m.nodes, t, s, d);
    let a = drifted(m, t, s);
    let b = scopes_of(m, m.nodes, t, s);
    assert(a.contains(d) <==> a.to_multiset().count(d) > 0);
    assert(b.contains(d) <==> b.to_multiset().count(d) > 0);
}

/// The inventory is the product code that is there.
pub proof fn law_what_is_in_the_inventory(t: WorktreeView, f: Seq<char>)
    ensures
        inventory(t).contains(f) <==> t.product.contains(f) && exists|i: int|
            0 <= i < t.stamps.len() && (#[trigger] t.stamps[i]).path == f,
{
}

/// A listing names the path on each of its lines, trimmed and with every backslash turned; a blank
/// line names none.
pub proof fn law_a_listing_is_read_by_line(line: Seq<char>, rest: Seq<char>, f: Seq<char>)
    requires
        !line.contains('\n'),
    ensures
        listed(line + seq!['\n'] + rest).contains(f) <==> listed(rest).contains(f) || (trimmed(
            line,
        ).len() > 0 && f == turned(trimmed(line))),
        listed(line).contains(f) <==> trimmed(line).len() > 0 && f == turned(trimmed(line)),
        turned(f).len() == f.len(),
        forall|i: int|
            0 <= i < f.len() ==> #[trigger] turned(f)[i] == if f[i] == '\\' {
                '/'
            } else {
                f[i]
            },
{
    let s = line + seq!['\n'] + rest;
    assert(s[line.len() as int] == '\n');
    assert(s.take(line.len() as int) =~= line);
    crate::text::lemma_first_place(s, '\n', line.len() as int);
    assert(s.skip(line.len() as int + 1) =~= rest);
    assert(s.contains('\n'));
}

} // verus!
