use scryer_core::drift::{
    changed_files_since, drifted_scopes, forward_slashes, listed_paths, mtime_changed_files,
    product_file_inventory, subtree_ids, FileStamp, NodeAnchor, SyncState, Worktree,
};
use scryer_core::strmap::StrMap;
use scryer_core::strset::StrSet;
use scryer_core::{Kind, Node, ScryModel, Source, SourceLocation};

fn node(id: &str, name: &str, kind: Kind) -> Node {
    Node {
        id: id.into(),
        kind,
        name: name.into(),
        vagrant: None,
        stale: None,
        parent_id: None,
        external: None,
        technology: None,
        description: None,
        responsibilities: Vec::new(),
        properties: Vec::new(),
        icon: None,
        notes: None,
        position: None,
        directives: Vec::new(),
    }
}

fn set(items: &[&str]) -> StrSet {
    StrSet::of(&items.iter().map(|s| s.to_string()).collect())
}

/// A project seen at one moment: its files with the second of their last edit.
fn tree(files: &[(&str, u64)]) -> Worktree {
    Worktree {
        stamps: files
            .iter()
            .map(|(p, s)| FileStamp { path: p.to_string(), secs: *s, ns: *s * 1_000_000_000 })
            .collect(),
        gone: StrSet::new(),
        content_changed: StrMap::new(),
        product: StrSet::of(
            &files
                .iter()
                .map(|(p, _)| p.to_string())
                .filter(|p| p.ends_with(".rs") || p.ends_with(".ts"))
                .collect(),
        ),
    }
}

fn sync_at(secs: u64) -> SyncState {
    SyncState { reconciled_at: secs, ..SyncState::default() }
}

fn two_containers() -> ScryModel {
    let mut model = ScryModel::new();
    model.nodes.push(node("node-1", "API", Kind::Container));
    model.nodes.push(node("node-2", "Web", Kind::Container));
    for (id, pattern) in [("node-1", "api/**/*"), ("node-2", "web/**/*")] {
        model
            .boundaries
            .insert(id.into(), vec![Source { pattern: pattern.into(), comment: None }]);
    }
    model
}

#[test]
fn mtime_scoping_maps_changed_files_to_boundary_owners() {
    let model = two_containers();
    let seen = tree(&[("api/src/server.rs", 101), ("web/src/app.ts", 99)]);
    let scopes = drifted_scopes(&model, &seen, &sync_at(100));
    assert_eq!(scopes.len(), 1, "only the API scope changed");
    assert_eq!(scopes[0].node_id, "node-1");
    assert!(scopes[0].changed_files.iter().any(|f| f == "api/src/server.rs"));
}

#[test]
fn non_product_changes_never_create_scopes_unless_anchored() {
    let mut model = two_containers();
    model.source_map.insert(
        "resp-1".into(),
        vec![SourceLocation {
            pattern: "api/settings.yaml".into(),
            symbol: None,
            line: None,
            end_line: None,
        }],
    );
    let sync = sync_at(100);
    let churn = [("api/icon.png", 101), ("api/pnpm-lock.yaml", 101)];
    assert!(
        drifted_scopes(&model, &tree(&churn), &sync).is_empty(),
        "assets and lockfiles must not demand reconciliation"
    );

    let anchored = [churn[0], churn[1], ("api/settings.yaml", 101)];
    let scopes = drifted_scopes(&model, &tree(&anchored), &sync);
    assert_eq!(scopes.len(), 1);
    assert_eq!(scopes[0].changed_files, vec!["api/settings.yaml".to_string()]);

    let source = [churn[0], churn[1], ("api/settings.yaml", 101), ("api/server.rs", 101)];
    let scopes = drifted_scopes(&model, &tree(&source), &sync);
    assert!(scopes[0].changed_files.iter().any(|f| f == "api/server.rs"));
}

#[test]
fn dirty_working_tree_is_not_drift_right_after_reconcile() {
    let model = two_containers();
    let mut sync = sync_at(100);
    sync.commit = Some("c0".into());
    // The file differs from the commit, and was edited before the reconcile.
    let mut seen = tree(&[("api/src/server.rs", 99)]);
    seen.content_changed.insert("c0".into(), set(&["api/src/server.rs"]));
    assert!(
        drifted_scopes(&model, &seen, &sync).is_empty(),
        "edits already incorporated at reconcile must not read as drift"
    );
    // Touched after the reconcile, it surfaces.
    let mut seen = tree(&[("api/src/server.rs", 101)]);
    seen.content_changed.insert("c0".into(), set(&["api/src/server.rs"]));
    let scopes = drifted_scopes(&model, &seen, &sync);
    assert_eq!(scopes.len(), 1, "a post-reconcile edit drifts");
    assert_eq!(scopes[0].node_id, "node-1");
    // Touched and put back, it does not.
    let mut seen = tree(&[("api/src/server.rs", 101)]);
    seen.content_changed.insert("c0".into(), StrSet::new());
    assert!(drifted_scopes(&model, &seen, &sync).is_empty());
}

#[test]
fn per_node_override_clears_only_that_node() {
    let model = two_containers();
    let seen = tree(&[("api/src/server.rs", 101), ("web/src/app.ts", 101)]);
    let mut sync = sync_at(100);
    assert_eq!(
        drifted_scopes(&model, &seen, &sync).len(),
        2,
        "both boundaries drift before any dismiss"
    );
    sync.nodes.insert(
        "node-1".into(),
        NodeAnchor::now(102, 102_000_000_000, None, StrSet::new()),
    );
    let scopes = drifted_scopes(&model, &seen, &sync);
    assert_eq!(scopes.len(), 1, "only the non-dismissed node still drifts");
    assert_eq!(scopes[0].node_id, "node-2");
}

#[test]
fn same_second_edit_is_visible() {
    let stamp = FileStamp { path: "a.rs".into(), secs: 100, ns: 100_000_000_005 };
    let mut seen = tree(&[]);
    seen.stamps.push(stamp);
    let sync = SyncState::anchored_now(100, 100_000_000_000, None);
    assert!(changed_files_since(&seen, &sync).contains("a.rs"));
    // Without nanoseconds the edit goes unseen.
    assert!(!changed_files_since(&seen, &sync_at(100)).contains("a.rs"));
}

#[test]
fn deletion_only_change_creates_a_scope() {
    let model = two_containers();
    let mut sync = SyncState::anchored_now(100, 100_000_000_000, None);
    let before = tree(&[("api/src/server.rs", 90), ("api/notes.md", 90)]);
    sync.files = product_file_inventory(&before);
    assert!(
        sync.files.contains("api/src/server.rs") && !sync.files.contains("api/notes.md"),
        "the reconcile snapshots the product-file inventory"
    );
    let mut seen = tree(&[]);
    seen.gone = set(&["api/src/server.rs"]);
    seen.product = set(&["api/src/server.rs"]);
    assert!(changed_files_since(&seen, &sync).contains("api/src/server.rs"));
    let scopes = drifted_scopes(&model, &seen, &sync);
    assert_eq!(scopes.len(), 1, "the deletion reaches its boundary owner");
    assert_eq!(scopes[0].node_id, "node-1");
    assert!(scopes[0].changed_files.iter().any(|f| f == "api/src/server.rs"));
}

#[test]
fn dismissed_deletion_clears_for_that_node_only() {
    let model = two_containers();
    let mut sync = SyncState::anchored_now(100, 100_000_000_000, None);
    sync.files = set(&["api/src/server.rs", "web/src/app.ts"]);
    let mut seen = tree(&[]);
    seen.gone = set(&["api/src/server.rs", "web/src/app.ts"]);
    seen.product = set(&["api/src/server.rs", "web/src/app.ts"]);
    assert_eq!(drifted_scopes(&model, &seen, &sync).len(), 2);

    sync.nodes.insert(
        "node-1".into(),
        NodeAnchor::now(101, 101_000_000_000, None, set(&["api/src/server.rs"])),
    );
    let scopes = drifted_scopes(&model, &seen, &sync);
    assert_eq!(scopes.len(), 1, "the dismissed deletion cleared");
    assert_eq!(scopes[0].node_id, "node-2");
}

#[test]
fn no_changes_no_scopes() {
    let mut model = ScryModel::new();
    model.nodes.push(node("node-1", "Root", Kind::Container));
    model
        .boundaries
        .insert("node-1".into(), vec![Source { pattern: "**/*".into(), comment: None }]);
    let seen = tree(&[("a.rs", 100)]);
    assert!(drifted_scopes(&model, &seen, &sync_at(110)).is_empty());
}

#[test]
fn subtree_ids_terminates_on_a_parent_cycle() {
    let mut model = ScryModel::new();
    let mut a = node("node-1", "A", Kind::Container);
    let mut b = node("node-2", "B", Kind::Container);
    a.parent_id = Some("node-2".into());
    b.parent_id = Some("node-1".into());
    model.nodes.push(a);
    model.nodes.push(b);
    let ids = subtree_ids(&model, "node-1");
    assert!(ids.contains(&"node-1".to_string()));
    assert!(ids.contains(&"node-2".to_string()));
    assert_eq!(ids.len(), 2, "each cycle member visited exactly once");
}

#[test]
fn a_subtree_is_walked_level_by_level() {
    let mut model = ScryModel::new();
    for (id, parent) in [("c", Some("a")), ("a", None), ("d", Some("b")), ("b", Some("a"))] {
        let mut n = node(id, id, Kind::Component);
        n.parent_id = parent.map(Into::into);
        model.nodes.push(n);
    }
    assert_eq!(subtree_ids(&model, "a"), vec!["a", "c", "b", "d"]);
    assert_eq!(subtree_ids(&model, "nobody"), vec!["nobody"]);
}

#[test]
fn scopes_come_by_id_and_a_net_yields_to_what_it_holds() {
    let mut model = ScryModel::new();
    model.nodes.push(node("z", "Root", Kind::Container));
    model.nodes.push(node("b", "Api", Kind::Container));
    model.boundaries.insert("z".into(), vec![Source { pattern: "**/*".into(), comment: None }]);
    model.boundaries.insert("b".into(), vec![Source { pattern: "api/**/*".into(), comment: None }]);
    let seen = tree(&[("api/x.rs", 9), ("web/y.rs", 9)]);
    let scopes = drifted_scopes(&model, &seen, &sync_at(1));
    let shape: Vec<(&str, Vec<String>)> =
        scopes.iter().map(|s| (s.node_id.as_str(), s.changed_files.clone())).collect();
    assert_eq!(
        shape,
        vec![("b", vec!["api/x.rs".to_string()]), ("z", vec!["web/y.rs".to_string()])]
    );
}

#[test]
fn a_listing_is_read_line_by_line() {
    let r = listed_paths("  src/a.rs \n\nwin\\b.rs\r\nlast");
    assert_eq!(r, set(&["src/a.rs", "win/b.rs", "last"]));
    assert_eq!(listed_paths(" \n"), StrSet::new());
    assert_eq!(forward_slashes("a\\b/c"), "a/b/c");
}

#[test]
fn files_newer_than_the_anchor_are_touched() {
    let seen = tree(&[("a", 5), ("b", 6), ("c", 7)]);
    assert_eq!(mtime_changed_files(&seen.stamps, 6, None), set(&["c"]));
    assert_eq!(mtime_changed_files(&seen.stamps, 0, Some(5_000_000_000)), set(&["b", "c"]));
}
