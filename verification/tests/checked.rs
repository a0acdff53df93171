use scryer_core::build_edges::{BuildEdges, CachedEdge};
use scryer_core::checked::{
    anchors_are_slashed, boundaries_are_slashed, checked_completeness, checked_drift,
    checked_graph, checked_health, checked_locate, edges_are_slashed, files_are_slashed, has_few,
    has_few_primitives, tree_is_slashed,
};
use scryer_core::diff::{diff, ElementKind};
use scryer_core::drift::{FileStamp, SyncState, Worktree};
use scryer_core::health::compute_health;
use scryer_core::ledger::{abandon_change, open_change, revert_one, tag};
use scryer_core::ownership::is_slashed;
use scryer_core::strmap::StrMap;
use scryer_core::strset::StrSet;
use scryer_core::{
    commit_element, Group, Kind, Node, Responsibility, SchemaProperty, ScryModel, Source,
    SourceLocation,
};

fn set(items: &[&str]) -> StrSet {
    StrSet::of(&items.iter().map(|s| s.to_string()).collect())
}

fn node(id: &str, parent: Option<&str>) -> Node {
    Node {
        id: id.into(),
        kind: Kind::Component,
        name: id.into(),
        parent_id: parent.map(Into::into),
        external: None,
        technology: None,
        description: None,
        vagrant: None,
        stale: None,
        responsibilities: Vec::new(),
        properties: Vec::new(),
        icon: None,
        notes: None,
        position: None,
        directives: Vec::new(),
    }
}

fn resp(id: &str, statement: &str) -> Responsibility {
    Responsibility {
        id: id.into(),
        title: None,
        statement: statement.into(),
        concern: None,
        cites: Vec::new(),
        vagrant: None,
        vagrant_origin: None,
        approved_statement: None,
        stale: None,
        stale_proposal: None,
        directives: Vec::new(),
        last_touched_at: None,
    }
}

fn property(label: &str, description: &str) -> SchemaProperty {
    SchemaProperty {
        label: label.into(),
        description: description.into(),
        vagrant: None,
        stale: None,
        last_touched_at: None,
    }
}

fn group(id: &str, name: &str, members: &[&str]) -> Group {
    Group {
        id: id.into(),
        name: name.into(),
        description: None,
        member_ids: members.iter().map(|s| s.to_string()).collect(),
        parent_group_id: None,
        parent_node_id: None,
        responsibilities: Vec::new(),
        icon: None,
    }
}

fn glob(pattern: &str) -> Source {
    Source { pattern: pattern.into(), comment: None }
}

fn place(pattern: &str) -> SourceLocation {
    SourceLocation { pattern: pattern.into(), symbol: None, line: None, end_line: None }
}

fn two_layers() -> ScryModel {
    let mut m = ScryModel::new();
    let mut a = node("a", None);
    a.responsibilities.push(resp("r1", "**Keeps** order"));
    m.nodes.push(a);
    let mut b = node("b", Some("a"));
    b.responsibilities.push(resp("r2", "**Counts** things"));
    m.nodes.push(b);
    m.boundaries.insert("a".into(), vec![glob("src/**")]);
    m.source_map.insert("r1".into(), vec![place("src/a.rs")]);
    m
}

#[test]
fn paths_are_written_with_one_slash() {
    assert!(is_slashed("src/a.rs"));
    assert!(is_slashed(""));
    assert!(!is_slashed("src\\a.rs"));
    let mut bs: StrMap<Vec<Source>> = StrMap::new();
    assert!(boundaries_are_slashed(&bs));
    bs.insert("a".into(), vec![glob("src/**"), glob("lib/**")]);
    assert!(boundaries_are_slashed(&bs));
    bs.insert("b".into(), vec![glob("src/**"), glob("lib\\**")]);
    assert!(!boundaries_are_slashed(&bs));
    let mut map: StrMap<Vec<SourceLocation>> = StrMap::new();
    map.insert("r".into(), vec![place("a.rs")]);
    assert!(anchors_are_slashed(&map));
    map.insert("q".into(), vec![place("b\\a.rs")]);
    assert!(!anchors_are_slashed(&map));
    assert!(files_are_slashed(&set(&["a", "b/c"])));
    assert!(!files_are_slashed(&set(&["a", "b\\c"])));
    let edge = |src: &str, dst: &str| CachedEdge { src: src.into(), dst: dst.into() };
    assert!(edges_are_slashed(&vec![edge("a.rs#f@1", "no\\key"), edge("x#y", "z#w\\@3")]));
    assert!(!edges_are_slashed(&vec![edge("a.rs#f@1", "b\\c.rs#g@2")]));
    let stamp = |path: &str| FileStamp { path: path.into(), secs: 1, ns: 1 };
    let mut tree = Worktree {
        stamps: vec![stamp("a/b")],
        gone: StrSet::new(),
        content_changed: StrMap::new(),
        product: StrSet::new(),
    };
    assert!(tree_is_slashed(&tree));
    tree.stamps.push(stamp("a\\b"));
    assert!(!tree_is_slashed(&tree));
}

#[test]
fn loops_and_repeated_ids_are_counted() {
    let mut m = two_layers();
    assert!(has_few(&m) && has_few_primitives(&m));
    assert_eq!(checked_health(&m, None, None).unwrap().totals.responsibilities, 2);
    m.nodes[0].parent_id = Some("b".into());
    let h = checked_health(&m, None, None).unwrap();
    assert_eq!(h.totals.responsibilities, 2);
    assert_eq!(h.nodes.get("a").unwrap().subtree.responsibilities, 2);
    assert_eq!(h.nodes.get("b").unwrap().subtree.responsibilities, 2);
    assert_eq!(h.nodes.get("b").unwrap().own.responsibilities, 1);
    m.nodes[0].parent_id = None;
    m.nodes[1].id = "a".into();
    m.nodes[1].parent_id = None;
    let h = checked_health(&m, None, None).unwrap();
    assert_eq!(h.totals.responsibilities, 2);
}

#[test]
fn a_child_that_stands_twice_is_below_once() {
    let mut m = ScryModel::new();
    for i in 0..40 {
        for _ in 0..2 {
            let mut n = node(&format!("n{i}"), Some(&format!("n{}", i + 1)));
            n.responsibilities.push(resp("r", "**Keeps** order"));
            m.nodes.push(n);
        }
    }
    assert!(has_few(&m));
    let h = checked_health(&m, None, None).unwrap();
    assert_eq!(h.totals.responsibilities, 80);
    assert_eq!(h.nodes.get("n39").unwrap().subtree.responsibilities, 40);
    assert_eq!(h.nodes.get("n0").unwrap().subtree.responsibilities, 1);
}

#[test]
fn every_claim_is_counted_once() {
    let mut m = two_layers();
    m.groups.push(group("g", "G", &["b"]));
    m.groups[0].responsibilities.push(resp("r3", "**Holds** together"));
    let h = checked_health(&m, None, None).unwrap();
    assert_eq!(h, compute_health(&m, None, None));
    assert_eq!(h.totals.responsibilities, 3);
    assert_eq!(h.nodes.get("b").unwrap().own.responsibilities, 1);
    m.nodes[0].parent_id = Some("b".into());
    assert_eq!(checked_health(&m, None, None).unwrap().totals.responsibilities, 3);
}

#[test]
fn a_forest_adds_up() {
    let mut m = ScryModel::new();
    for (id, parent, n) in [("a", None, 1), ("b", Some("a"), 2), ("c", Some("a"), 3), ("d", None, 4)] {
        let mut x = node(id, parent);
        for k in 0..n {
            x.responsibilities.push(resp(&format!("{id}-{k}"), "**Keeps** order"));
        }
        m.nodes.push(x);
    }
    m.groups.push(group("g", "G", &["b"]));
    m.groups[0].responsibilities.push(resp("g-0", "**Holds** together"));
    m.groups.push(group("h", "H", &[]));
    m.groups[1].responsibilities.push(resp("h-0", "**Holds** together"));
    let h = checked_health(&m, None, None).unwrap();
    let below = |id: &str| h.nodes.get(id).unwrap().subtree.responsibilities;
    assert_eq!((below("b"), below("c"), below("d")), (2, 3, 4));
    assert_eq!(below("a"), 1 + 1 + below("b") + below("c"));
    assert_eq!(h.totals.responsibilities, 1 + below("a") + below("d"));
}

#[test]
fn a_node_below_a_loop_is_counted_once() {
    let mut m = ScryModel::new();
    let mut x = node("x", Some("a"));
    x.responsibilities.push(resp("r-x", "**Keeps** order"));
    m.nodes.push(x);
    m.nodes.push(node("a", Some("b")));
    m.nodes.push(node("b", Some("a")));
    let h = checked_health(&m, None, None).unwrap();
    assert_eq!(h.totals.responsibilities, 1);
    assert_eq!(h.nodes.get("x").unwrap().subtree.responsibilities, 1);
}

#[test]
fn files_are_measured_only_with_slashes() {
    let m = two_layers();
    let h = checked_health(&m, None, Some(&set(&["src/a.rs", "src/b.rs", "doc.md"]))).unwrap();
    let cover = h.nodes.get("a").unwrap().boundary.as_ref().unwrap();
    assert_eq!((cover.total_files, cover.anchored_files), (2, 1));
    assert_eq!(cover.dark_files, vec!["src/b.rs".to_string()]);
    assert!(checked_health(&m, None, Some(&set(&["src\\a.rs"]))).is_none());
}

#[test]
fn completeness_is_given_for_loops_too() {
    let m = two_layers();
    let c = checked_completeness(&m, &m, &set(&["src/a.rs"]), &Vec::new()).unwrap();
    assert!(c.get("a").unwrap().total >= c.get("b").unwrap().total);
    assert!(checked_completeness(&m, &m, &set(&["src\\a.rs"]), &Vec::new()).is_none());
    let mut looped = two_layers();
    looped.nodes[0].parent_id = Some("a".into());
    let c = checked_completeness(&m, &looped, &set(&["src/a.rs"]), &Vec::new()).unwrap();
    assert_eq!(c.len(), 2);
    assert!(c.get("a").unwrap().total >= c.get("b").unwrap().total);
    looped.nodes[0].parent_id = Some("b".into());
    let c = checked_completeness(&m, &looped, &set(&["src/a.rs"]), &Vec::new()).unwrap();
    assert_eq!(c.get("a").unwrap(), c.get("b").unwrap());
}

#[test]
fn the_graph_is_given_for_slashed_edges() {
    let mut m = two_layers();
    let mut edges = BuildEdges { symbol_edges: Vec::new() };
    assert!(checked_graph(&m, &edges).unwrap().resolved_edges.is_empty());
    edges.symbol_edges.push(CachedEdge { src: "a\\b#f@1".into(), dst: "c#g@2".into() });
    assert!(checked_graph(&m, &edges).is_none());
    edges.symbol_edges.clear();
    m.boundaries.insert("b".into(), vec![glob("lib\\**")]);
    assert!(checked_graph(&m, &edges).is_none());
}

#[test]
fn a_file_is_located_by_slashes() {
    let m = two_layers();
    let found = checked_locate(&m, &m, "src/a.rs", None).unwrap();
    assert_eq!(found.result.claims.len(), 1);
    assert_eq!(found.result.claims[0].id, "r1");
    assert!(checked_locate(&m, &m, "src\\a.rs", None).is_none());
}

#[test]
fn drift_is_told_of_slashed_trees() {
    let m = two_layers();
    let mut tree = Worktree {
        stamps: vec![FileStamp { path: "src/a.rs".into(), secs: 9, ns: 9_000_000_000 }],
        gone: StrSet::new(),
        content_changed: StrMap::new(),
        product: set(&["src/a.rs"]),
    };
    let sync = SyncState::anchored_now(5, 5_000_000_000, None);
    let scopes = checked_drift(&m, &tree, &sync).unwrap();
    assert_eq!(scopes.len(), 1);
    assert_eq!(scopes[0].node_id, "a");
    assert_eq!(scopes[0].changed_files, vec!["src/a.rs".to_string()]);
    tree.stamps[0].path = "src\\a.rs".into();
    assert!(checked_drift(&m, &tree, &sync).is_none());
}

#[test]
fn what_has_folded_is_not_pending() {
    let mut committed = two_layers();
    committed.groups.push(group("g", "G", &["b"]));
    committed.nodes[1].properties.push(property("size", "how large"));
    let mut planned = committed.clone();
    planned.source_map = StrMap::new();
    planned.boundaries = StrMap::new();
    planned.nodes[1].responsibilities[0].statement = "**Counts** everything".into();
    planned.nodes[1].properties[0].description = "how very large".into();
    planned.groups[0].name = "Group".into();
    let pending = |c: &ScryModel, p: &ScryModel, kind: ElementKind| {
        diff(c, p).changes.iter().filter(|e| e.kind == kind).count()
    };
    for (kind, owner, id) in [
        (ElementKind::Responsibility, None, "r2"),
        (ElementKind::Property, Some("b"), "size"),
        (ElementKind::Group, None, "g"),
    ] {
        assert_eq!(pending(&committed, &planned, kind), 1);
        commit_element(&mut committed, &mut planned, kind, owner, id).unwrap();
        assert_eq!(pending(&committed, &planned, kind), 0);
    }
    assert!(diff(&committed, &planned).changes.is_empty());
    planned.nodes[1].responsibilities.clear();
    planned.groups.clear();
    for (kind, id) in [(ElementKind::Responsibility, "r2"), (ElementKind::Group, "g")] {
        assert_eq!(pending(&committed, &planned, kind), 1);
        commit_element(&mut committed, &mut planned, kind, None, id).unwrap();
        assert_eq!(pending(&committed, &planned, kind), 0);
    }
}

#[test]
fn what_is_taken_back_is_not_pending() {
    let mut committed = two_layers();
    committed.groups.push(group("g", "G", &["b"]));
    committed.nodes[1].properties.push(property("size", "how large"));
    let mut planned = committed.clone();
    planned.nodes[0].name = "renamed".into();
    planned.nodes[1].responsibilities[0].statement = "**Counts** everything".into();
    planned.nodes[1].responsibilities.push(resp("r9", "**Adds** up"));
    planned.nodes[1].properties.clear();
    planned.nodes.push(node("c", Some("a")));
    planned.groups[0].member_ids.push("c".into());
    let entries = diff(&committed, &planned).changes;
    assert_eq!(entries.len(), 6);
    for entry in &entries {
        revert_one(&mut planned, &committed, entry);
        let after = diff(&committed, &planned).changes;
        assert!(after.iter().all(|e| e.kind != entry.kind || e.id != entry.id));
    }
    assert!(diff(&committed, &planned).changes.is_empty());
}

#[test]
fn taking_back_a_rename_leaves_a_groups_claims() {
    let mut committed = ScryModel::new();
    committed.groups.push(group("g1", "Core", &[]));
    let mut plan = committed.clone();
    plan.groups[0].name = "Renamed".into();
    plan.groups[0].responsibilities.push(resp("r9", "**Adds** up"));
    let entries = diff(&committed, &plan).changes;
    let rename = entries.iter().find(|e| e.kind == ElementKind::Group).unwrap();
    revert_one(&mut plan, &committed, rename);
    assert_eq!(plan.groups.len(), 1);
    assert_eq!(plan.groups[0].name, "Core");
    assert_eq!(plan.groups[0].responsibilities.len(), 1);
    assert_eq!(plan.groups[0].responsibilities[0].id, "r9");
}

#[test]
fn a_symbol_cuts_the_claims_down() {
    let mut m = two_layers();
    let at = |symbol: &str| SourceLocation {
        pattern: "src/a.rs".into(),
        symbol: Some(symbol.into()),
        line: None,
        end_line: None,
    };
    m.source_map.insert("r1".into(), vec![at("one"), at("two")]);
    m.source_map.insert("r2".into(), vec![at("two")]);
    let all = checked_locate(&m, &m, "src/a.rs", None).unwrap().result;
    let two = checked_locate(&m, &m, "src/a.rs", Some("two")).unwrap().result;
    let none = checked_locate(&m, &m, "src/a.rs", Some("three")).unwrap().result;
    assert_eq!(all.claims.len(), 3);
    assert!(!all.symbol_matched && two.symbol_matched && !none.symbol_matched);
    let cut: Vec<_> =
        all.claims.iter().filter(|c| c.anchor.symbol.as_deref() == Some("two")).collect();
    assert_eq!(two.claims.iter().collect::<Vec<_>>(), cut);
    assert_eq!(none.claims, all.claims);
    assert_eq!(two.boundary_owner, all.boundary_owner);
}

#[test]
fn abandoning_leaves_the_entries_of_another_change() {
    let mut committed = two_layers();
    committed.groups.push(group("g1", "Core", &[]));
    let mut plan = committed.clone();
    plan.groups[0].name = "Renamed".into();
    plan.groups[0].responsibilities.push(resp("r9", "**Adds** up"));
    plan.nodes[0].name = "renamed".into();
    let mine = open_change(&mut plan, "rename the group", 1);
    let other = open_change(&mut plan, "add a claim", 2);
    tag(&mut plan, &vec!["group:g1".to_string()], &mine);
    tag(&mut plan, &vec!["resp:r9".to_string(), "node:a".to_string()], &other);
    let before = diff(&committed, &plan).changes;
    abandon_change(&committed, &mut plan, &mine).unwrap();
    let after = diff(&committed, &plan).changes;
    let kept: Vec<_> = before.iter().filter(|e| e.kind != ElementKind::Group).collect();
    assert_eq!(after.iter().collect::<Vec<_>>(), kept);
    assert_eq!(kept.len(), 2);
}

#[test]
fn abandoning_drops_additions_that_hang_together() {
    let committed = two_layers();
    let mut plan = committed.clone();
    let mut added = node("n9", Some("b"));
    added.responsibilities.push(resp("r9", "**Adds** up"));
    added.properties.push(property("size", "how much"));
    plan.nodes.push(added);
    plan.groups.push(group("g9", "New", &["n9"]));
    plan.nodes[0].name = "renamed".into();
    plan.nodes[1].responsibilities.push(resp("r8", "**Keeps** count"));
    let keys: Vec<String> =
        ["node:n9", "resp:r9", "prop:n9:size", "group:g9", "node:a", "resp:r8"].map(String::from).into();
    let mine = open_change(&mut plan, "all of it", 1);
    tag(&mut plan, &keys, &mine);
    let pending = diff(&committed, &plan).changes.len();
    let gone = abandon_change(&committed, &mut plan, &mine).unwrap();
    assert_eq!(gone.dropped.len(), pending);
    assert!(diff(&committed, &plan).changes.is_empty());
    assert!(plan.nodes.iter().all(|n| n.id != "n9"));
    assert!(plan.groups.is_empty());
    assert_eq!(plan.nodes[0].name, committed.nodes[0].name);
}
