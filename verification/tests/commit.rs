use scryer_core::changes::{gc, opened_by, record_closed, record_opened};
use scryer_core::diff::{diff, ElementKind, ModelDiff};
use scryer_core::history::HistoryEvent;
use scryer_core::strmap::StrMap;
use scryer_core::{
    commit_element as fold_element, commit_element_withholding,
    commit_plan_only_ancestors as fold_ancestors, commit_ready_dependents as fold_dependents,
    commit_ready_dependents_without,
    fold_built_model, working_view, Group, Kind, Link, Node, Responsibility, SchemaProperty,
    ScryModel, Source, SourceLocation,
};
use std::cell::RefCell;

/// The two layers and the history of a project, kept in memory.
struct Store {
    committed: RefCell<ScryModel>,
    planned: RefCell<Option<ScryModel>>,
    history: RefCell<Vec<HistoryEvent>>,
}

impl Store {
    fn new() -> Store {
        Store {
            committed: RefCell::new(ScryModel::new()),
            planned: RefCell::new(None),
            history: RefCell::new(Vec::new()),
        }
    }

    fn record(&self, e: HistoryEvent) {
        self.history.borrow_mut().push(e);
    }
}

fn seed(committed: &ScryModel) -> ScryModel {
    let mut p = committed.clone();
    p.source_map = StrMap::new();
    p.test_map = StrMap::new();
    p.boundaries = StrMap::new();
    p
}

fn write_model_at(r: &Store, m: &ScryModel) -> Result<(), String> {
    let mut m = m.clone();
    m.changes.clear();
    m.change_map = StrMap::new();
    *r.committed.borrow_mut() = m;
    Ok(())
}

fn read_model_at(r: &Store) -> Result<ScryModel, String> {
    Ok(r.committed.borrow().clone())
}

fn read_planned_at(r: &Store) -> Result<ScryModel, String> {
    Ok(match &*r.planned.borrow() {
        Some(p) => p.clone(),
        None => seed(&r.committed.borrow()),
    })
}

fn write_planned_for(
    r: &Store,
    m: &ScryModel,
    actor: Option<&str>,
    person: Option<&str>,
) -> Result<(), String> {
    let before = r.planned.borrow().clone().unwrap_or_else(ScryModel::new);
    let mut plan = m.clone();
    let swept = gc(&r.committed.borrow(), &mut plan);
    for meta in opened_by(&before, &plan) {
        r.record(record_opened(&meta, actor, person));
    }
    for meta in &swept.closed {
        r.record(record_closed(meta, "abandoned", 7));
    }
    *r.planned.borrow_mut() = Some(plan);
    Ok(())
}

fn write_planned_at(r: &Store, m: &ScryModel) -> Result<(), String> {
    write_planned_for(r, m, None, None)
}

fn commit_element(
    r: &Store,
    kind: ElementKind,
    owner: Option<&str>,
    id: &str,
) -> Result<(), String> {
    let mut committed = read_model_at(r)?;
    let mut planned = read_planned_at(r)?;
    let folded = fold_element(&mut committed, &mut planned, kind, owner, id)?;
    *r.committed.borrow_mut() = committed;
    if folded.rewrites_plan {
        *r.planned.borrow_mut() = Some(planned);
    } else {
        assert_eq!(planned, read_planned_at(r)?, "a plan that is not rewritten is as it was");
    }
    for meta in &folded.closed {
        r.record(record_closed(meta, "folded", 7));
    }
    Ok(())
}

fn ensure_planned_at(r: &Store) -> Result<(), String> {
    let p = read_planned_at(r)?;
    *r.planned.borrow_mut() = Some(p);
    Ok(())
}

fn plan_diff_at(r: &Store) -> Result<ModelDiff, String> {
    Ok(diff(&read_model_at(r)?, &read_planned_at(r)?))
}

fn commit_plan_only_ancestors(
    r: &Store,
    id: &str,
    include_self: bool,
) -> Result<Vec<String>, String> {
    let mut committed = read_model_at(r)?;
    let mut planned = read_planned_at(r)?;
    let (ids, folded) = fold_ancestors(&mut committed, &mut planned, id, include_self)?;
    *r.committed.borrow_mut() = committed;
    if folded.rewrites_plan {
        *r.planned.borrow_mut() = Some(planned);
    }
    Ok(ids)
}

fn commit_ready_dependents(r: &Store, id: &str) -> Result<(), String> {
    let mut committed = read_model_at(r)?;
    let mut planned = read_planned_at(r)?;
    let swept = fold_dependents(&mut committed, &mut planned, id);
    *r.committed.borrow_mut() = committed;
    if swept.rewrites_plan {
        *r.planned.borrow_mut() = Some(planned);
    }
    match swept.failed {
        Some(e) => Err(e),
        None => Ok(()),
    }
}

fn build(r: &Store, built: &ScryModel) -> ScryModel {
    let out = fold_built_model(&read_model_at(r).unwrap(), built);
    *r.committed.borrow_mut() = out.committed.clone();
    *r.planned.borrow_mut() = Some(out.planned);
    out.committed
}

fn loc(pattern: &str, symbol: Option<&str>) -> SourceLocation {
    SourceLocation {
        pattern: pattern.into(),
        symbol: symbol.map(Into::into),
        line: None,
        end_line: None,
    }
}

fn kinded(
    kind: Kind,
    id: &str,
    name: &str,
    parent: Option<&str>,
    claims: &[(&str, &str)],
) -> Node {
    let mut n = mk_node(id, name, parent);
    n.kind = kind;
    n.responsibilities = claims.iter().map(|(id, s)| mk_resp(id, s)).collect();
    n
}

#[test]
fn fold_built_model_keeps_committed_anchors_and_reseeds_the_draft() {
    let r = Store::new();
    let mut committed = ScryModel::new();
    let mut app = mk_node("app", "App", None);
    app.responsibilities
        .push(mk_resp("resp-1", "serve the API"));
    committed.nodes.push(app);
    committed.boundaries.insert(
        "app".into(),
        vec![Source {
            pattern: "src/**".into(),
            comment: None,
        }],
    );
    committed.source_map.insert(
        "resp-1".into(),
        vec![loc("src/api.rs", None)],
    );
    committed.test_map.insert(
        "resp-1".into(),
        vec![loc("tests/api.rs", None)],
    );
    write_model_at(&r, &committed).unwrap();

    ensure_planned_at(&r).unwrap();
    let mut built = read_planned_at(&r).unwrap();
    let mut core = mk_node("core", "Core", Some("app"));
    core.responsibilities
        .push(mk_resp("resp-2", "parse the input"));
    built.nodes.push(core);
    built.source_map.insert(
        "resp-2".into(),
        vec![loc("src/core.rs", None)],
    );

    let folded = build(&r, &built);

    assert!(
        folded.boundaries.contains_key("app"),
        "committed boundary glob survives the fold"
    );
    assert!(
        folded.source_map.contains_key("resp-1"),
        "committed-only anchor survives the fold"
    );
    assert!(
        folded.test_map.contains_key("resp-1"),
        "committed-only test entry survives"
    );
    assert!(
        folded.source_map.contains_key("resp-2"),
        "the build's own anchor lands"
    );
    let on_disk = read_model_at(&r).unwrap();
    assert!(on_disk.boundaries.contains_key("app"));
    assert!(on_disk.source_map.contains_key("resp-1"));

    let planned = read_planned_at(&r).unwrap();
    assert!(
        planned.source_map.is_empty()
            && planned.test_map.is_empty()
            && planned.boundaries.is_empty(),
        "draft re-seeded clean — no shadow anchors"
    );
    assert!(
        plan_diff_at(&r).unwrap().is_empty(),
        "no pending plan survives the build"
    );
}

#[test]
fn commit_element_moves_and_gcs_test_entries() {
    let r = Store::new();
    let loc = |p: &str| vec![loc(p, None)];
    let mut m = ScryModel::new();
    m.nodes.push(mk_node("host", "Host", None));
    write_model_at(&r, &m).unwrap();

    ensure_planned_at(&r).unwrap();
    let mut planned = read_planned_at(&r).unwrap();
    planned
        .nodes
        .iter_mut()
        .find(|n| n.id == "host")
        .unwrap()
        .responsibilities
        .push(mk_resp("resp-1", "parse the input"));
    planned
        .source_map
        .insert("resp-1".into(), loc("src/parse.rs"));
    planned
        .test_map
        .insert("resp-1".into(), loc("tests/parse.rs"));
    write_planned_at(&r, &planned).unwrap();

    commit_element(&r, ElementKind::Responsibility, None, "resp-1").unwrap();

    let committed = read_model_at(&r).unwrap();
    assert_eq!(
        committed.test_map.get("resp-1"),
        Some(&loc("tests/parse.rs")),
        "the test entry folds into committed with its claim"
    );
    let draft = read_planned_at(&r).unwrap();
    assert!(
        draft.source_map.is_empty() && draft.test_map.is_empty(),
        "the draft stops carrying what committed now owns"
    );

    let mut planned = read_planned_at(&r).unwrap();
    planned.nodes.retain(|n| n.id != "host");
    write_planned_at(&r, &planned).unwrap();

    commit_element(&r, ElementKind::Node, None, "host").unwrap();

    let committed = read_model_at(&r).unwrap();
    assert!(committed.nodes.is_empty(), "the deletion folded");
    assert!(
        committed.source_map.is_empty() && committed.test_map.is_empty(),
        "anchor and test entries of the deleted subtree's claims are GC'd"
    );
}

#[test]
fn commit_element_on_an_unseeded_project_seeds_a_clean_draft() {
    let r = Store::new();
    let mut m = ScryModel::new();
    let mut a = mk_node("a", "A", None);
    let mut resp = mk_resp("resp-1", "do the thing");
    resp.stale = Some(true); // makes the fold's plan rewrite fire
    a.responsibilities.push(resp);
    m.nodes.push(a);
    m.source_map.insert(
        "resp-1".into(),
        vec![loc("a.rs", None)],
    );
    write_model_at(&r, &m).unwrap();
    assert!(r.planned.borrow().is_none());

    commit_element(&r, ElementKind::Node, None, "a").unwrap();

    assert!(r.planned.borrow().is_some(), "the fold seeded the draft");
    let planned = read_planned_at(&r).unwrap();
    assert!(
        planned.source_map.is_empty() && planned.boundaries.is_empty(),
        "the persisted draft carries no shadow of committed's anchors"
    );
    assert!(
        read_model_at(&r).unwrap().source_map.contains_key("resp-1"),
        "committed keeps its anchor"
    );
}

#[test]
fn commit_link_requires_endpoints_in_committed() {
    let r = Store::new();
    let mut m = ScryModel::new();
    m.nodes.push(mk_node("a", "A", None));
    write_model_at(&r, &m).unwrap();

    ensure_planned_at(&r).unwrap();
    let mut planned = read_planned_at(&r).unwrap();
    planned.nodes.push(mk_node("b", "B", None));
    planned.links.push(Link {
        id: "link-a-b".into(),
        src: "a".into(),
        dst: "b".into(),
        label: "calls".into(),
        method: None,
    });
    write_planned_at(&r, &planned).unwrap();

    let err = commit_element(&r, ElementKind::Link, None, "link-a-b").unwrap_err();
    assert!(
        err.contains("'b'"),
        "error names the plan-only endpoint: {err}"
    );
    assert!(
        read_model_at(&r).unwrap().links.is_empty(),
        "nothing folded"
    );

    commit_element(&r, ElementKind::Node, None, "b").unwrap();
    commit_element(&r, ElementKind::Link, None, "link-a-b").unwrap();
    assert!(read_model_at(&r)
        .unwrap()
        .links
        .iter()
        .any(|l| l.id == "link-a-b"));
}

#[test]
fn commit_group_requires_members_in_committed() {
    let r = Store::new();
    let mut m = ScryModel::new();
    m.nodes.push(mk_node("a", "A", None));
    write_model_at(&r, &m).unwrap();

    ensure_planned_at(&r).unwrap();
    let mut planned = read_planned_at(&r).unwrap();
    planned.nodes.push(mk_node("b", "B", None));
    planned.groups.push(Group {
        id: "grp".into(),
        name: "Pair".into(),
        description: None,
        member_ids: vec!["a".into(), "b".into()],
        parent_group_id: None,
        parent_node_id: None,
        responsibilities: Vec::new(),
        icon: None,
    });
    write_planned_at(&r, &planned).unwrap();

    let err = commit_element(&r, ElementKind::Group, None, "grp").unwrap_err();
    assert!(
        err.contains("'b'"),
        "error names the plan-only member: {err}"
    );
    assert!(
        read_model_at(&r).unwrap().groups.is_empty(),
        "nothing folded"
    );

    commit_element(&r, ElementKind::Node, None, "b").unwrap();
    commit_element(&r, ElementKind::Group, None, "grp").unwrap();
    assert!(read_model_at(&r)
        .unwrap()
        .groups
        .iter()
        .any(|g| g.id == "grp"));
}

#[test]
fn ready_dependents_skips_a_group_with_a_plan_only_anchor() {
    let r = Store::new();
    let mut m = ScryModel::new();
    m.nodes.push(mk_node("root", "Root", None));
    write_model_at(&r, &m).unwrap();

    ensure_planned_at(&r).unwrap();
    let mut planned = read_planned_at(&r).unwrap();
    planned.nodes.push(mk_node("m", "Member", Some("root"))); // foldable: parent committed
    planned
        .nodes
        .push(mk_node("anchor", "Anchor", Some("root"))); // stays plan-only
    planned.groups.push(Group {
        id: "grp".into(),
        name: "G".into(),
        description: None,
        member_ids: vec!["m".into()],
        parent_group_id: None,
        parent_node_id: Some("anchor".into()),
        responsibilities: Vec::new(),
        icon: None,
    });
    write_planned_at(&r, &planned).unwrap();

    commit_element(&r, ElementKind::Node, None, "m").unwrap();
    commit_ready_dependents(&r, "m").expect("must not fail on a not-yet-ready group");
    assert!(
        !read_model_at(&r)
            .unwrap()
            .groups
            .iter()
            .any(|g| g.id == "grp"),
        "the group is skipped while its anchor is plan-only"
    );

    commit_element(&r, ElementKind::Node, None, "anchor").unwrap();
    commit_ready_dependents(&r, "m").unwrap();
    assert!(read_model_at(&r)
        .unwrap()
        .groups
        .iter()
        .any(|g| g.id == "grp"));
}

#[test]
fn commit_responsibility_clears_the_plan_copies_markers() {
    let r = Store::new();
    let mut m = ScryModel::new();
    let mut a = mk_node("a", "A", None);
    a.responsibilities.push(mk_resp("resp-1", "do the thing"));
    m.nodes.push(a);
    write_model_at(&r, &m).unwrap();

    ensure_planned_at(&r).unwrap();
    let mut planned = read_planned_at(&r).unwrap();
    {
        let x = &mut planned.nodes[0].responsibilities[0];
        x.stale = Some(true);
        x.stale_proposal = Some("new wording".into());
    }
    write_planned_at(&r, &planned).unwrap();

    commit_element(&r, ElementKind::Responsibility, None, "resp-1").unwrap();

    let committed = read_model_at(&r).unwrap();
    let c = &committed.nodes[0].responsibilities[0];
    assert!(
        c.stale.is_none() && c.stale_proposal.is_none(),
        "committed entered clean"
    );
    let planned = read_planned_at(&r).unwrap();
    let p = &planned.nodes[0].responsibilities[0];
    assert!(
        p.stale.is_none() && p.stale_proposal.is_none(),
        "the plan copy no longer awaits a verdict"
    );
}

#[test]
fn commit_node_syncs_cleared_markers_into_the_plan() {
    let r = Store::new();
    let mut m = ScryModel::new();
    let mut a = mk_node("a", "A", None);
    a.responsibilities.push(mk_resp("resp-1", "kept behaviour"));
    m.nodes.push(a);
    write_model_at(&r, &m).unwrap();

    ensure_planned_at(&r).unwrap();
    let mut planned = read_planned_at(&r).unwrap();
    {
        let n = &mut planned.nodes[0];
        n.stale = Some(true);
        n.responsibilities[0].stale = Some(true);
        let mut vag = mk_resp("resp-2", "code-discovered");
        vag.vagrant = Some(true);
        n.responsibilities.push(vag);
    }
    write_planned_at(&r, &planned).unwrap();

    commit_element(&r, ElementKind::Node, None, "a").unwrap();

    let planned = read_planned_at(&r).unwrap();
    let n = &planned.nodes[0];
    assert!(
        n.stale.is_none(),
        "the folded node's own drift flag clears in the plan"
    );
    let kept = n
        .responsibilities
        .iter()
        .find(|x| x.id == "resp-1")
        .unwrap();
    assert!(
        kept.stale.is_none(),
        "the folded claim no longer awaits a verdict"
    );
    let vag = n
        .responsibilities
        .iter()
        .find(|x| x.id == "resp-2")
        .unwrap();
    assert_eq!(
        vag.vagrant,
        Some(true),
        "the un-adjudicated vagrant claim stays pending"
    );
    assert!(
        !read_model_at(&r).unwrap().nodes[0]
            .responsibilities
            .iter()
            .any(|x| x.id == "resp-2"),
        "the vagrant claim did not fold"
    );
}

fn mk_node(id: &str, name: &str, parent: Option<&str>) -> Node {
    Node {
        id: id.into(),
        kind: Kind::Component,
        name: name.into(),
        vagrant: None,
        stale: None,
        parent_id: parent.map(|s| s.into()),
        external: None,
        technology: None,
        description: None,
        responsibilities: Vec::new(),
        properties: Vec::new(),
        icon: None,
        notes: None,
        position: None,
        directives: Vec::new(),
    }
}

fn mk_resp(id: &str, statement: &str) -> Responsibility {
    Responsibility {
        title: None,
        cites: Vec::new(),
        concern: None,
        id: id.into(),
        statement: statement.into(),
        vagrant: None,
        stale: None,
        stale_proposal: None,
        directives: Vec::new(),
        last_touched_at: None,
        vagrant_origin: None,
        approved_statement: None,
    }
}

#[test]
fn commit_node_add_and_update() {
    let r = Store::new();
    let mut m = ScryModel::new();
    m.nodes.push(mk_node("n1", "Old", None));
    write_model_at(&r, &m).unwrap();

    ensure_planned_at(&r).unwrap();
    let mut planned = read_planned_at(&r).unwrap();
    planned.nodes[0].name = "New".into(); // rename n1
    planned.nodes.push(mk_node("n2", "Billing", None)); // add n2
    write_planned_at(&r, &planned).unwrap();

    commit_element(&r, ElementKind::Node, None, "n1").unwrap();
    commit_element(&r, ElementKind::Node, None, "n2").unwrap();

    let model = read_model_at(&r).unwrap();
    assert_eq!(
        model.nodes.iter().find(|n| n.id == "n1").unwrap().name,
        "New"
    );
    assert!(model.nodes.iter().any(|n| n.id == "n2"));
    assert!(
        plan_diff_at(&r).unwrap().is_empty(),
        "plan clears after commit"
    );
}

#[test]
fn commit_node_delete() {
    let r = Store::new();
    let mut m = ScryModel::new();
    m.nodes.push(mk_node("n1", "Keep", None));
    m.nodes.push(mk_node("n2", "Drop", None));
    write_model_at(&r, &m).unwrap();

    ensure_planned_at(&r).unwrap();
    let mut planned = read_planned_at(&r).unwrap();
    planned.nodes.retain(|n| n.id != "n2"); // delete n2 in the draft
    write_planned_at(&r, &planned).unwrap();

    commit_element(&r, ElementKind::Node, None, "n2").unwrap();

    let model = read_model_at(&r).unwrap();
    assert!(model.nodes.iter().any(|n| n.id == "n1"));
    assert!(
        !model.nodes.iter().any(|n| n.id == "n2"),
        "n2 removed from model"
    );
    assert!(plan_diff_at(&r).unwrap().is_empty());
}

#[test]
fn commit_node_delete_cascades_subtree_links_and_group_refs() {
    let r = Store::new();
    let mut m = ScryModel::new();
    m.nodes.push(mk_node("p", "Parent", None));
    let mut c = mk_node("c", "Child", Some("p"));
    c.responsibilities.push(mk_resp("r-c", "does a thing"));
    m.nodes.push(c);
    m.nodes.push(mk_node("keep", "Keep", None));
    m.links.push(Link {
        id: "l1".into(),
        src: "c".into(),
        dst: "keep".into(),
        label: "calls".into(),
        method: None,
    });
    m.groups.push(Group {
        id: "grp".into(),
        name: "G".into(),
        description: None,
        member_ids: vec!["c".into(), "keep".into()],
        parent_group_id: None,
        parent_node_id: None,
        responsibilities: Vec::new(),
        icon: None,
    });
    m.source_map.insert(
        "r-c".into(),
        vec![loc("c.rs", None)],
    );
    m.boundaries.insert(
        "c".into(),
        vec![Source {
            pattern: "c/**".into(),
            comment: None,
        }],
    );
    write_model_at(&r, &m).unwrap();

    ensure_planned_at(&r).unwrap();
    let mut planned = read_planned_at(&r).unwrap();
    planned.nodes.retain(|n| n.id != "p" && n.id != "c");
    planned.links.clear();
    planned.groups[0].member_ids.retain(|x| x == "keep");
    planned.source_map.remove("r-c");
    planned.boundaries.remove("c");
    write_planned_at(&r, &planned).unwrap();

    commit_element(&r, ElementKind::Node, None, "p").unwrap();

    let model = read_model_at(&r).unwrap();
    assert!(
        !model.nodes.iter().any(|n| n.id == "p" || n.id == "c"),
        "subtree removed"
    );
    assert!(
        model.nodes.iter().any(|n| n.id == "keep"),
        "untouched sibling kept"
    );
    assert!(model.links.is_empty(), "dangling link dropped");
    assert_eq!(
        model.groups[0].member_ids,
        vec!["keep"],
        "dead group ref pruned"
    );
    assert!(
        !model.source_map.contains_key("r-c"),
        "orphaned anchor GC'd"
    );
    assert!(
        !model.boundaries.contains_key("c"),
        "deleted node's boundary GC'd"
    );
    assert!(
        plan_diff_at(&r).unwrap().is_empty(),
        "committed reconciled to the plan"
    );
}

#[test]
fn commit_node_delete_spares_a_child_still_in_the_plan() {
    let r = Store::new();
    let mut m = ScryModel::new();
    m.nodes.push(mk_node("p", "Parent", None));
    m.nodes.push(mk_node("c", "Child", Some("p")));
    write_model_at(&r, &m).unwrap();

    ensure_planned_at(&r).unwrap();
    let mut planned = read_planned_at(&r).unwrap();
    planned.nodes.retain(|n| n.id != "p");
    planned
        .nodes
        .iter_mut()
        .find(|n| n.id == "c")
        .unwrap()
        .parent_id = None;
    write_planned_at(&r, &planned).unwrap();

    commit_element(&r, ElementKind::Node, None, "p").unwrap();

    let model = read_model_at(&r).unwrap();
    assert!(!model.nodes.iter().any(|n| n.id == "p"), "parent deleted");
    assert!(
        model.nodes.iter().any(|n| n.id == "c"),
        "kept child not clobbered"
    );
}

#[test]
fn commit_node_folds_its_plan_added_boundary_into_committed() {
    let r = Store::new();
    write_model_at(&r, &ScryModel::new()).unwrap();

    ensure_planned_at(&r).unwrap();
    let mut planned = read_planned_at(&r).unwrap();
    planned.nodes.push(mk_node("box", "API", None));
    planned.boundaries.insert(
        "box".into(),
        vec![Source {
            pattern: "api/**".into(),
            comment: None,
        }],
    );
    write_planned_at(&r, &planned).unwrap();

    commit_element(&r, ElementKind::Node, None, "box").unwrap();

    let model = read_model_at(&r).unwrap();
    assert_eq!(
        model
            .boundaries
            .get("box")
            .expect("boundary folded into committed")[0]
            .pattern,
        "api/**"
    );
    let plan = read_planned_at(&r).unwrap();
    assert!(
        !plan.boundaries.contains_key("box"),
        "boundary left the draft"
    );
    assert!(plan_diff_at(&r).unwrap().is_empty());
}

#[test]
fn commit_node_requires_parent_in_committed() {
    let r = Store::new();
    write_model_at(&r, &ScryModel::new()).unwrap();

    ensure_planned_at(&r).unwrap();
    let mut planned = read_planned_at(&r).unwrap();
    planned.nodes.push(mk_node("p", "Parent", None));
    planned.nodes.push(mk_node("c", "Child", Some("p")));
    write_planned_at(&r, &planned).unwrap();

    let err = commit_element(&r, ElementKind::Node, None, "c").unwrap_err();
    assert!(
        err.contains("parent 'p'"),
        "error names the missing parent: {err}"
    );
    assert!(
        !read_model_at(&r).unwrap().nodes.iter().any(|n| n.id == "c"),
        "child not committed while its parent is plan-only"
    );

    commit_element(&r, ElementKind::Node, None, "p").unwrap();
    commit_element(&r, ElementKind::Node, None, "c").unwrap();
    let model = read_model_at(&r).unwrap();
    assert!(model.nodes.iter().any(|n| n.id == "p"));
    assert!(model.nodes.iter().any(|n| n.id == "c"));
    assert!(plan_diff_at(&r).unwrap().is_empty());
}

#[test]
fn commit_plan_only_ancestors_folds_structure_only() {
    let r = Store::new();
    write_model_at(&r, &ScryModel::new()).unwrap();

    ensure_planned_at(&r).unwrap();
    let mut planned = read_planned_at(&r).unwrap();
    let mut sys = mk_node("sys", "System", None);
    sys.responsibilities
        .push(mk_resp("resp-s", "own the domain"));
    let mut app = mk_node("app", "App", Some("sys"));
    app.responsibilities
        .push(mk_resp("resp-a", "serve the api"));
    let mut leaf = mk_node("leaf", "Feature", Some("app"));
    leaf.responsibilities
        .push(mk_resp("resp-l", "do the built thing"));
    planned.nodes.extend([sys, app, leaf]);
    planned.boundaries.insert(
        "app".into(),
        vec![Source {
            pattern: "api/**".into(),
            comment: None,
        }],
    );
    planned.source_map.insert(
        "app".into(),
        vec![SourceLocation {
            pattern: "api/mod.rs".into(),
            symbol: None,
            line: None,
            end_line: None,
        }],
    );
    write_planned_at(&r, &planned).unwrap();

    let folded = commit_plan_only_ancestors(&r, "leaf", false).unwrap();
    assert_eq!(
        folded,
        vec!["sys".to_string(), "app".to_string()],
        "root-ward order"
    );

    let model = read_model_at(&r).unwrap();
    let sys = model
        .nodes
        .iter()
        .find(|n| n.id == "sys")
        .expect("sys committed");
    let app = model
        .nodes
        .iter()
        .find(|n| n.id == "app")
        .expect("app committed");
    assert!(
        sys.responsibilities.is_empty(),
        "unbuilt claims did not fold"
    );
    assert!(
        app.responsibilities.is_empty(),
        "unbuilt claims did not fold"
    );
    assert!(
        !model.nodes.iter().any(|n| n.id == "leaf"),
        "the target itself is not folded"
    );

    assert_eq!(
        model.boundaries.get("app").expect("boundary folded")[0].pattern,
        "api/**"
    );
    assert!(
        model.source_map.contains_key("app"),
        "declaration anchor folded"
    );
    let plan = read_planned_at(&r).unwrap();
    assert!(
        !plan.boundaries.contains_key("app"),
        "boundary left the draft"
    );
    assert!(
        !plan.source_map.contains_key("app"),
        "anchor left the draft"
    );

    commit_element(&r, ElementKind::Node, None, "leaf").unwrap();
    let model = read_model_at(&r).unwrap();
    let leaf = model.nodes.iter().find(|n| n.id == "leaf").unwrap();
    assert_eq!(
        leaf.responsibilities.len(),
        1,
        "built claim folded with the leaf"
    );
    assert_eq!(
        plan_diff_at(&r).unwrap().changes.len(),
        2,
        "exactly the ancestors' unbuilt claims stay pending"
    );
}

#[test]
fn commit_plan_only_ancestors_noop_when_parent_committed() {
    let r = Store::new();
    let mut m = ScryModel::new();
    m.nodes.push(mk_node("p", "Parent", None));
    write_model_at(&r, &m).unwrap();

    ensure_planned_at(&r).unwrap();
    let mut planned = read_planned_at(&r).unwrap();
    planned.nodes.push(mk_node("c", "Child", Some("p")));
    write_planned_at(&r, &planned).unwrap();

    assert!(commit_plan_only_ancestors(&r, "c", false)
        .unwrap()
        .is_empty());
    assert_eq!(
        read_model_at(&r).unwrap().nodes.len(),
        1,
        "committed untouched"
    );
}

#[test]
fn commit_plan_only_ancestors_rejects_a_dangling_parent() {
    let r = Store::new();
    write_model_at(&r, &ScryModel::new()).unwrap();

    ensure_planned_at(&r).unwrap();
    let mut planned = read_planned_at(&r).unwrap();
    planned.nodes.push(mk_node("c", "Child", Some("ghost")));
    write_planned_at(&r, &planned).unwrap();

    let err = commit_plan_only_ancestors(&r, "c", false).unwrap_err();
    assert!(
        err.contains("'ghost'"),
        "error names the dangling parent: {err}"
    );
    assert!(
        read_model_at(&r).unwrap().nodes.is_empty(),
        "nothing committed"
    );
}

#[test]
fn commit_plan_only_ancestors_survives_a_parent_cycle() {
    let r = Store::new();
    write_model_at(&r, &ScryModel::new()).unwrap();

    ensure_planned_at(&r).unwrap();
    let mut planned = read_planned_at(&r).unwrap();
    planned.nodes.push(mk_node("a", "A", Some("b")));
    planned.nodes.push(mk_node("b", "B", Some("a")));
    planned.nodes.push(mk_node("c", "C", Some("a")));
    write_planned_at(&r, &planned).unwrap();

    let err = commit_plan_only_ancestors(&r, "c", false).unwrap_err();
    assert!(err.contains("cycle"), "cycle detected: {err}");
}

#[test]
fn commit_responsibility_move() {
    let r = Store::new();
    let mut m = ScryModel::new();
    let mut a = mk_node("a", "A", None);
    a.responsibilities.push(mk_resp("resp-1", "do the thing"));
    m.nodes.push(a);
    m.nodes.push(mk_node("b", "B", None));
    write_model_at(&r, &m).unwrap();

    ensure_planned_at(&r).unwrap();
    let mut planned = read_planned_at(&r).unwrap();
    let resp = planned.nodes[0].responsibilities.remove(0);
    planned.nodes[1].responsibilities.push(resp);
    write_planned_at(&r, &planned).unwrap();

    commit_element(&r, ElementKind::Responsibility, None, "resp-1").unwrap();

    let model = read_model_at(&r).unwrap();
    let a = model.nodes.iter().find(|n| n.id == "a").unwrap();
    let b = model.nodes.iter().find(|n| n.id == "b").unwrap();
    assert!(a.responsibilities.is_empty(), "resp left the old host");
    assert_eq!(b.responsibilities.len(), 1, "resp landed on the new host");
    assert!(plan_diff_at(&r).unwrap().is_empty());
}

#[test]
fn commit_property_update() {
    let r = Store::new();
    let mut m = ScryModel::new();
    let mut a = mk_node("a", "A", None);
    a.properties.push(SchemaProperty {
        label: "email".into(),
        description: "old".into(),
        vagrant: None,
        stale: None,
        last_touched_at: None,
    });
    m.nodes.push(a);
    write_model_at(&r, &m).unwrap();

    ensure_planned_at(&r).unwrap();
    let mut planned = read_planned_at(&r).unwrap();
    planned.nodes[0].properties[0].description = "new".into();
    write_planned_at(&r, &planned).unwrap();

    commit_element(&r, ElementKind::Property, Some("a"), "email").unwrap();

    let model = read_model_at(&r).unwrap();
    assert_eq!(model.nodes[0].properties[0].description, "new");
    assert!(plan_diff_at(&r).unwrap().is_empty());
}

#[test]
fn commit_node_clears_stale_and_leaves_vagrant_pending() {
    let r = Store::new();
    let mut m = ScryModel::new();
    let mut n = mk_node("n", "Svc", None);
    n.responsibilities
        .push(mk_resp("resp-1", "serves requests"));
    m.nodes.push(n);
    write_model_at(&r, &m).unwrap();

    ensure_planned_at(&r).unwrap();
    let mut planned = read_planned_at(&r).unwrap();
    {
        let pn = &mut planned.nodes[0];
        pn.responsibilities[0].stale = Some(true);
        pn.responsibilities[0].stale_proposal = Some("serves v2 requests".into());
        let mut vagrant = mk_resp("resp-2", "also logs metrics");
        vagrant.vagrant = Some(true);
        pn.responsibilities.push(vagrant);
        pn.properties.push(SchemaProperty {
            label: "region".into(),
            description: String::new(),
            vagrant: Some(true),
            stale: None,
            last_touched_at: None,
        });
    }
    write_planned_at(&r, &planned).unwrap();

    commit_element(&r, ElementKind::Node, None, "n").unwrap();

    let model = read_model_at(&r).unwrap();
    let cn = model.nodes.iter().find(|x| x.id == "n").unwrap();
    let r1 = cn
        .responsibilities
        .iter()
        .find(|x| x.id == "resp-1")
        .unwrap();
    assert_eq!(r1.stale, None, "stale flag cleared on fold");
    assert_eq!(r1.stale_proposal, None, "stale proposal cleared on fold");
    assert!(
        !cn.responsibilities.iter().any(|x| x.id == "resp-2"),
        "vagrant claim not silently committed"
    );
    assert!(
        cn.properties.is_empty(),
        "vagrant property not silently committed"
    );

    let plan = read_planned_at(&r).unwrap();
    let pn = plan.nodes.iter().find(|x| x.id == "n").unwrap();
    assert!(
        pn.responsibilities
            .iter()
            .any(|x| x.id == "resp-2" && x.vagrant == Some(true)),
        "vagrant claim still pending in the plan"
    );
    assert!(
        pn.properties
            .iter()
            .any(|p| p.label == "region" && p.vagrant == Some(true)),
        "vagrant property still pending in the plan"
    );
}

#[test]
fn ready_link_folds_when_its_second_endpoint_commits() {
    let r = Store::new();
    write_model_at(&r, &ScryModel::new()).unwrap();

    ensure_planned_at(&r).unwrap();
    let mut planned = read_planned_at(&r).unwrap();
    planned.nodes.push(mk_node("a", "A", None));
    planned.nodes.push(mk_node("b", "B", None));
    planned.links.push(Link {
        id: "l1".into(),
        src: "a".into(),
        dst: "b".into(),
        label: "calls".into(),
        method: None,
    });
    write_planned_at(&r, &planned).unwrap();

    commit_element(&r, ElementKind::Node, None, "a").unwrap();
    commit_ready_dependents(&r, "a").unwrap();
    assert!(
        !read_model_at(&r)
            .unwrap()
            .links
            .iter()
            .any(|l| l.id == "l1"),
        "link waits until both endpoints are committed"
    );

    commit_element(&r, ElementKind::Node, None, "b").unwrap();
    commit_ready_dependents(&r, "b").unwrap();
    assert!(
        read_model_at(&r)
            .unwrap()
            .links
            .iter()
            .any(|l| l.id == "l1"),
        "link folded once its second endpoint committed"
    );
    assert!(
        plan_diff_at(&r).unwrap().is_empty(),
        "CLOSE loop terminates"
    );
}

#[test]
fn ready_group_folds_and_cleans_its_responsibilities() {
    let r = Store::new();
    let mut m = ScryModel::new();
    m.nodes.push(mk_node("a", "A", None));
    write_model_at(&r, &m).unwrap();

    ensure_planned_at(&r).unwrap();
    let mut planned = read_planned_at(&r).unwrap();
    let mut claim = mk_resp("g-resp", "both surfaces deploy as one app");
    claim.stale = Some(true);
    let mut vagrant = mk_resp("g-vagrant", "drift-discovered claim");
    vagrant.vagrant = Some(true);
    planned.groups.push(Group {
        id: "grp".into(),
        name: "Payload".into(),
        description: None,
        member_ids: vec!["a".into()],
        parent_group_id: None,
        parent_node_id: None,
        responsibilities: vec![claim, vagrant],
        icon: None,
    });
    planned.source_map.insert(
        "g-resp".into(),
        vec![loc("app/deploy.ts", Some("deploy"))],
    );
    write_planned_at(&r, &planned).unwrap();

    commit_element(&r, ElementKind::Node, None, "a").unwrap();
    commit_ready_dependents(&r, "a").unwrap();

    let model = read_model_at(&r).unwrap();
    let g = model
        .groups
        .iter()
        .find(|g| g.id == "grp")
        .expect("group folded in");
    let folded = g
        .responsibilities
        .iter()
        .find(|x| x.id == "g-resp")
        .unwrap();
    assert_eq!(folded.stale, None, "stale cleared on the folded claim");
    assert!(
        !g.responsibilities.iter().any(|x| x.id == "g-vagrant"),
        "vagrant claim did not bypass review into committed"
    );
    assert_eq!(
        model
            .source_map
            .get("g-resp")
            .expect("anchor carried across")[0]
            .pattern,
        "app/deploy.ts"
    );

    let plan = read_planned_at(&r).unwrap();
    let pg = plan.groups.iter().find(|g| g.id == "grp").unwrap();
    assert!(
        pg.responsibilities
            .iter()
            .any(|x| x.id == "g-vagrant" && x.vagrant == Some(true)),
        "vagrant group claim still pending in the plan"
    );
}

#[test]
fn commit_folds_chain_and_carries_source_anchor() {
    let r = Store::new();

    let mut m = ScryModel::new();
    m.nodes.push(kinded(Kind::Container, "c", "API", None, &[]));
    write_model_at(&r, &m).unwrap();

    let mut planned = m.clone();
    planned.nodes.push(kinded(Kind::Component, "comp", "Admin", Some("c"), &[]));
    planned.nodes.push(kinded(Kind::Symbol, "sym", "admin_handler", Some("comp"), &[("r1", "exposes admin endpoint")]));
    planned.source_map.insert(
        "r1".into(),
        vec![loc("api/admin.rs", Some("admin_handler"))],
    );
    write_planned_at(&r, &planned).unwrap();

    commit_element(&r, ElementKind::Node, None, "comp").unwrap();
    commit_element(&r, ElementKind::Node, None, "sym").unwrap();
    commit_element(&r, ElementKind::Responsibility, None, "r1").unwrap();

    let model = read_model_at(&r).unwrap();
    assert!(
        model.nodes.iter().any(|n| n.id == "comp"),
        "component folded in"
    );
    let sym = model
        .nodes
        .iter()
        .find(|n| n.id == "sym")
        .expect("symbol folded in");
    assert!(
        sym.responsibilities.iter().any(|x| x.id == "r1"),
        "claim on the symbol"
    );
    assert_eq!(
        model
            .source_map
            .get("r1")
            .expect("anchor carried into committed")[0]
            .pattern,
        "api/admin.rs"
    );
    assert!(
        plan_diff_at(&r).unwrap().is_empty(),
        "plan and model agree after the fold"
    );
}

#[test]
fn fold_keeps_committed_anchor_when_draft_does_not_carry_it() {
    let r = Store::new();

    let mut m = ScryModel::new();
    m.nodes.push(kinded(Kind::Symbol, "sym", "h", None, &[("r1", "old wording")]));
    m.source_map.insert(
        "r1".into(),
        vec![loc("src/h.rs", Some("h"))],
    );
    write_model_at(&r, &m).unwrap();

    let mut planned = m.clone();
    planned.source_map = StrMap::new();
    for n in &mut planned.nodes {
        for resp in &mut n.responsibilities {
            if resp.id == "r1" {
                resp.statement = "new wording".into();
            }
        }
    }
    write_planned_at(&r, &planned).unwrap();

    commit_element(&r, ElementKind::Responsibility, None, "r1").unwrap();

    let model = read_model_at(&r).unwrap();
    let resp = model
        .nodes
        .iter()
        .flat_map(|n| &n.responsibilities)
        .find(|x| x.id == "r1")
        .expect("claim still committed");
    assert_eq!(resp.statement, "new wording", "the reword folded in");
    assert_eq!(
        model
            .source_map
            .get("r1")
            .expect("committed anchor preserved")[0]
            .pattern,
        "src/h.rs",
        "folding the reword must not unanchor the committed claim"
    );
}

#[test]
fn commit_node_deletion_gcs_responsibility_anchors() {
    let r = Store::new();

    let mut m = ScryModel::new();
    m.nodes.push(kinded(Kind::Container, "c", "API", None, &[]));
    m.nodes.push(kinded(Kind::Symbol, "sym", "admin_handler", Some("c"), &[("r1", "exposes admin endpoint")]));
    let loc = |p: &str| vec![loc(p, None)];
    m.source_map.insert("sym".into(), loc("api/admin.rs")); // the node's decl anchor
    m.source_map.insert("r1".into(), loc("api/admin.rs")); // the claim's anchor
    write_model_at(&r, &m).unwrap();

    let mut planned = m.clone();
    planned.nodes.retain(|n| n.id != "sym");
    write_planned_at(&r, &planned).unwrap();

    commit_element(&r, ElementKind::Node, None, "sym").unwrap();

    let model = read_model_at(&r).unwrap();
    assert!(!model.nodes.iter().any(|n| n.id == "sym"), "symbol deleted");
    assert!(!model.source_map.contains_key("sym"), "node anchor GC'd");
    assert!(
        !model.source_map.contains_key("r1"),
        "the deleted node's responsibility anchor must not be left orphaned"
    );
}

#[test]
fn a_withheld_claim_stays_in_the_plan() {
    let mut committed = ScryModel::new();
    let mut planned = ScryModel::new();
    let mut n = mk_node("n", "N", None);
    n.responsibilities.push(mk_resp("r1", "built"));
    n.responsibilities.push(mk_resp("r2", "not yet"));
    planned.nodes.push(n);
    commit_element_withholding(
        &mut committed,
        &mut planned,
        ElementKind::Node,
        None,
        "n",
        &vec!["r2".to_string()],
    )
    .unwrap();
    let ids: Vec<&str> =
        committed.nodes[0].responsibilities.iter().map(|r| r.id.as_str()).collect();
    assert_eq!(ids, vec!["r1"]);
    assert_eq!(planned.nodes[0].responsibilities.len(), 2);
}

#[test]
fn the_plan_wins_in_the_working_view_and_committed_fills_the_gaps() {
    let mut committed = ScryModel::new();
    committed.nodes.push(mk_node("a", "Old", None));
    committed.source_map.insert("r1".into(), vec![loc("old.rs", None)]);
    committed.source_map.insert("r2".into(), vec![loc("kept.rs", None)]);
    let mut planned = ScryModel::new();
    planned.nodes.push(mk_node("a", "New", None));
    planned.source_map.insert("r1".into(), vec![loc("new.rs", None)]);
    let w = working_view(&committed, &planned);
    assert_eq!(w.nodes[0].name, "New");
    assert_eq!(w.source_map.get("r1").unwrap()[0].pattern, "new.rs");
    assert_eq!(w.source_map.get("r2").unwrap()[0].pattern, "kept.rs");
}

#[test]
fn folding_what_is_nowhere_is_refused() {
    let r = Store::new();
    write_model_at(&r, &ScryModel::new()).unwrap();
    for kind in [
        ElementKind::Link,
        ElementKind::Group,
        ElementKind::Responsibility,
        ElementKind::Node,
    ] {
        let done = commit_element(&r, kind, None, "ghost");
        assert_eq!(read_model_at(&r).unwrap(), ScryModel::new(), "{kind:?} {done:?}");
    }
    assert!(commit_element(&r, ElementKind::Property, Some("ghost"), "x").is_err());
}

#[test]
fn an_adopted_claim_loses_where_it_came_from() {
    let mut committed = ScryModel::new();
    committed.nodes.push(mk_node("a", "A", None));
    let mut planned = committed.clone();
    let mut x = mk_resp("resp-1", "do the thing");
    x.vagrant = Some(true);
    x.vagrant_origin = Some("amendment".into());
    planned.nodes[0].responsibilities.push(x);
    fold_element(&mut committed, &mut planned, ElementKind::Responsibility, None, "resp-1")
        .unwrap();
    for m in [&committed, &planned] {
        let c = &m.nodes[0].responsibilities[0];
        assert!(c.vagrant.is_none() && c.vagrant_origin.is_none());
    }
}

#[test]
fn a_claim_that_is_no_vagrant_keeps_where_it_came_from() {
    let mut committed = ScryModel::new();
    committed.nodes.push(mk_node("a", "A", None));
    let mut planned = committed.clone();
    let mut x = mk_resp("resp-1", "do the thing");
    x.vagrant_origin = Some("amendment".into());
    planned.nodes[0].responsibilities.push(x);
    fold_element(&mut committed, &mut planned, ElementKind::Responsibility, None, "resp-1")
        .unwrap();
    let c = &committed.nodes[0].responsibilities[0];
    assert_eq!(c.vagrant_origin.as_deref(), Some("amendment"));
}

#[test]
fn a_link_that_is_set_aside_does_not_ride_along() {
    let mut committed = ScryModel::new();
    committed.nodes.push(mk_node("a", "A", None));
    committed.nodes.push(mk_node("b", "B", None));
    let mut planned = committed.clone();
    planned.links.push(Link {
        id: "l1".into(),
        src: "a".into(),
        dst: "b".into(),
        label: "calls".into(),
        method: None,
    });
    let (mut c, mut p) = (committed.clone(), planned.clone());
    let aside = vec!["link:l1".to_string()];
    let swept = commit_ready_dependents_without(&mut c, &mut p, "a", &aside);
    assert!(swept.failed.is_none());
    assert!(c.links.is_empty());
    let swept = commit_ready_dependents_without(&mut c, &mut p, "a", &Vec::new());
    assert!(swept.failed.is_none());
    assert_eq!(c.links.len(), 1);
}
