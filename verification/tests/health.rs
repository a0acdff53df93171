use scryer_core::health::{
    compute_completeness, compute_health, disconnected_nodes, is_structural, resolve_completeness,
    AnchorFacts,
};
use scryer_core::strmap::StrMap;
use scryer_core::strset::StrSet;
use scryer_core::{
    Group, Kind, Link, Node, Responsibility, SchemaProperty, ScryModel, Source, SourceLocation,
};

fn set(items: &[&str]) -> StrSet {
    StrSet::of(&items.iter().map(|s| s.to_string()).collect())
}

fn node(id: &str, kind: Kind, parent: Option<&str>) -> Node {
    Node {
        id: id.into(),
        kind,
        name: id.into(),
        vagrant: None,
        stale: None,
        parent_id: parent.map(Into::into),
        external: None,
        technology: None,
        description: None,
        responsibilities: Vec::new(),
        properties: Vec::new(),
        icon: None,
        notes: None,
        position: None,
        directives: Vec::new(),
    }
}

fn resp(id: &str) -> Responsibility {
    Responsibility {
        title: None,
        cites: Vec::new(),
        concern: None,
        id: id.into(),
        statement: format!("does {id}"),
        vagrant: None,
        stale: None,
        stale_proposal: None,
        directives: Vec::new(),
        last_touched_at: Some(100),
        vagrant_origin: None,
        approved_statement: None,
    }
}

fn loc(file: &str) -> SourceLocation {
    SourceLocation {
        pattern: file.into(),
        symbol: Some("f".into()),
        line: Some(10),
        end_line: Some(20),
    }
}

#[test]
fn resolve_completeness_counts_a_committed_containers_box() {
    let mut model = ScryModel::new();
    let mut api = node("api", Kind::Container, None);
    api.responsibilities.push(resp("r1"));
    model.nodes.push(api);
    model.boundaries.insert(
        "api".into(),
        vec![Source {
            pattern: "api/**".into(),
            comment: None,
        }],
    );

    let mut planned = model.clone();
    planned.boundaries = StrMap::new();

    let files = set(&["api/handler.rs"]);
    let comp = resolve_completeness(&model, &planned, &files, &Vec::new());

    let c = comp.get("api").unwrap();
    assert_eq!(c.total, 2, "box + leaf claim both counted");
    assert_eq!(c.anchored, 1, "the box owns a file; the claim is unbuilt");
    assert_eq!(c.pct, Some(50));
}

#[test]
fn resolve_completeness_kills_plan_anchors_into_missing_files() {
    let model = ScryModel::new();

    let mut planned = ScryModel::new();
    let mut agent = node("agent", Kind::Component, None);
    agent.responsibilities.push(resp("r-real"));
    agent.responsibilities.push(resp("r-fake"));
    planned.nodes.push(agent);
    planned
        .source_map
        .insert("r-real".into(), vec![loc("agent/agent.py")]);
    planned
        .source_map
        .insert("r-fake".into(), vec![loc("agent/openers.py")]);

    let files = set(&["agent/agent.py"]);
    let comp = resolve_completeness(&model, &planned, &files, &Vec::new());

    let c = comp.get("agent").unwrap();
    assert_eq!(c.total, 2);
    assert_eq!(c.anchored, 1, "only the anchor whose file exists counts");
    assert_eq!(c.pct, Some(50));
}

#[test]
fn tested_counts_and_rolls_up_independent_of_anchorability() {
    let mut m = ScryModel::new();
    let mut sys = node("sys", Kind::System, None);
    sys.responsibilities.push(resp("r-struct")); // structural: sys has a child
    m.nodes.push(sys);
    let mut leaf = node("leaf", Kind::Component, Some("sys"));
    leaf.responsibilities.push(resp("r-tested"));
    leaf.responsibilities.push(resp("r-untested"));
    m.nodes.push(leaf);
    m.test_map
        .insert("r-struct".into(), vec![loc("tests/integration.rs")]);
    m.test_map
        .insert("r-tested".into(), vec![loc("tests/unit.rs")]);
    m.test_map.insert("r-empty".into(), Vec::new()); // dangling/empty: never counts

    let h = compute_health(&m, None, None);
    assert_eq!(
        h.nodes.get("leaf").unwrap().own.tested, 1,
        "the tested leaf claim counts"
    );
    assert_eq!(
        h.nodes.get("sys").unwrap().own.tested, 1,
        "a structural claim's integration test counts even though it is not anchorable"
    );
    assert_eq!(
        h.nodes.get("sys").unwrap().subtree.tested, 2,
        "tested rolls up post-order"
    );
    assert_eq!(h.totals.tested, 2);
    assert_eq!(
        h.totals.anchored, 0,
        "test attachment is a separate dimension from anchoring"
    );
}

#[test]
fn testable_claims_without_attached_tests_read_as_untested() {
    let mut m = ScryModel::new();
    let mut api = node("api", Kind::Component, None);
    let mut tested = resp("r-tested");
    tested.statement = "**When** a callback arrives, **append** an event".into();
    let mut untested = resp("r-untested");
    untested.statement = "If the signature is invalid, then reject the request".into();
    let mut plain = resp("r-plain");
    plain.statement = "Authenticate every inbound POST".into();
    api.responsibilities.extend([tested, untested, plain]);
    m.nodes.push(api);
    let mut visitor = node("visitor", Kind::Person, None);
    let mut actor_claim = resp("r-actor");
    actor_claim.statement = "When curious, opens the chat".into();
    visitor.responsibilities.push(actor_claim);
    m.nodes.push(visitor);
    m.test_map
        .insert("r-tested".into(), vec![loc("tests/webhook.rs")]);

    let h = compute_health(&m, None, None);
    let own = &h.nodes.get("api").unwrap().own;
    assert_eq!(
        own.testable, 2,
        "the When and If claims; the ubiquitous one needs judgment"
    );
    assert_eq!(own.untested, 1, "only the If claim lacks a attached test");
    assert_eq!(
        h.nodes.get("visitor").unwrap().own.testable, 0,
        "a person's claims are never code-backed"
    );
    assert_eq!(h.totals.testable, 2);
    assert_eq!(h.totals.untested, 1);
}

#[test]
fn structural_responsibilities_are_never_unmapped() {
    let mut m = ScryModel::new();
    let mut sys = node("sys", Kind::System, None);
    sys.responsibilities.push(resp("r-sys"));
    m.nodes.push(sys);
    let mut leaf = node("leaf", Kind::Symbol, Some("sys"));
    leaf.responsibilities.push(resp("r-leaf"));
    m.nodes.push(leaf);

    let h = compute_health(&m, None, None);
    let sys_h = h.nodes.get("sys").unwrap();
    assert_eq!(
        sys_h.own.anchorable, 0,
        "system claims discharge structurally"
    );
    assert_eq!(sys_h.own.unmapped, 0);
    assert_eq!(h.nodes.get("leaf").unwrap().own.unmapped, 1);
    assert_eq!(sys_h.subtree.unmapped, 1);
    assert_eq!(sys_h.subtree.responsibilities, 2);
}

#[test]
fn planned_children_make_a_node_structural() {
    let mut m = ScryModel::new();
    let mut container = node("box", Kind::Container, None);
    container.responsibilities.push(resp("r-box"));
    m.nodes.push(container);

    let h = compute_health(&m, None, None);
    assert_eq!(h.nodes.get("box").unwrap().own.unmapped, 1);

    let mut planned = m.clone();
    planned
        .nodes
        .push(node("kid", Kind::Component, Some("box")));
    let h = compute_health(&m, Some(&planned), None);
    assert_eq!(h.nodes.get("box").unwrap().own.anchorable, 0);
    assert_eq!(h.nodes.get("box").unwrap().own.unmapped, 0);
}

#[test]
fn cycle_trapped_nodes_count_in_totals() {
    let mut m = ScryModel::new();
    let mut a = node("a", Kind::Component, Some("b"));
    a.responsibilities.push(resp("r-a"));
    m.nodes.push(a);
    let mut b = node("b", Kind::Component, Some("a"));
    b.responsibilities.push(resp("r-b"));
    m.nodes.push(b);

    let h = compute_health(&m, None, None);
    assert_eq!(
        h.totals.responsibilities, 2,
        "cycle-trapped claims reach the totals"
    );
}

#[test]
fn person_responsibilities_are_never_unmapped() {
    let mut m = ScryModel::new();
    let mut dev = node("dev", Kind::Person, None);
    dev.responsibilities.push(resp("r-1"));
    dev.responsibilities.push(resp("r-2"));
    m.nodes.push(dev);

    let h = compute_health(&m, None, None);
    let dev_h = h.nodes.get("dev").unwrap();
    assert_eq!(
        dev_h.own.anchorable, 0,
        "a person's claims are not code-backed"
    );
    assert_eq!(dev_h.own.unmapped, 0);
    assert_eq!(dev_h.own.responsibilities, 2);
}

#[test]
fn leaf_coverage_counts_anchors() {
    let mut m = ScryModel::new();
    m.nodes.push(node("c", Kind::Component, None));
    let mut a = node("a", Kind::Symbol, Some("c"));
    a.responsibilities.push(resp("r-a"));
    m.nodes.push(a);
    let mut b = node("b", Kind::Symbol, Some("c"));
    b.responsibilities.push(resp("r-b"));
    m.nodes.push(b);
    m.source_map.insert("r-a".into(), vec![loc("src/a.ts")]);

    let h = compute_health(&m, None, None);
    let c = h.nodes.get("c").unwrap();
    assert_eq!(c.subtree.anchorable, 2, "both committed leaf claims");
    assert_eq!(c.subtree.anchored, 1);
    assert_eq!(c.subtree.unmapped, 1, "r-b has no anchor");
}

#[test]
fn data_shape_is_one_claim() {
    let mut m = ScryModel::new();
    let mut shape = node("shape", Kind::Symbol, None);
    shape.properties.push(SchemaProperty {
        label: "field".into(),
        description: String::new(),
        vagrant: None,
        stale: None,
        last_touched_at: Some(50),
    });
    m.nodes.push(shape);

    let h = compute_health(&m, None, None);
    assert_eq!(h.nodes.get("shape").unwrap().own.anchorable, 1);
    assert_eq!(h.nodes.get("shape").unwrap().own.unmapped, 1, "no definition anchor yet");

    m.source_map
        .insert("shape".into(), vec![loc("src/types.ts")]);
    let h = compute_health(&m, None, None);
    assert_eq!(h.nodes.get("shape").unwrap().own.unmapped, 0);
}

#[test]
fn boundary_dark_files() {
    let mut m = ScryModel::new();
    m.nodes.push(node("api", Kind::Container, None));
    let mut s = node("s", Kind::Symbol, Some("api"));
    s.responsibilities.push(resp("r-s"));
    m.nodes.push(s);
    m.source_map
        .insert("r-s".into(), vec![loc("api/src/handler.rs")]);
    m.boundaries.insert(
        "api".into(),
        vec![Source {
            pattern: "api/**/*".into(),
            comment: None,
        }],
    );

    let files = set(&["api/src/handler.rs", "api/src/dark.rs", "web/app.ts"]);
    let h = compute_health(&m, None, Some(&files));
    let b = h.nodes.get("api").unwrap().boundary.as_ref().expect("boundary coverage");
    assert_eq!(b.total_files, 2, "web/app.ts is outside the boundary");
    assert_eq!(b.anchored_files, 1);
    assert_eq!(b.dark_files, vec!["api/src/dark.rs".to_string()]);
}

#[test]
fn group_responsibilities_roll_into_parent_subtree() {
    let mut m = ScryModel::new();
    m.nodes.push(node("sys", Kind::System, None));
    m.nodes.push(node("c1", Kind::Container, Some("sys")));
    m.groups.push(Group {
        id: "g1".into(),
        name: "Edge".into(),
        description: None,
        member_ids: vec!["c1".into()],
        parent_group_id: None,
        parent_node_id: None,
        responsibilities: vec![resp("r-g")],
        icon: None,
    });

    let h = compute_health(&m, None, None);
    assert_eq!(h.nodes.get("sys").unwrap().subtree.responsibilities, 1);
    assert_eq!(
        h.nodes.get("sys").unwrap().subtree.anchorable, 0,
        "group claims are structural"
    );
    assert_eq!(h.totals.responsibilities, 1);
}

#[test]
fn vagrant_and_freshness_roll_up() {
    let mut m = ScryModel::new();
    m.nodes.push(node("sys", Kind::System, None));
    let mut leaf = node("leaf", Kind::Symbol, Some("sys"));
    let mut r = resp("r1");
    r.vagrant = Some(true);
    r.last_touched_at = Some(999);
    leaf.responsibilities.push(r);
    m.nodes.push(leaf);
    m.source_map.insert("r1".into(), vec![loc("src/x.ts")]);

    let h = compute_health(&m, None, None);
    assert_eq!(h.nodes.get("sys").unwrap().subtree.vagrant, 1);
    assert_eq!(h.nodes.get("sys").unwrap().subtree.last_touched_at, Some(999));
    assert_eq!(h.totals.vagrant, 1);
}

fn boundary(pattern: &str) -> Vec<Source> {
    vec![Source {
        pattern: pattern.into(),
        comment: None,
    }]
}

#[test]
fn completeness_greenfield_reads_zero() {
    let mut m = ScryModel::new();
    m.nodes.push(node("api", Kind::Container, None));
    m.boundaries.insert("api".into(), boundary("api/**/*"));
    let mut s = node("s", Kind::Symbol, Some("api"));
    s.responsibilities.push(resp("r1"));
    s.responsibilities.push(resp("r2"));
    m.nodes.push(s);

    let rb = StrSet::new();
    let la = StrSet::new();
    let comp = compute_completeness(
        &m,
        &AnchorFacts {
            real_boxes: &rb,
            live_anchors: &la,
        },
    );
    assert_eq!(comp.get("api").unwrap().total, 3);
    assert_eq!(comp.get("api").unwrap().anchored, 0);
    assert_eq!(comp.get("api").unwrap().pct, Some(0));
}

#[test]
fn completeness_scaffolded_container_is_low() {
    let mut m = ScryModel::new();
    m.nodes.push(node("api", Kind::Container, None));
    m.boundaries.insert("api".into(), boundary("api/**/*"));
    let mut s = node("s", Kind::Symbol, Some("api"));
    for r in ["r1", "r2", "r3"] {
        s.responsibilities.push(resp(r));
    }
    m.nodes.push(s);

    let rb = set(&["api"]);
    let la = StrSet::new();
    let comp = compute_completeness(
        &m,
        &AnchorFacts {
            real_boxes: &rb,
            live_anchors: &la,
        },
    );
    assert_eq!(comp.get("api").unwrap().total, 4);
    assert_eq!(comp.get("api").unwrap().anchored, 1);
    assert_eq!(comp.get("api").unwrap().leaf_total, 3);
    assert_eq!(comp.get("api").unwrap().pct, Some(25));
}

#[test]
fn completeness_all_anchored_is_hundred() {
    let mut m = ScryModel::new();
    m.nodes.push(node("api", Kind::Container, None));
    m.boundaries.insert("api".into(), boundary("api/**/*"));
    let mut s = node("s", Kind::Symbol, Some("api"));
    s.responsibilities.push(resp("r1"));
    m.nodes.push(s);

    let rb = set(&["api"]);
    let la = set(&["r1"]);
    let comp = compute_completeness(
        &m,
        &AnchorFacts {
            real_boxes: &rb,
            live_anchors: &la,
        },
    );
    assert_eq!(comp.get("api").unwrap().pct, Some(100));
}

#[test]
fn completeness_bare_box_is_unmeasured() {
    let mut m = ScryModel::new();
    m.nodes.push(node("api", Kind::Container, None));
    m.boundaries.insert("api".into(), boundary("api/**/*"));

    let rb = set(&["api"]);
    let la = StrSet::new();
    let comp = compute_completeness(
        &m,
        &AnchorFacts {
            real_boxes: &rb,
            live_anchors: &la,
        },
    );
    assert_eq!(comp.get("api").unwrap().leaf_total, 0);
    assert_eq!(comp.get("api").unwrap().anchored, 1);
    assert_eq!(comp.get("api").unwrap().total, 1);
    assert_eq!(comp.get("api").unwrap().pct, None);
}

#[test]
fn completeness_excludes_structural_own_responsibilities() {
    let mut m = ScryModel::new();
    let mut api = node("api", Kind::Container, None);
    api.responsibilities.push(resp("r-struct")); // must NOT count
    m.nodes.push(api);
    m.boundaries.insert("api".into(), boundary("api/**/*"));
    let mut s = node("s", Kind::Symbol, Some("api"));
    s.responsibilities.push(resp("r-leaf"));
    m.nodes.push(s);

    let rb = set(&["api"]);
    let la = set(&["r-leaf"]);
    let comp = compute_completeness(
        &m,
        &AnchorFacts {
            real_boxes: &rb,
            live_anchors: &la,
        },
    );
    assert_eq!(comp.get("api").unwrap().total, 2);
    assert_eq!(comp.get("api").unwrap().anchored, 2);
    assert_eq!(comp.get("api").unwrap().leaf_total, 1);
    assert_eq!(comp.get("api").unwrap().pct, Some(100));
}

#[test]
fn completeness_person_carries_no_primitives() {
    let mut m = ScryModel::new();
    let mut p = node("user", Kind::Person, None);
    p.responsibilities.push(resp("r-p"));
    m.nodes.push(p);

    let rb = StrSet::new();
    let la = StrSet::new();
    let comp = compute_completeness(
        &m,
        &AnchorFacts {
            real_boxes: &rb,
            live_anchors: &la,
        },
    );
    assert_eq!(comp.get("user").unwrap().total, 0);
    assert_eq!(comp.get("user").unwrap().pct, None);
}

#[test]
fn disconnected_flags_edgeless_arch_nodes_but_never_symbols() {
    let mut m = ScryModel::new();
    m.nodes.push(node("sys", Kind::System, None));
    m.nodes.push(node("api", Kind::Container, Some("sys")));
    m.nodes.push(node("worker", Kind::Container, Some("sys"))); // wired to nothing
    m.nodes.push(node("fn", Kind::Symbol, Some("api"))); // symbol: exempt
    m.links.push(Link {
        id: "l1".into(),
        src: "sys".into(),
        dst: "api".into(),
        label: String::new(),
        method: None,
    });

    assert_eq!(disconnected_nodes(&m), vec!["worker".to_string()]);
    assert_eq!(
        compute_health(&m, None, None).disconnected,
        vec!["worker".to_string()]
    );
}

#[test]
fn disconnected_is_empty_when_nothing_to_connect_to() {
    let mut m = ScryModel::new();
    m.nodes.push(node("solo", Kind::System, None));
    assert!(disconnected_nodes(&m).is_empty());
}

#[test]
fn a_parent_is_structural_and_a_leaf_is_not() {
    let mut m = ScryModel::new();
    m.nodes.push(node("a", Kind::Component, None));
    m.nodes.push(node("b", Kind::Symbol, Some("a")));
    assert!(is_structural(&m, "a"));
    assert!(!is_structural(&m, "b"));
}

#[test]
fn a_subtree_is_what_its_root_brings_and_its_children() {
    let mut m = ScryModel::new();
    m.nodes.push(node("sys", Kind::System, None));
    for (id, n) in [("a", 2), ("b", 3)] {
        let mut c = node(id, Kind::Component, Some("sys"));
        for k in 0..n {
            c.responsibilities.push(resp(&format!("{id}{k}")));
        }
        m.nodes.push(c);
    }
    let h = compute_health(&m, None, None);
    assert_eq!(h.nodes.get("sys").unwrap().subtree.responsibilities, 5);
    assert_eq!(h.nodes.get("sys").unwrap().own.responsibilities, 0);
    assert_eq!(h.totals.responsibilities, 5);
    assert_eq!(h.totals.unmapped, 5);
    assert!(h.nodes.get("sys").unwrap().boundary.is_none());
}

#[test]
fn a_group_without_a_host_counts_in_the_totals_only() {
    let mut m = ScryModel::new();
    m.nodes.push(node("sys", Kind::System, None));
    m.groups.push(Group {
        id: "g1".into(),
        name: "Loose".into(),
        description: None,
        member_ids: Vec::new(),
        parent_group_id: None,
        parent_node_id: Some("gone".into()),
        responsibilities: vec![resp("r-g")],
        icon: None,
    });
    let h = compute_health(&m, None, None);
    assert_eq!(h.nodes.get("sys").unwrap().subtree.responsibilities, 0);
    assert_eq!(h.totals.responsibilities, 1);
}

#[test]
fn percentages_round_to_the_nearest_halves_up() {
    let mut m = ScryModel::new();
    let mut a = node("a", Kind::Component, None);
    for k in 0..8 {
        a.responsibilities.push(resp(&format!("r{k}")));
    }
    m.nodes.push(a);
    let rb = StrSet::new();
    let pct = |n: usize| {
        let la = StrSet::of(&(0..n).map(|k| format!("r{k}")).collect());
        let facts = AnchorFacts { real_boxes: &rb, live_anchors: &la };
        compute_completeness(&m, &facts).get("a").unwrap().pct
    };
    assert_eq!(pct(0), Some(0));
    assert_eq!(pct(1), Some(13));
    assert_eq!(pct(3), Some(38));
    assert_eq!(pct(8), Some(100));
}

#[test]
fn a_nested_boundary_takes_its_files_from_the_net_around_it() {
    let mut m = ScryModel::new();
    m.nodes.push(node("root", Kind::Container, None));
    m.nodes.push(node("api", Kind::Container, Some("root")));
    m.boundaries.insert("root".into(), boundary("**/*"));
    m.boundaries.insert("api".into(), boundary("api/**/*"));
    let files = set(&["api/x.rs", "web/y.rs"]);
    let h = compute_health(&m, None, Some(&files));
    let root = h.nodes.get("root").unwrap().boundary.as_ref().unwrap();
    assert_eq!(root.dark_files, vec!["web/y.rs".to_string()]);
    let api = h.nodes.get("api").unwrap().boundary.as_ref().unwrap();
    assert_eq!((api.total_files, api.anchored_files), (1, 0));
}

#[test]
fn a_dead_anchor_does_not_count() {
    let mut planned = ScryModel::new();
    let mut n = node("a", Kind::Component, None);
    n.responsibilities.push(resp("r1"));
    planned.nodes.push(n);
    planned.source_map.insert("r1".into(), vec![loc("a.rs")]);
    let files = set(&["a.rs"]);
    let none = Vec::new();
    let live = resolve_completeness(&ScryModel::new(), &planned, &files, &none);
    assert_eq!(live.get("a").unwrap().pct, Some(100));
    let dead = vec!["r1".to_string()];
    let gone = resolve_completeness(&ScryModel::new(), &planned, &files, &dead);
    assert_eq!(gone.get("a").unwrap().pct, Some(0));
}
