use scryer_core::locate::{locate, locate_at, pattern_covers};
use scryer_core::ownership::{
    node_ancestry, node_depth, owning_node_for_location, pattern_rank, BoundaryOwnership,
};
use scryer_core::{Kind, Node, Responsibility, ScryModel, Source, SourceLocation};

fn node(
    id: &str,
    kind: &str,
    name: &str,
    parent: Option<&str>,
    resp: &[(&str, &str)],
) -> Node {
    Node {
        id: id.into(),
        kind: match kind {
            "system" => Kind::System,
            "container" => Kind::Container,
            "component" => Kind::Component,
            _ => Kind::Symbol,
        },
        name: name.into(),
        parent_id: parent.map(Into::into),
        external: None,
        technology: None,
        description: None,
        vagrant: None,
        stale: None,
        responsibilities: resp.iter().map(|(id, s)| claim(id, s)).collect(),
        properties: Vec::new(),
        icon: None,
        notes: None,
        position: None,
        directives: Vec::new(),
    }
}

fn claim(id: &str, statement: &str) -> Responsibility {
    Responsibility {
        id: id.into(),
        title: None,
        statement: statement.into(),
        concern: None,
        cites: Vec::new(),
        vagrant: None,
        vagrant_origin: None,
        approved_statement: None,
        stale: None,
        stale_proposal: None,
        directives: Vec::new(),
        last_touched_at: None,
    }
}

fn loc(file: &str, symbol: Option<&str>) -> SourceLocation {
    SourceLocation {
        pattern: file.into(),
        symbol: symbol.map(Into::into),
        line: None,
        end_line: None,
    }
}

fn model() -> ScryModel {
    let mut m = ScryModel::new();
    m.nodes.push(node("sys", "system", "Acme", None, &[]));
    m.nodes
        .push(node("api", "container", "API", Some("sys"), &[]));
    m.nodes
        .push(node("auth", "component", "Auth", Some("api"), &[]));
    m.nodes.push(node(
        "vt",
        "symbol",
        "verify_token",
        Some("auth"),
        &[("r-vt", "rejects forged credentials")],
    ));
    m.nodes.push(node(
        "hp",
        "symbol",
        "hash_password",
        Some("auth"),
        &[("r-hp", "stores only salted hashes")],
    ));
    m.source_map.insert(
        "r-vt".into(),
        vec![loc("src/auth.rs", Some("verify_token"))],
    );
    m.source_map.insert(
        "r-hp".into(),
        vec![loc("src/auth.rs", Some("hash_password"))],
    );
    m.boundaries.insert(
        "api".into(),
        vec![Source { pattern: "src/**/*".into(), comment: None }],
    );
    m
}

#[test]
fn file_lookup_returns_all_claims_and_the_common_ancestor_chain() {
    let res = locate(&model(), "src/auth.rs", None);
    assert_eq!(res.claims.len(), 2);
    let ids: Vec<&str> = res.owner_chain.iter().map(|o| o.id.as_str()).collect();
    assert_eq!(ids, ["auth", "api", "sys"]);
    assert_eq!(
        res.boundary_owner.as_ref().map(|o| o.id.as_str()),
        Some("api")
    );
    assert!(!res.symbol_matched);
}

#[test]
fn symbol_narrows_claims_and_chain() {
    let res = locate(&model(), "src/auth.rs", Some("verify_token"));
    assert!(res.symbol_matched);
    assert_eq!(res.claims.len(), 1);
    assert_eq!(res.claims[0].id, "r-vt");
    assert_eq!(res.owner_chain[0].id, "vt");
}

#[test]
fn unknown_symbol_falls_back_to_whole_file_claims() {
    let res = locate(&model(), "src/auth.rs", Some("no_such_fn"));
    assert!(!res.symbol_matched);
    assert_eq!(res.claims.len(), 2);
}

#[test]
fn unanchored_file_reports_only_the_boundary_owner() {
    let res = locate(&model(), "src/dark.rs", None);
    assert!(res.claims.is_empty());
    assert_eq!(
        res.boundary_owner.as_ref().map(|o| o.id.as_str()),
        Some("api")
    );
    assert_eq!(res.owner_chain[0].id, "api");
}

#[test]
fn unowned_file_returns_empty() {
    let res = locate(&model(), "docs/readme.md", None);
    assert!(res.claims.is_empty());
    assert!(res.boundary_owner.is_none());
    assert!(res.owner_chain.is_empty());
}

#[test]
fn glob_anchor_is_found_from_a_covered_file() {
    let mut m = model();
    m.source_map.insert(
        "r-vt".into(),
        vec![loc("src/auth/**/*.rs", Some("verify_token"))],
    );
    let res = locate(&m, "src/auth/token.rs", None);
    assert_eq!(res.claims.len(), 1);
    assert_eq!(res.claims[0].id, "r-vt");
}

#[test]
fn test_entries_ride_claims_and_reverse_from_the_test_file() {
    let mut m = model();
    m.test_map.insert(
        "r-vt".into(),
        vec![loc("tests/auth.rs", Some("forged_token_rejected"))],
    );

    let res = locate(&m, "src/auth.rs", None);
    let vt = res.claims.iter().find(|c| c.id == "r-vt").unwrap();
    assert_eq!(vt.tests.len(), 1, "attached test rides the claim");
    assert!(!vt.via_test, "matched via its implementation anchor");
    let hp = res.claims.iter().find(|c| c.id == "r-hp").unwrap();
    assert!(hp.tests.is_empty());

    let res = locate(&m, "tests/auth.rs", None);
    assert_eq!(
        res.claims.len(),
        1,
        "the test file locates the claim it backs"
    );
    assert_eq!(res.claims[0].id, "r-vt");
    assert!(res.claims[0].via_test);
    assert_eq!(res.claims[0].anchor.pattern, "tests/auth.rs");
}

#[test]
fn testable_claim_without_a_test_is_flagged_untested() {
    let mut m = model();
    m.nodes
        .iter_mut()
        .find(|n| n.id == "vt")
        .unwrap()
        .responsibilities[0]
        .statement = "**If** the token is forged, **then** reject the request".into();

    let res = locate(&m, "src/auth.rs", None);
    let vt = res.claims.iter().find(|c| c.id == "r-vt").unwrap();
    assert!(vt.untested, "testable form + no test attached = untested");
    let hp = res.claims.iter().find(|c| c.id == "r-hp").unwrap();
    assert!(!hp.untested, "a ubiquitous claim is never flagged");

    m.test_map.insert(
        "r-vt".into(),
        vec![loc("tests/auth.rs", Some("forged_rejected"))],
    );
    let res = locate(&m, "src/auth.rs", None);
    let vt = res.claims.iter().find(|c| c.id == "r-vt").unwrap();
    assert!(!vt.untested, "attaching the test clears the flag");
}

#[test]
fn directives_come_from_the_finest_node_and_its_ancestry() {
    let mut m = model();
    m.nodes
        .iter_mut()
        .find(|n| n.id == "auth")
        .unwrap()
        .directives = vec!["must never log tokens".into()];
    m.nodes
        .iter_mut()
        .find(|n| n.id == "api")
        .unwrap()
        .directives = vec!["must stay stateless".into()];
    let res = locate(&m, "src/auth.rs", None);
    assert_eq!(
        res.own_directives,
        vec!["must never log tokens".to_string()]
    );
    assert_eq!(res.inherited_directives.len(), 1);
    assert_eq!(res.inherited_directives[0].node_id, "api");
}

#[test]
fn the_report_scopes_the_plan_to_what_was_located() {
    let committed = model();
    let mut planned = model();
    planned.source_map = scryer_core::strmap::StrMap::new();
    planned.boundaries = scryer_core::strmap::StrMap::new();
    planned.nodes[3].responsibilities[0].statement = "rejects forged tokens".into();
    planned.nodes.push(node("web", "container", "Web", Some("sys"), &[]));

    let rep = locate_at(&committed, &planned, "src/auth.rs", None);
    assert_eq!(rep.path.as_deref(), Some("Acme / API / Auth"));
    assert_eq!(
        rep.pending.iter().map(|c| c.id.as_str()).collect::<Vec<_>>(),
        vec!["r-vt"],
        "the new container is elsewhere"
    );
    assert_eq!(rep.result.claims.len(), 2, "the committed anchors are seen");

    let none = locate_at(&committed, &planned, "docs/readme.md", None);
    assert!(none.path.is_none() && none.pending.is_empty());
}

#[test]
fn a_malformed_pattern_covers_itself_alone() {
    assert!(pattern_covers("src/a.rs", "src/a.rs"));
    assert!(pattern_covers("src/*.rs", "src/a.rs"));
    assert!(!pattern_covers("src/*.rs", "lib/a.rs"));
    assert!(pattern_covers("src/***", "src/***"));
    assert!(!pattern_covers("src/***", "src/a.rs"));
}

#[test]
fn the_more_literal_pattern_ranks_higher() {
    assert_eq!(pattern_rank("**/*"), (0, 4));
    assert_eq!(pattern_rank("a/**/*"), (2, 6));
    assert_eq!(pattern_rank("src/a.rs"), (8, 8));
}

#[test]
fn ties_are_owned_by_both_and_a_ghost_owns_nothing() {
    let mut m = model();
    m.boundaries.insert("sys".into(), vec![Source { pattern: "src/**/*".into(), comment: None }]);
    m.boundaries.insert("ghost".into(), vec![Source { pattern: "src/au*".into(), comment: None }]);
    let o = BoundaryOwnership::new(&m);
    assert!(o.owns("api", "src/auth.rs") && o.owns("sys", "src/auth.rs"));
    assert!(!o.owns("ghost", "src/auth.rs"));
    // The deeper of the two is the owner.
    let res = locate(&m, "src/dark.rs", None);
    assert_eq!(res.boundary_owner.unwrap().id, "api");
}

#[test]
fn lineage_and_depth_follow_the_parents() {
    let m = model();
    assert_eq!(node_ancestry(&m, "vt"), vec!["vt", "auth", "api", "sys"]);
    assert_eq!(node_depth(&m, "vt"), 3);
    assert_eq!(node_depth(&m, "nobody"), 0);
    assert_eq!(owning_node_for_location(&m, "x", "src/auth.rs", Some("hash_password")), "hp");
    assert_eq!(owning_node_for_location(&m, "x", "src/none.rs", None), "x");
}
