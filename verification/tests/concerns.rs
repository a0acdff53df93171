use scryer_core::concerns::{
    kebab, normalize_slug, register_concerns, sync_concern_metadata, ConcernDef, STANDARD_CONCERNS,
};
use scryer_core::{Kind, Node, Responsibility, ScryModel};

fn resp(id: &str, concern: Option<&str>) -> Responsibility {
    Responsibility {
        id: id.into(),
        statement: "does a thing".into(),
        title: None,
        cites: Vec::new(),
        concern: concern.map(Into::into),
        vagrant: None,
        stale: None,
        stale_proposal: None,
        directives: Vec::new(),
        last_touched_at: None,
        vagrant_origin: None,
        approved_statement: None,
    }
}

fn model_with(resps: Vec<Responsibility>) -> ScryModel {
    let mut m = ScryModel::default();
    m.nodes.push(Node {
        id: "n1".into(),
        kind: Kind::Component,
        name: "N".into(),
        parent_id: None,
        external: None,
        technology: None,
        description: None,
        vagrant: None,
        stale: None,
        responsibilities: resps,
        properties: Vec::new(),
        icon: None,
        notes: None,
        position: None,
        directives: Vec::new(),
    });
    m
}

#[test]
fn normalize_slug_kebabs_and_collapses() {
    assert_eq!(normalize_slug("Auth"), "auth");
    assert_eq!(normalize_slug("Failure  Handling"), "failure-handling");
    assert_eq!(normalize_slug("--rate__limiting--"), "rate-limiting");
    assert_eq!(normalize_slug("  "), "");
}

#[test]
fn register_mints_entries_seeding_standards_and_normalizes_tags() {
    let mut m = model_with(vec![
        resp("r1", Some("Auth")),
        resp("r2", Some("session-windows")),
        resp("r3", None),
        resp("r4", Some("!!")), // normalizes to empty → cleared
    ]);
    register_concerns(&mut m);

    let node = &m.nodes[0];
    assert_eq!(node.responsibilities[0].concern.as_deref(), Some("auth"));
    assert_eq!(node.responsibilities[3].concern, None);

    let auth = m.concerns.iter().find(|c| c.slug == "auth").unwrap();
    assert_eq!(auth.icon.as_deref(), Some("Shield"));
    assert!(auth.description.is_some());
    let custom = m
        .concerns
        .iter()
        .find(|c| c.slug == "session-windows")
        .unwrap();
    assert_eq!(custom.icon, None);
    assert_eq!(
        m.concerns
            .iter()
            .map(|c| c.slug.as_str())
            .collect::<Vec<_>>(),
        vec!["auth", "session-windows"]
    );
}

#[test]
fn sync_writes_tags_and_registry_through_to_committed() {
    let mut committed = model_with(vec![resp("r1", None), resp("r2", Some("auth"))]);
    let mut planned = model_with(vec![resp("r1", Some("auth")), resp("r2", None)]);
    planned.nodes[0]
        .responsibilities
        .push(resp("r3", Some("persistence")));
    register_concerns(&mut planned);

    assert!(sync_concern_metadata(&mut committed, &planned));
    let rs = &committed.nodes[0].responsibilities;
    assert_eq!(rs[0].concern.as_deref(), Some("auth")); // tagged through
    assert_eq!(rs[1].concern, None); // untagged through
    assert_eq!(committed.concerns, planned.concerns); // registry copied

    assert!(!sync_concern_metadata(&mut committed, &planned));
}

#[test]
fn register_never_touches_existing_entries_or_prunes_unused() {
    let mut m = model_with(vec![resp("r1", Some("auth"))]);
    m.concerns.push(ConcernDef {
        slug: "auth".into(),
        description: Some("user-curated wording".into()),
        icon: Some("Lock".into()),
    });
    m.concerns.push(ConcernDef {
        slug: "unused".into(),
        description: None,
        icon: None,
    });
    register_concerns(&mut m);

    let auth = m.concerns.iter().find(|c| c.slug == "auth").unwrap();
    assert_eq!(auth.description.as_deref(), Some("user-curated wording"));
    assert_eq!(auth.icon.as_deref(), Some("Lock"));
    assert!(m.concerns.iter().any(|c| c.slug == "unused"));
}

#[test]
fn kebab_joins_letters_with_single_hyphens() {
    let l = |s: &str| Some(s.to_string());
    assert_eq!(kebab(&vec![None, l("a"), None, None, l("b"), l("c"), None]), "a-bc");
    assert_eq!(kebab(&vec![None, None]), "");
    assert_eq!(kebab(&Vec::new()), "");
}

#[test]
fn slugs_are_read_beyond_ascii() {
    assert_eq!(normalize_slug("Größe & Maß"), "größe-maß");
    assert_eq!(normalize_slug("İstanbul"), "i\u{307}stanbul");
    assert_eq!(normalize_slug(&normalize_slug("Rate  Limiting!")), "rate-limiting");
}

#[test]
fn every_standard_concern_is_its_own_slug_and_decorates() {
    for row in STANDARD_CONCERNS {
        assert_eq!(normalize_slug(row.0), row.0);
        let mut m = model_with(vec![resp("r1", Some(row.0))]);
        register_concerns(&mut m);
        assert_eq!(m.concerns.len(), 1);
        assert_eq!(m.concerns[0].description.as_deref(), Some(row.1));
        assert_eq!(m.concerns[0].icon.as_deref(), Some(row.2));
    }
}

#[test]
fn registering_twice_changes_nothing_more() {
    let mut m = model_with(vec![resp("r1", Some("Zeta")), resp("r2", Some("alpha beta"))]);
    register_concerns(&mut m);
    let once = m.clone();
    register_concerns(&mut m);
    assert_eq!(m, once);
    assert_eq!(
        m.concerns.iter().map(|c| c.slug.as_str()).collect::<Vec<_>>(),
        vec!["alpha-beta", "zeta"]
    );
}

#[test]
fn registering_twice_changes_nothing() {
    let mut m = model_with(vec![
        resp("r1", Some("Failure  Handling")),
        resp("r2", Some("--Odd__Tag--")),
        resp("r3", Some("!!!")),
        resp("r4", None),
    ]);
    register_concerns(&mut m);
    let once = m.clone();
    register_concerns(&mut m);
    assert_eq!(m, once);
    assert_eq!(m.nodes[0].responsibilities[1].concern.as_deref(), Some("odd-tag"));
    assert_eq!(m.nodes[0].responsibilities[2].concern, None);
}
