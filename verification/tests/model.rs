use scryer_core::{
    directives_rendered, inherited_directives, is_node_empty, test_key, test_resp_id, Directive,
    Kind, Node, Responsibility, SchemaProperty, ScryModel,
};

fn mk_node(id: &str, name: &str, parent: Option<&str>) -> Node {
    Node {
        id: id.into(),
        kind: Kind::Component,
        name: name.into(),
        vagrant: None,
        stale: None,
        parent_id: parent.map(|s| s.into()),
        external: None,
        technology: None,
        description: None,
        responsibilities: Vec::new(),
        properties: Vec::new(),
        icon: None,
        notes: None,
        position: None,
        directives: Vec::new(),
    }
}

#[test]
fn inherited_directives_walks_ancestors_nearest_first_skipping_empty() {
    let mut m = ScryModel::default();
    let mut root = mk_node("root", "Root", None);
    root.directives = vec!["never log secrets".into()];
    let mid = mk_node("mid", "Mid", Some("root")); // no directives — skipped
    let mut leaf = mk_node("leaf", "Leaf", Some("mid"));
    leaf.directives = vec!["leaf own rule".into()]; // own, must be excluded
    m.nodes = vec![root, mid, leaf];

    let inh = inherited_directives(&m, "leaf");
    assert_eq!(inh.len(), 1);
    assert_eq!(inh[0].node_id, "root");
    assert_eq!(inh[0].directives, vec!["never log secrets".to_string()]);

    assert!(inherited_directives(&m, "root").is_empty());
}

#[test]
fn inherited_directives_orders_nearest_ancestor_first() {
    let mut m = ScryModel::default();
    let mut root = mk_node("root", "Root", None);
    root.directives = vec!["root rule".into()];
    let mut mid = mk_node("mid", "Mid", Some("root"));
    mid.directives = vec!["mid rule".into()];
    let leaf = mk_node("leaf", "Leaf", Some("mid"));
    m.nodes = vec![root, mid, leaf];

    let inh = inherited_directives(&m, "leaf");
    assert_eq!(
        inh.iter().map(|i| i.node_id.as_str()).collect::<Vec<_>>(),
        vec!["mid", "root"]
    );
}

#[test]
fn a_contentless_internal_symbol_is_empty() {
    let symbol = || {
        let mut n = mk_node("n1", "S", None);
        n.kind = Kind::Symbol;
        n
    };
    assert!(is_node_empty(&symbol()));

    let mut n = symbol();
    n.responsibilities.push(claim("r1", "does X"));
    assert!(!is_node_empty(&n));

    let mut n = symbol();
    n.properties.push(property("phone"));
    assert!(!is_node_empty(&n));

    let mut n = symbol();
    n.external = Some(true);
    assert!(!is_node_empty(&n));

    let mut n = mk_node("n1", "C", None);
    n.kind = Kind::Component;
    assert!(!is_node_empty(&n));
}

fn claim(id: &str, statement: &str) -> Responsibility {
    Responsibility {
        id: id.into(),
        title: None,
        statement: statement.into(),
        concern: None,
        cites: Vec::new(),
        vagrant: None,
        vagrant_origin: None,
        approved_statement: None,
        stale: None,
        stale_proposal: None,
        directives: Vec::new(),
        last_touched_at: None,
    }
}

fn property(label: &str) -> SchemaProperty {
    SchemaProperty {
        label: label.into(),
        description: String::new(),
        vagrant: None,
        stale: None,
        last_touched_at: None,
    }
}

#[test]
fn test_keys_name_their_claim() {
    assert_eq!(test_key("r1"), "test:r1");
    assert_eq!(test_resp_id(&test_key("r1")), Some("r1"));
    assert_eq!(test_resp_id("r1"), None);
}

#[test]
fn directives_render_their_citations() {
    let ds = vec![
        Directive::new("must log"),
        Directive::cited("must not log", vec!["a".into(), "b".into()]),
    ];
    assert_eq!(directives_rendered(&ds), "must log\nmust not log [cites: a, b]");
    assert_eq!(ds[1].as_str(), "must not log");
}

#[test]
fn a_parent_loop_ends_the_walk() {
    let mut m = ScryModel::default();
    let mut a = mk_node("a", "A", Some("b"));
    a.directives = vec!["of a".into()];
    let mut b = mk_node("b", "B", Some("a"));
    b.directives = vec!["of b".into()];
    m.nodes = vec![a, b];
    let inh = inherited_directives(&m, "a");
    assert_eq!(
        inh.iter().map(|i| i.node_id.as_str()).collect::<Vec<_>>(),
        vec!["b", "a"]
    );
}
