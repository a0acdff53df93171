use scryer_core::diff::{
    diff, open_plan, open_plan_without, pending_element_count, pending_element_count_without,
    pending_elements, pending_elements_without, plan_carrier_count, plan_carrier_count_without,
    Change, ElementChange, ModelDiff,
};
use scryer_core::{
    Directive, Group, Kind, Link, Node, Position, Responsibility, SchemaProperty, ScryModel,
};

fn node(id: &str, name: &str, parent: Option<&str>) -> Node {
    Node {
        id: id.to_string(),
        kind: Kind::Component,
        name: name.to_string(),
        vagrant: None,
        stale: None,
        parent_id: parent.map(|s| s.to_string()),
        external: None,
        technology: None,
        description: None,
        responsibilities: Vec::new(),
        properties: Vec::new(),
        icon: None,
        notes: None,
        position: None,
        directives: Vec::new(),
    }
}

fn resp(id: &str, statement: &str) -> Responsibility {
    Responsibility {
        title: None,
        cites: Vec::new(),
        concern: None,
        id: id.to_string(),
        statement: statement.to_string(),
        vagrant: None,
        stale: None,
        stale_proposal: None,
        directives: Vec::new(),
        last_touched_at: None,
        vagrant_origin: None,
        approved_statement: None,
    }
}

#[test]
fn resp_b00631_a_citation_added_or_removed_reads_as_a_reword() {
    let rewords = |d: &ModelDiff, id: &str| -> Vec<(String, String, String)> {
        d.changes
            .iter()
            .filter(|c| c.id == id)
            .flat_map(|c| c.changes.iter())
            .filter_map(|c| match c {
                Change::Reworded { field, from, to } => {
                    Some((field.clone(), from.clone(), to.clone()))
                }
                _ => None,
            })
            .collect()
    };

    let mut before = ScryModel::new();
    let mut n = node("n1", "N", None);
    n.directives = vec!["must never log a token".into()];
    let mut r = resp("r1", "**Does** a thing");
    r.directives = vec!["must stay stateless".into()];
    n.responsibilities.push(r);
    before.nodes.push(n);

    let mut after = before.clone();
    after.nodes[0].responsibilities[0].cites = vec!["anchor-one".into()];
    let d = diff(&before, &after);
    assert_eq!(
        rewords(&d, "r1"),
        vec![("cites".to_string(), String::new(), "anchor-one".to_string())],
        "a citation arriving is a reword of the claim and nothing else"
    );
    assert!(
        !d.changes
            .iter()
            .any(|c| c.id == "r1" && c.changes.iter().any(|ch| matches!(ch, Change::Added))),
        "a claim that gained a citation is not a NEW claim"
    );

    let d = diff(&after, &before);
    assert_eq!(
        rewords(&d, "r1"),
        vec![("cites".to_string(), "anchor-one".to_string(), String::new())],
        "a citation removed is a reword too — not a silent no-op"
    );

    let mut after = before.clone();
    after.nodes[0].responsibilities[0].directives = vec![Directive::cited(
        "must stay stateless",
        vec!["anchor-two".into()],
    )];
    let d = diff(&before, &after);
    assert_eq!(
        rewords(&d, "r1"),
        vec![(
            "directives".to_string(),
            "must stay stateless".to_string(),
            "must stay stateless [cites: anchor-two]".to_string()
        )],
        "a directive's citation changes what the directive says"
    );

    let mut after = before.clone();
    after.nodes[0].directives = vec![Directive::cited(
        "must never log a token",
        vec!["anchor-three".into()],
    )];
    let d = diff(&before, &after);
    assert_eq!(
        rewords(&d, "n1"),
        vec![(
            "directives".to_string(),
            "must never log a token".to_string(),
            "must never log a token [cites: anchor-three]".to_string()
        )]
    );

    let mut both = before.clone();
    both.nodes[0].responsibilities[0].cites = vec!["anchor-one".into()];
    assert!(
        diff(&both, &both.clone()).changes.is_empty(),
        "a model diffed against itself is clean, citations and all"
    );
}

fn link(id: &str, src: &str, dst: &str) -> Link {
    Link {
        id: id.to_string(),
        src: src.to_string(),
        dst: dst.to_string(),
        label: String::new(),
        method: None,
    }
}

fn find<'a>(d: &'a ModelDiff, id: &str) -> &'a ElementChange {
    d.changes
        .iter()
        .find(|c| c.id == id)
        .unwrap_or_else(|| panic!("no change for {id}"))
}

#[test]
fn resp_wsbj76_a_link_change_carries_both_of_its_ends() {
    let base = |links: Vec<Link>| {
        let mut m = ScryModel::new();
        m.nodes.push(node("n1", "Hub", None));
        m.nodes.push(node("n2", "Runner", None));
        m.links = links;
        m
    };
    let mut l = link("l1", "n1", "n2");
    l.label = "Spawns change sessions from".into();

    let d = diff(&base(vec![]), &base(vec![l.clone()]));
    let ec = find(&d, "l1");
    assert_eq!(ec.from.as_deref(), Some("n1"));
    assert_eq!(ec.to.as_deref(), Some("n2"));

    let mut reworded = l.clone();
    reworded.label = "Spawns sessions for".into();
    let d = diff(&base(vec![l.clone()]), &base(vec![reworded]));
    let ec = find(&d, "l1");
    assert_eq!(ec.from.as_deref(), Some("n1"));
    assert_eq!(ec.to.as_deref(), Some("n2"));

    let d = diff(&base(vec![l.clone()]), &base(vec![]));
    let ec = find(&d, "l1");
    assert!(ec.changes.contains(&Change::Deleted));
    assert_eq!(
        ec.from.as_deref(),
        Some("n1"),
        "a dropped link still names its source"
    );
    assert_eq!(ec.to.as_deref(), Some("n2"), "and its destination");

    let d = diff(&ScryModel::new(), &base(vec![]));
    for ec in &d.changes {
        assert!(ec.from.is_none(), "{:?} carries no source", ec.kind);
        assert!(ec.to.is_none(), "{:?} carries no destination", ec.kind);
    }
}

#[test]
fn identical_models_have_no_diff() {
    let mut m = ScryModel::new();
    m.nodes.push(node("n1", "Auth", None));
    assert!(diff(&m, &m).is_empty());
}

#[test]
fn node_added_and_deleted() {
    let mut from = ScryModel::new();
    from.nodes.push(node("n1", "Auth", None));
    let mut to = ScryModel::new();
    to.nodes.push(node("n2", "Billing", None));

    let d = diff(&from, &to);
    assert_eq!(find(&d, "n2").changes, vec![Change::Added]);
    assert_eq!(find(&d, "n1").changes, vec![Change::Deleted]);
}

#[test]
fn node_reparented_is_moved() {
    let mut from = ScryModel::new();
    from.nodes.push(node("a", "A", Some("p1")));
    let mut to = ScryModel::new();
    to.nodes.push(node("a", "A", Some("p2")));

    let d = diff(&from, &to);
    assert_eq!(
        find(&d, "a").changes,
        vec![Change::Moved {
            from: Some("p1".to_string()),
            to: Some("p2".to_string()),
        }]
    );
}

#[test]
fn node_renamed_is_reworded() {
    let mut from = ScryModel::new();
    from.nodes.push(node("a", "Old", None));
    let mut to = ScryModel::new();
    to.nodes.push(node("a", "New", None));

    let d = diff(&from, &to);
    assert_eq!(
        find(&d, "a").changes,
        vec![Change::Reworded {
            field: "name".to_string(),
            from: "Old".to_string(),
            to: "New".to_string(),
        }]
    );
}

#[test]
fn node_kind_and_external_changes_surface() {
    let mut from = ScryModel::new();
    let mut a = node("a", "A", None);
    a.kind = Kind::Container;
    from.nodes.push(a);
    let mut to = ScryModel::new();
    let mut a2 = node("a", "A", None);
    a2.kind = Kind::Component;
    to.nodes.push(a2);
    assert_eq!(
        find(&diff(&from, &to), "a").changes,
        vec![Change::Reworded {
            field: "kind".to_string(),
            from: "container".to_string(),
            to: "component".to_string(),
        }]
    );

    let mut from = ScryModel::new();
    from.nodes.push(node("a", "A", None)); // external: None
    let mut to = ScryModel::new();
    let mut ext = node("a", "A", None);
    ext.external = Some(true);
    to.nodes.push(ext);
    assert_eq!(
        find(&diff(&from, &to), "a").changes,
        vec![Change::Reworded {
            field: "external".to_string(),
            from: "false".to_string(),
            to: "true".to_string(),
        }]
    );

    let mut from = ScryModel::new();
    from.nodes.push(node("a", "A", None)); // None
    let mut to = ScryModel::new();
    let mut same = node("a", "A", None);
    same.external = Some(false);
    to.nodes.push(same);
    assert!(
        diff(&from, &to).is_empty(),
        "None and Some(false) must not differ"
    );
}

#[test]
fn position_only_change_is_not_a_plan_change() {
    let mut from = ScryModel::new();
    from.nodes.push(node("a", "A", None)); // position: None
    let mut to = ScryModel::new();
    let mut placed = node("a", "A", None);
    placed.position = Some(Position { x: 42.0f64.to_bits(), y: (-7.0f64).to_bits() });
    to.nodes.push(placed);
    assert!(
        diff(&from, &to).is_empty(),
        "a drag must not enter the plan queue"
    );
}

#[test]
fn link_repointed() {
    let mut from = ScryModel::new();
    from.links.push(link("l1", "a", "b"));
    let mut to = ScryModel::new();
    to.links.push(link("l1", "a", "c"));

    let d = diff(&from, &to);
    assert_eq!(
        find(&d, "l1").changes,
        vec![Change::Repointed {
            src_from: "a".to_string(),
            src_to: "a".to_string(),
            dst_from: "b".to_string(),
            dst_to: "c".to_string(),
        }]
    );
}

#[test]
fn responsibility_moved_between_nodes() {
    let mut from = ScryModel::new();
    let mut a = node("a", "A", None);
    a.responsibilities.push(resp("r1", "do the thing"));
    from.nodes.push(a);
    from.nodes.push(node("b", "B", None));

    let mut to = ScryModel::new();
    to.nodes.push(node("a", "A", None));
    let mut b = node("b", "B", None);
    b.responsibilities.push(resp("r1", "do the thing"));
    to.nodes.push(b);

    let d = diff(&from, &to);
    assert_eq!(
        find(&d, "r1").changes,
        vec![Change::Moved {
            from: Some("a".to_string()),
            to: Some("b".to_string()),
        }]
    );
}

#[test]
fn responsibility_moved_and_reworded_stacks() {
    let mut from = ScryModel::new();
    let mut a = node("a", "A", None);
    a.responsibilities.push(resp("r1", "old statement"));
    from.nodes.push(a);
    from.nodes.push(node("b", "B", None));

    let mut to = ScryModel::new();
    to.nodes.push(node("a", "A", None));
    let mut b = node("b", "B", None);
    b.responsibilities.push(resp("r1", "new statement"));
    to.nodes.push(b);

    let d = diff(&from, &to);
    let c = find(&d, "r1");
    assert_eq!(c.changes.len(), 2);
    assert!(c.changes.contains(&Change::Moved {
        from: Some("a".to_string()),
        to: Some("b".to_string()),
    }));
    assert!(c.changes.contains(&Change::Reworded {
        field: "statement".to_string(),
        from: "old statement".to_string(),
        to: "new statement".to_string(),
    }));
}

fn prop(label: &str, description: &str) -> SchemaProperty {
    SchemaProperty {
        label: label.to_string(),
        description: description.to_string(),
        vagrant: None,
        stale: None,
        last_touched_at: None,
    }
}

fn group(id: &str, name: &str, members: &[&str]) -> Group {
    Group {
        id: id.to_string(),
        name: name.to_string(),
        description: None,
        member_ids: members.iter().map(|s| s.to_string()).collect(),
        parent_group_id: None,
        parent_node_id: None,
        responsibilities: Vec::new(),
        icon: None,
    }
}

#[test]
fn property_added_and_reworded() {
    let mut from = ScryModel::new();
    let mut a = node("a", "A", None);
    a.properties.push(prop("email", "old desc"));
    from.nodes.push(a);

    let mut to = ScryModel::new();
    let mut a2 = node("a", "A", None);
    a2.properties.push(prop("email", "new desc"));
    a2.properties.push(prop("name", "the name"));
    to.nodes.push(a2);

    let d = diff(&from, &to);
    assert_eq!(find(&d, "name").changes, vec![Change::Added]);
    assert_eq!(
        find(&d, "email").changes,
        vec![Change::Reworded {
            field: "description".to_string(),
            from: "old desc".to_string(),
            to: "new desc".to_string(),
        }]
    );
}

#[test]
fn group_membership_changed() {
    let mut from = ScryModel::new();
    from.groups.push(group("g1", "Core", &["a", "b"]));
    let mut to = ScryModel::new();
    to.groups.push(group("g1", "Core", &["a", "c"]));

    let d = diff(&from, &to);
    assert_eq!(
        find(&d, "g1").changes,
        vec![Change::MembersChanged {
            added: vec!["c".to_string()],
            removed: vec!["b".to_string()],
        }]
    );
}

#[test]
fn carrier_count_folds_elements_and_drops_vagrants() {
    let mut committed = ScryModel::new();
    let mut a = node("a", "A", None);
    a.responsibilities.push(resp("r1", "does one thing"));
    committed.nodes.push(a);
    committed.nodes.push(node("b", "B", None));

    let mut planned = ScryModel::new();
    let mut a2 = node("a", "A", None);
    a2.responsibilities.push(resp("r1", "does one thing"));
    a2.responsibilities.push(resp("r2", "does a second thing"));
    a2.responsibilities.push(resp("r3", "does a third thing"));
    planned.nodes.push(a2);
    let mut b2 = node("b", "B", None);
    let mut rv = resp("rv", "code already does this");
    rv.vagrant = Some(true);
    b2.responsibilities.push(rv);
    planned.nodes.push(b2);
    planned.nodes.push(node("c", "C", None));
    planned.links.push(link("l1", "c", "a"));

    assert_eq!(diff(&committed, &planned).changes.len(), 5);
    assert_eq!(plan_carrier_count(&committed, &planned), 2);
}

#[test]
fn pending_elements_counts_the_queue_the_carriers_fold() {
    let mut committed = ScryModel::new();
    let mut a = node("a", "A", None);
    a.responsibilities.push(resp("r1", "does one thing"));
    committed.nodes.push(a);
    committed.nodes.push(node("b", "B", None));

    let mut planned = ScryModel::new();
    let mut a2 = node("a", "A", None);
    a2.responsibilities.push(resp("r1", "does one thing"));
    a2.responsibilities.push(resp("r2", "does a second thing"));
    a2.responsibilities.push(resp("r3", "does a third thing"));
    planned.nodes.push(a2);
    let mut b2 = node("b", "B", None);
    let mut rv = resp("rv", "code already does this");
    rv.vagrant = Some(true);
    b2.responsibilities.push(rv);
    planned.nodes.push(b2);
    planned.nodes.push(node("c", "C", None));
    planned.links.push(link("l1", "c", "a"));

    assert_eq!(pending_element_count(&committed, &planned), 4);
    let ids: Vec<String> = pending_elements(&committed, &planned)
        .into_iter()
        .map(|e| e.id)
        .collect();
    assert!(
        !ids.iter().any(|i| i == "rv"),
        "vagrant content is not pending work: {ids:?}"
    );
    assert_eq!(plan_carrier_count(&committed, &planned), 2);
}

#[test]
fn what_is_set_aside_is_not_work() {
    let mut committed = ScryModel::new();
    committed.nodes.push(node("a", "A", None));
    let mut planned = committed.clone();
    planned.nodes[0].name = "B".into();
    planned.nodes.push(node("c", "C", Some("a")));
    let all = open_plan(&committed, &planned);
    assert_eq!(all, diff(&committed, &planned));
    assert_eq!(all.changes.len(), 2);
    assert_eq!(open_plan_without(&committed, &planned, &Vec::new()), all);
    let left = open_plan_without(&committed, &planned, &vec!["node:c".to_string()]);
    assert_eq!(left.changes.len(), 1);
    assert_eq!(left.changes[0].id, "a");
    let aside = vec!["node:c".to_string()];
    assert_eq!(pending_elements_without(&committed, &planned, &aside), left.changes);
    assert_eq!(pending_element_count_without(&committed, &planned, &aside), 1);
    assert_eq!(pending_element_count(&committed, &planned), 2);
    assert_eq!(plan_carrier_count_without(&committed, &planned, &aside), 1);
    assert_eq!(plan_carrier_count(&committed, &planned), 2);
    let both = vec!["node:c".to_string(), "node:a".to_string()];
    assert_eq!(pending_element_count_without(&committed, &planned, &both), 0);
    assert_eq!(plan_carrier_count_without(&committed, &planned, &both), 0);
    assert_eq!(plan_carrier_count_without(&committed, &planned, &Vec::new()), 2);
}

#[test]
fn a_group_with_drift_alone_carries_nothing() {
    let mut committed = ScryModel::new();
    committed.groups.push(Group {
        id: "g1".into(),
        name: "Core".into(),
        description: None,
        member_ids: Vec::new(),
        parent_group_id: None,
        parent_node_id: None,
        responsibilities: Vec::new(),
        icon: None,
    });
    let mut planned = committed.clone();
    let mut rv = resp("rv", "**Does** more");
    rv.vagrant = Some(true);
    planned.groups[0].responsibilities.push(rv);
    assert_eq!(plan_carrier_count(&committed, &planned), 0);
    planned.groups[0].responsibilities.push(resp("r2", "**Does** planned work"));
    assert_eq!(plan_carrier_count(&committed, &planned), 1);
}

#[test]
fn a_plan_reads_backwards() {
    let mut a = ScryModel::new();
    a.nodes.push(node("n1", "One", None));
    a.nodes.push(node("n2", "Two", Some("n1")));
    let mut b = ScryModel::new();
    b.nodes.push(node("n1", "Uno", None));
    b.nodes.push(node("n3", "Three", Some("n1")));
    let there = diff(&a, &b).changes;
    let back = diff(&b, &a).changes;
    assert_eq!(there.len(), 3);
    assert_eq!(back.len(), 3);
    let of = |d: &Vec<ElementChange>, id: &str| -> Vec<Change> {
        d.iter().find(|c| c.id == id).unwrap().changes.clone()
    };
    assert_eq!(of(&there, "n2"), vec![Change::Deleted]);
    assert_eq!(of(&back, "n2"), vec![Change::Added]);
    assert_eq!(
        of(&back, "n1"),
        vec![Change::Reworded { field: "name".into(), from: "Uno".into(), to: "One".into() }]
    );
    assert_eq!(
        of(&there, "n1"),
        vec![Change::Reworded { field: "name".into(), from: "One".into(), to: "Uno".into() }]
    );
}
