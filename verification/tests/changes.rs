use scryer_core::changes::{
    abandon_change as abandon, classify_against_signoff, classify_key, close_change as close,
    dead_tags, element_key, entry_hash, fnv1a64, foreign_to_host, gc, key_for, open_change,
    open_change_titled, opened_by, parse_key, record_abandoned, record_closed, record_opened,
    record_signed_off, requires_change_titles, requires_countersigned_folds, restamp_signoffs,
    restamp_signoffs_as, retag, retag_without, set_title, sign_off, sign_off_as, sign_off_for, tag, title_of,
    validate_title, would_abandon, Abandoned, ChangeMeta, Classification, Policy, MAX_TITLE_LEN,
};
use scryer_core::diff::{diff, ElementKind};
use scryer_core::history::{EventKind, HistoryEvent};
use scryer_core::strmap::StrMap;
use scryer_core::{
    commit_element as fold_element, fold_built_model, is_minted_id, Kind, Node, Responsibility,
    ScryModel,
};
use std::cell::RefCell;

/// The two layers and the history of a project, kept in memory.
struct Store {
    committed: RefCell<ScryModel>,
    planned: RefCell<Option<ScryModel>>,
    history: RefCell<Vec<HistoryEvent>>,
}

impl Store {
    fn new() -> Store {
        Store {
            committed: RefCell::new(ScryModel::new()),
            planned: RefCell::new(None),
            history: RefCell::new(Vec::new()),
        }
    }

    fn record(&self, e: HistoryEvent) {
        self.history.borrow_mut().push(e);
    }
}

fn seed(committed: &ScryModel) -> ScryModel {
    let mut p = committed.clone();
    p.source_map = StrMap::new();
    p.test_map = StrMap::new();
    p.boundaries = StrMap::new();
    p
}

fn write_model_at(r: &Store, m: &ScryModel) -> Result<(), String> {
    let mut m = m.clone();
    m.changes.clear();
    m.change_map = StrMap::new();
    *r.committed.borrow_mut() = m;
    Ok(())
}

fn read_model_at(r: &Store) -> Result<ScryModel, String> {
    Ok(r.committed.borrow().clone())
}

fn read_planned_at(r: &Store) -> Result<ScryModel, String> {
    Ok(match &*r.planned.borrow() {
        Some(p) => p.clone(),
        None => seed(&r.committed.borrow()),
    })
}

fn write_planned_for(
    r: &Store,
    m: &ScryModel,
    actor: Option<&str>,
    person: Option<&str>,
) -> Result<(), String> {
    let before = r.planned.borrow().clone().unwrap_or_else(ScryModel::new);
    let mut plan = m.clone();
    let swept = gc(&r.committed.borrow(), &mut plan);
    for meta in opened_by(&before, &plan) {
        r.record(record_opened(&meta, actor, person));
    }
    for meta in &swept.closed {
        r.record(record_closed(meta, "abandoned", 7));
    }
    *r.planned.borrow_mut() = Some(plan);
    Ok(())
}

fn write_planned_at(r: &Store, m: &ScryModel) -> Result<(), String> {
    write_planned_for(r, m, None, None)
}

fn commit_element(
    r: &Store,
    kind: ElementKind,
    owner: Option<&str>,
    id: &str,
) -> Result<(), String> {
    let mut committed = read_model_at(r)?;
    let mut planned = read_planned_at(r)?;
    let folded = fold_element(&mut committed, &mut planned, kind, owner, id)?;
    *r.committed.borrow_mut() = committed;
    if folded.rewrites_plan {
        *r.planned.borrow_mut() = Some(planned);
    } else {
        assert_eq!(planned, read_planned_at(r)?, "a plan that is not rewritten is as it was");
    }
    for meta in &folded.closed {
        r.record(record_closed(meta, "folded", 7));
    }
    Ok(())
}

#[test]
fn sign_off_records_the_actor_who_gave_the_go_ahead() {
    let mut plan = model_with_resps(&[("r1", "exists"), ("r2", "new")]);
    let cid = open_change(&mut plan, "the change", 100);
    tag(
        &mut plan,
        &vec![element_key(ElementKind::Responsibility, None, "r2")],
        &cid,
    );

    sign_off_as(&mut plan, &cid, 200, Some("morgan")).unwrap();
    assert_eq!(
        plan.changes[0].signed_off.as_ref().unwrap().by.as_deref(),
        Some("morgan")
    );

    restamp_signoffs(&mut plan, 300);
    let snap = plan.changes[0].signed_off.as_ref().unwrap();
    assert_eq!(snap.at, 300);
    assert_eq!(
        snap.by.as_deref(),
        Some("morgan"),
        "a re-stamp never erases who signed"
    );

    let mut plain = model_with_resps(&[("r1", "exists")]);
    let cid = open_change(&mut plain, "unsigned by anyone", 100);
    sign_off(&mut plain, &cid, 200).unwrap();
    assert!(plain.changes[0].signed_off.as_ref().unwrap().by.is_none());

}

#[test]
fn resp_7xts3y_a_sign_off_records_who_signed_and_who_for() {
    let r = Store::new();
    let signed_off = |r: &Store| -> Vec<HistoryEvent> {
        read_history(r)
            .into_iter()
            .filter(|e| e.driver == "signed off")
            .collect()
    };

    let mut plan = model_with_resps(&[("r1", "exists")]);
    let cid = open_change(&mut plan, "the rationale that outlives the change", 100);
    tag(
        &mut plan,
        &vec![element_key(ElementKind::Responsibility, None, "r1")],
        &cid,
    );

    sign_off_for(
        &mut plan,
        &cid,
        200,
        Some("agent-session-7"),
        Some("morgan"),
    )
    .unwrap();
    if let Some(e) = record_signed_off(&plan.changes[0]) {
        r.record(e);
    }
    let log = signed_off(&r);
    assert_eq!(log.len(), 1);
    assert_eq!(log[0].by, "agent-session-7", "the signer");
    assert_eq!(
        log[0].on_behalf_of.as_deref(),
        Some("morgan"),
        "the person it was for"
    );
    assert_eq!(log[0].change_id.as_deref(), Some(cid.as_str()));
    assert_eq!(
        log[0].at, 200,
        "stamped when the signature was, not when it was logged"
    );
    assert_eq!(
        log[0].rows[0].text,
        "the rationale that outlives the change"
    );

    let mut direct = model_with_resps(&[("r1", "exists")]);
    let r2 = Store::new();
    let cid2 = open_change(&mut direct, "signed by the developer themselves", 100);
    tag(
        &mut direct,
        &vec![element_key(ElementKind::Responsibility, None, "r1")],
        &cid2,
    );
    sign_off_as(&mut direct, &cid2, 200, Some("morgan")).unwrap();
    if let Some(e) = record_signed_off(&direct.changes[0]) {
        r2.record(e);
    }
    let log = signed_off(&r2);
    assert_eq!(log[0].by, "morgan");
    assert!(
        log[0].on_behalf_of.is_none(),
        "not a proxy, so there is nobody to name"
    );

    let r3 = Store::new();
    let mut unsigned = model_with_resps(&[("r1", "exists")]);
    let _ = open_change(&mut unsigned, "not approved yet", 100);
    if let Some(e) = record_signed_off(&unsigned.changes[0]) {
        r3.record(e);
    }
    assert!(signed_off(&r3).is_empty());

}

#[test]
fn resp_pt49rq_a_staled_sign_off_names_the_write_that_staled_it() {
    let mut plan = model_with_resps(&[("r1", "the sentence morgan approved")]);
    let cid = open_change(&mut plan, "the change", 100);
    tag(
        &mut plan,
        &vec![element_key(ElementKind::Responsibility, None, "r1")],
        &cid,
    );
    sign_off_as(&mut plan, &cid, 200, Some("morgan")).unwrap();
    plan.nodes[0].responsibilities[0].statement = "a sentence they never read".into();

    restamp_signoffs_as(&mut plan, 300, Some("sam"));
    let snap = plan.changes[0].signed_off.as_ref().unwrap();
    assert!(snap.is_stale());
    assert_eq!(
        snap.staled_by.as_deref(),
        Some("sam"),
        "the hand that moved the plan"
    );
    assert_eq!(
        snap.by.as_deref(),
        Some("morgan"),
        "still morgan's approval, not sam's"
    );

    restamp_signoffs_as(&mut plan, 400, Some("bea"));
    assert_eq!(
        plan.changes[0]
            .signed_off
            .as_ref()
            .unwrap()
            .staled_by
            .as_deref(),
        Some("bea")
    );

    sign_off_as(&mut plan, &cid, 500, Some("morgan")).unwrap();
    let snap = plan.changes[0].signed_off.as_ref().unwrap();
    assert!(!snap.is_stale());
    assert!(snap.staled_by.is_none());

}

#[test]
fn resp_gc5m1s_a_plan_write_by_someone_other_than_the_signer_stales_the_sign_off() {
    let approved = "the sentence morgan approved";
    let signed_plan = || {
        let mut plan = model_with_resps(&[("r1", approved)]);
        let cid = open_change(&mut plan, "the change", 100);
        tag(
            &mut plan,
            &vec![element_key(ElementKind::Responsibility, None, "r1")],
            &cid,
        );
        sign_off_as(&mut plan, &cid, 200, Some("morgan")).unwrap();
        (plan, cid)
    };
    let reworded = |plan: &mut ScryModel| {
        plan.nodes[0].responsibilities[0].statement = "a sentence they never read".into();
    };

    let (mut mine, cid) = signed_plan();
    reworded(&mut mine);
    let out = restamp_signoffs_as(&mut mine, 300, Some("morgan"));
    assert_eq!(out.restamped, vec![cid.clone()]);
    assert!(out.staled.is_empty());
    let snap = mine.changes[0].signed_off.as_ref().unwrap();
    assert_eq!(snap.at, 300, "the snapshot followed the edit");
    assert!(!snap.is_stale(), "their own edit is intent, not a surprise");
    assert!(
        classify_against_signoff(&mine, &mine.changes[0]).is_empty(),
        "so nothing reads as an amendment at the next fold"
    );

    let (mut theirs, cid) = signed_plan();
    reworded(&mut theirs);
    let out = restamp_signoffs_as(&mut theirs, 300, Some("sam"));
    assert_eq!(out.staled, vec![cid.clone()]);
    assert!(out.restamped.is_empty());
    let snap = theirs.changes[0].signed_off.as_ref().unwrap();
    assert!(snap.is_stale(), "the signature is flagged for a re-request");
    assert_eq!(
        snap.staled_by.as_deref(),
        Some("sam"),
        "and says whose write did it"
    );
    assert_eq!(
        snap.at, 200,
        "and not re-dated: morgan signed then, not now"
    );
    assert_eq!(
        snap.by.as_deref(),
        Some("morgan"),
        "nor re-attributed to the writer"
    );
    assert_eq!(
        snap.entries.get("resp:r1").unwrap().statement.as_deref(),
        Some(approved),
        "the snapshot still holds what they actually approved"
    );

    sign_off_as(&mut theirs, &cid, 400, Some("morgan")).unwrap();
    assert!(!theirs.changes[0].signed_off.as_ref().unwrap().is_stale());

    let (mut solo, _) = signed_plan();
    reworded(&mut solo);
    let out = restamp_signoffs_as(&mut solo, 300, None);
    assert_eq!(out.restamped.len(), 1);
    assert!(!solo.changes[0].signed_off.as_ref().unwrap().is_stale());
    let (mut unsigned, ucid) = {
        let mut plan = model_with_resps(&[("r1", approved)]);
        let cid = open_change(&mut plan, "nobody signed by name", 100);
        tag(
            &mut plan,
            &vec![element_key(ElementKind::Responsibility, None, "r1")],
            &cid,
        );
        sign_off(&mut plan, &cid, 200).unwrap();
        (plan, cid)
    };
    assert_eq!(
        restamp_signoffs_as(&mut unsigned, 300, Some("sam")).restamped,
        vec![ucid]
    );
    assert!(!unsigned.changes[0].signed_off.as_ref().unwrap().is_stale());
    restamp_signoffs_as(&mut theirs, 500, Some("sam"));
    assert!(
        theirs.changes[0].signed_off.as_ref().unwrap().is_stale(),
        "staled again"
    );
    restamp_signoffs_as(&mut theirs, 600, None);
    assert!(
        theirs.changes[0].signed_off.as_ref().unwrap().is_stale(),
        "an unattributed save cannot clear what a named one set"
    );

}

#[test]
fn resp_k4yw29_a_proxy_sign_off_records_the_signer_and_the_person_it_is_for() {
    let mut plan = model_with_resps(&[("r1", "exists"), ("r2", "new")]);
    let cid = open_change(&mut plan, "the change", 100);
    tag(
        &mut plan,
        &vec![element_key(ElementKind::Responsibility, None, "r2")],
        &cid,
    );

    sign_off_for(
        &mut plan,
        &cid,
        200,
        Some("agent-session-7"),
        Some("morgan"),
    )
    .unwrap();
    let snap = plan.changes[0].signed_off.clone().unwrap();
    assert_eq!(
        snap.by.as_deref(),
        Some("agent-session-7"),
        "the SIGNER is the actor"
    );
    assert_eq!(
        snap.on_behalf_of.as_deref(),
        Some("morgan"),
        "the person it is for"
    );
    assert_eq!(snap.entries.len(), 1, "it is still a real snapshot");

    restamp_signoffs(&mut plan, 300);
    let snap = plan.changes[0].signed_off.as_ref().unwrap();
    assert_eq!(snap.at, 300);
    assert_eq!(snap.by.as_deref(), Some("agent-session-7"));
    assert_eq!(
        snap.on_behalf_of.as_deref(),
        Some("morgan"),
        "a re-stamp is not a disavowal"
    );

    sign_off_for(&mut plan, &cid, 400, Some("morgan"), None).unwrap();
    let snap = plan.changes[0].signed_off.as_ref().unwrap();
    assert_eq!(snap.by.as_deref(), Some("morgan"));
    assert!(
        snap.on_behalf_of.is_none(),
        "a direct sign-off is nobody's proxy"
    );

    let mut direct = model_with_resps(&[("r1", "exists")]);
    let cid = open_change(&mut direct, "direct", 100);
    sign_off_as(&mut direct, &cid, 200, Some("morgan")).unwrap();
    assert!(direct.changes[0]
        .signed_off
        .as_ref()
        .unwrap()
        .on_behalf_of
        .is_none());

}

fn claim(id: &str, statement: &str) -> Responsibility {
    Responsibility {
        id: id.into(),
        title: None,
        statement: statement.into(),
        concern: None,
        cites: Vec::new(),
        vagrant: None,
        vagrant_origin: None,
        approved_statement: None,
        stale: None,
        stale_proposal: None,
        directives: Vec::new(),
        last_touched_at: None,
    }
}

fn node(id: &str, kind: Kind, name: &str, parent: Option<&str>) -> Node {
    Node {
        id: id.into(),
        kind,
        name: name.into(),
        parent_id: parent.map(Into::into),
        external: None,
        technology: None,
        description: None,
        vagrant: None,
        stale: None,
        responsibilities: Vec::new(),
        properties: Vec::new(),
        icon: None,
        notes: None,
        position: None,
        directives: Vec::new(),
    }
}

fn model_with_resps(resps: &[(&str, &str)]) -> ScryModel {
    let mut n = node("n1", Kind::Component, "C", None);
    n.responsibilities = resps.iter().map(|(id, s)| claim(id, s)).collect();
    let mut m = ScryModel::new();
    m.nodes.push(n);
    m
}

fn read_history(r: &Store) -> Vec<HistoryEvent> {
    r.history.borrow().clone()
}

fn close_change(r: &Store, id: &str) -> Result<ChangeMeta, String> {
    let mut plan = read_planned_at(r)?;
    let meta = close(&mut plan, id)?;
    *r.planned.borrow_mut() = Some(plan);
    r.record(record_closed(&meta, "abandoned", 7));
    Ok(meta)
}

fn abandon_change(r: &Store, id: &str, why: Option<&str>) -> Result<Abandoned, String> {
    let mut plan = read_planned_at(r)?;
    let out = abandon(&read_model_at(r)?, &mut plan, id)?;
    *r.planned.borrow_mut() = Some(plan);
    r.record(record_abandoned(&out.meta, &out.dropped, why, 7));
    Ok(out)
}

fn fold_built(r: &Store, built: &ScryModel) {
    let out = fold_built_model(&read_model_at(r).unwrap(), built);
    *r.committed.borrow_mut() = out.committed;
    *r.planned.borrow_mut() = Some(out.planned);
    for meta in &out.closed {
        r.record(record_closed(meta, "folded", 7));
    }
}

#[test]
fn a_change_reads_by_its_title_or_its_rationales_first_line() {
    let mut plan = model_with_resps(&[("r1", "exists")]);

    let titled = open_change_titled(
        &mut plan,
        Some("  Give a change a title  "),
        "the long why",
        100,
    )
    .unwrap();
    let untitled = open_change(&mut plan, "first line\nsecond line", 200);

    fn by_id(plan: &ScryModel, id: &str) -> ChangeMeta {
        plan.changes.iter().find(|c| c.id == id).unwrap().clone()
    }
    assert_eq!(
        by_id(&plan, &titled).title.as_deref(),
        Some("Give a change a title")
    );
    assert_eq!(title_of(&by_id(&plan, &titled)), "Give a change a title");
    assert_eq!(by_id(&plan, &untitled).title, None);
    assert_eq!(title_of(&by_id(&plan, &untitled)), "first line");


    set_title(&mut plan, &untitled, "Named later").unwrap();
    assert_eq!(title_of(&by_id(&plan, &untitled)), "Named later");
    assert_eq!(
        set_title(&mut plan, "chg-nope", "x"),
        Err("no open change 'chg-nope'".to_string())
    );
}

#[test]
fn a_title_is_refused_when_too_long_and_when_absent_under_the_policy() {
    let mut plan = model_with_resps(&[("r1", "exists")]);

    let eighty = "x".repeat(MAX_TITLE_LEN);
    assert!(open_change_titled(&mut plan, Some(&eighty), "why", 100).is_ok());
    let over = "x".repeat(MAX_TITLE_LEN + 1);
    let err = open_change_titled(&mut plan, Some(&over), "why", 100).unwrap_err();
    assert!(err.contains("81 characters"), "{err}");

    let eighty_wide = "é".repeat(MAX_TITLE_LEN);
    assert_eq!(eighty_wide.len(), MAX_TITLE_LEN * 2);
    assert!(open_change_titled(&mut plan, Some(&eighty_wide), "why", 100).is_ok());

    assert!(!requires_change_titles(&plan));
    assert!(open_change_titled(&mut plan, None, "why", 100).is_ok());

    plan.policy = Some(Policy {
        require_countersigned_folds: false,
        require_change_titles: true,
    });
    let err = open_change_titled(&mut plan, None, "why", 100).unwrap_err();
    assert!(err.contains("requires a change to have a title"), "{err}");
    let err = open_change_titled(&mut plan, Some("   "), "why", 100).unwrap_err();
    assert!(err.contains("requires a change to have a title"), "{err}");
    assert!(open_change_titled(&mut plan, Some("a name"), "why", 100).is_ok());
}

#[test]
fn abandoning_a_change_drops_its_entries_and_records_what_went() {
    let r = Store::new();
    write_model_at(&r, &model_with_resps(&[("r1", "as committed")])).unwrap();

    let mut plan =
        model_with_resps(&[("r1", "reworded by the doomed change"), ("r2", "added")]);
    let doomed = open_change_titled(&mut plan, Some("Doomed"), "why it existed", 100).unwrap();
    let other = open_change(&mut plan, "a neighbour", 110);
    tag(
        &mut plan,
        &vec![
            element_key(ElementKind::Responsibility, None, "r1"),
            element_key(ElementKind::Responsibility, None, "r2"),
        ],
        &doomed,
    );
    plan.nodes[0].responsibilities.push(
        claim("r3", "the neighbour's")
    );
    tag(
        &mut plan,
        &vec![element_key(ElementKind::Responsibility, None, "r3")],
        &other,
    );
    write_planned_at(&r, &plan).unwrap();

    let abandoned = abandon_change(&r, &doomed, None).unwrap();

    assert_eq!(abandoned.meta.id, doomed);
    let mut what: Vec<(String, String)> = abandoned
        .dropped
        .iter()
        .map(|d| (d.key.clone(), d.what.clone()))
        .collect();
    what.sort();
    assert_eq!(
        what,
        vec![
            ("resp:r1".to_string(), "reworded".to_string()),
            ("resp:r2".to_string(), "added".to_string()),
        ]
    );

    let after = read_planned_at(&r).unwrap();
    let resp = |id: &str| {
        after.nodes[0]
            .responsibilities
            .iter()
            .find(|x| x.id == id)
            .map(|x| x.statement.clone())
    };
    assert_eq!(resp("r1").as_deref(), Some("as committed"), "reword undone");
    assert_eq!(resp("r2"), None, "the added claim went with the change");
    assert_eq!(
        resp("r3").as_deref(),
        Some("the neighbour's"),
        "another change's entry is not this one's to drop"
    );
    assert!(after.changes.iter().all(|c| c.id != doomed));
    assert!(after.changes.iter().any(|c| c.id == other));
    assert!(!after.change_map.contains_key("resp:r1"));
    assert!(after.change_map.contains_key("resp:r3"));

    let ev = read_history(&r)
        .into_iter()
        .find(|e| {
            e.kind == EventKind::Change
                && e.driver == "abandoned"
                && e.change_id.as_deref() == Some(doomed.as_str())
        })
        .expect("the abandonment is in the history");
    assert_eq!(ev.driver, "abandoned");
    assert_eq!(ev.change_title.as_deref(), Some("Doomed"));
    assert_eq!(ev.rows[0].text, "why it existed");
    let dropped_rows: Vec<&str> = ev.rows[1..].iter().map(|x| x.text.as_str()).collect();
    assert_eq!(dropped_rows.len(), 2, "{dropped_rows:?}");
    assert!(
        dropped_rows.iter().any(|t| t.contains("(added)"))
            && dropped_rows.iter().any(|t| t.contains("(reworded)")),
        "{dropped_rows:?}"
    );
}

#[test]
fn abandoning_refuses_to_strand_another_changes_node() {
    let r = Store::new();
    write_model_at(&r, &model_with_resps(&[("r1", "exists")])).unwrap();

    let mut plan = model_with_resps(&[("r1", "exists")]);
    plan.nodes.push(
        node("n2", Kind::Component, "Parent", None)
    );
    plan.nodes.push(
        node("n3", Kind::Component, "Child", Some("n2"))
    );
    let doomed = open_change(&mut plan, "adds the parent", 100);
    let other = open_change(&mut plan, "adds the child", 110);
    tag(
        &mut plan,
        &vec![element_key(ElementKind::Node, None, "n2")],
        &doomed,
    );
    tag(
        &mut plan,
        &vec![element_key(ElementKind::Node, None, "n3")],
        &other,
    );
    write_planned_at(&r, &plan).unwrap();

    let err = abandon_change(&r, &doomed, None).unwrap_err();
    assert!(err.contains("Child"), "{err}");
    assert!(err.contains("Refile or fold"), "{err}");

    let after = read_planned_at(&r).unwrap();
    assert!(after.nodes.iter().any(|n| n.id == "n2"));
    assert!(after.changes.iter().any(|c| c.id == doomed));
    assert!(after.changes.iter().any(|c| c.id == other));
}

#[test]
fn closing_still_refuses_a_change_that_carries_entries() {
    let r = Store::new();
    write_model_at(&r, &model_with_resps(&[("r1", "exists")])).unwrap();

    let mut plan = model_with_resps(&[("r1", "exists"), ("r2", "added")]);
    let cid = open_change(&mut plan, "has work", 100);
    tag(
        &mut plan,
        &vec![element_key(ElementKind::Responsibility, None, "r2")],
        &cid,
    );
    write_planned_at(&r, &plan).unwrap();

    let err = close_change(&r, &cid).unwrap_err();
    assert!(err.contains("still has 1 tagged entry"), "{err}");
    assert!(read_planned_at(&r)
        .unwrap()
        .changes
        .iter()
        .any(|c| c.id == cid));
}

#[test]
fn opening_a_change_is_recorded_beside_its_close() {
    let r = Store::new();
    write_model_at(&r, &model_with_resps(&[("r1", "exists")])).unwrap();
    write_planned_at(&r, &model_with_resps(&[("r1", "exists")])).unwrap();

    let mut plan = read_planned_at(&r).unwrap();
    let cid = open_change_titled(&mut plan, Some("The title"), "why it exists", 1_700_000_000)
        .unwrap();
    write_planned_for(&r, &plan, Some("the-agent"), Some("morgan")).unwrap();

    let opened: Vec<_> = read_history(&r)
        .into_iter()
        .filter(|e| e.kind == EventKind::Change && e.driver == "opened")
        .collect();
    assert_eq!(opened.len(), 1, "exactly one open, once");
    let ev = &opened[0];
    assert_eq!(ev.change_id.as_deref(), Some(cid.as_str()));
    assert_eq!(ev.change_title.as_deref(), Some("The title"));
    assert_eq!(ev.rows[0].text, "why it exists");
    assert_eq!(ev.by, "the-agent");
    assert_eq!(ev.on_behalf_of.as_deref(), Some("morgan"));
    assert_eq!(
        ev.at, 1_700_000_000,
        "stamped at the change's own moment, not at the write"
    );

    let plan = read_planned_at(&r).unwrap();
    write_planned_for(&r, &plan, None, None).unwrap();
    assert_eq!(
        read_history(&r)
            .iter()
            .filter(|e| e.driver == "opened")
            .count(),
        1,
        "an open is announced once, not on every later write"
    );

    close_change(&r, &cid).unwrap();
    let life: Vec<String> = read_history(&r)
        .into_iter()
        .filter(|e| e.kind == EventKind::Change && e.change_id.as_deref() == Some(cid.as_str()))
        .map(|e| e.driver)
        .collect();
    assert_eq!(life, vec!["opened".to_string(), "abandoned".to_string()]);
}

#[test]
fn what_a_write_opened_is_read_from_the_write_itself() {
    let mut before = model_with_resps(&[("r1", "exists")]);
    let first = open_change(&mut before, "already open", 100);

    let mut after = before.clone();
    let second = open_change(&mut after, "newly open", 200);

    let opened = opened_by(&before, &after);
    assert_eq!(opened.len(), 1);
    assert_eq!(opened[0].id, second);
    assert!(opened_by(&before, &before).is_empty());
    assert_eq!(
        opened_by(&ScryModel::new(), &after).len(),
        2,
        "against an empty plan, both changes read as opened"
    );
    let _ = first;
}

#[test]
fn fold_closes_the_emptied_change_and_records_its_rationale() {
    let r = Store::new();
    write_model_at(&r, &model_with_resps(&[("r1", "exists")])).unwrap();

    let mut plan = model_with_resps(&[("r1", "exists"), ("r2", "new A"), ("r3", "new B")]);
    let a = open_change(&mut plan, "track vagrant properties too", 100);
    let b = open_change(&mut plan, "second workstream", 200);
    tag(
        &mut plan,
        &vec![element_key(ElementKind::Responsibility, None, "r2")],
        &a,
    );
    tag(
        &mut plan,
        &vec![element_key(ElementKind::Responsibility, None, "r3")],
        &b,
    );
    write_planned_at(&r, &plan).unwrap();

    commit_element(&r, ElementKind::Responsibility, None, "r2").unwrap();

    let planned = read_planned_at(&r).unwrap();
    assert_eq!(
        planned.changes.len(),
        1,
        "the emptied change left the registry"
    );
    assert_eq!(planned.changes[0].id, b);
    assert_eq!(
        planned.change_map.keys(),
        vec![element_key(ElementKind::Responsibility, None, "r3")]
    );
    let committed = read_model_at(&r).unwrap();
    assert!(committed.changes.is_empty() && committed.change_map.is_empty());

    let closes: Vec<_> = read_history(&r)
        .into_iter()
        .filter(|e| e.kind == EventKind::Change && e.driver != "opened")
        .collect();
    assert_eq!(closes.len(), 1);
    assert_eq!(closes[0].change_id.as_deref(), Some(a.as_str()));
    assert_eq!(closes[0].driver, "folded");
    assert_eq!(closes[0].rows[0].text, "track vagrant properties too");
}

#[test]
fn revert_abandons_the_change_but_an_untagged_open_change_survives() {
    let r = Store::new();
    write_model_at(&r, &model_with_resps(&[("r1", "exists")])).unwrap();

    let mut plan = model_with_resps(&[("r1", "exists"), ("r2", "new A")]);
    let tagged = open_change(&mut plan, "doomed", 100);
    tag(
        &mut plan,
        &vec![element_key(ElementKind::Responsibility, None, "r2")],
        &tagged,
    );
    let fresh = open_change(&mut plan, "not yet written", 150);
    write_planned_at(&r, &plan).unwrap();

    let mut reverted = read_planned_at(&r).unwrap();
    for n in &mut reverted.nodes {
        n.responsibilities.retain(|x| x.id != "r2");
    }
    write_planned_at(&r, &reverted).unwrap();

    let planned = read_planned_at(&r).unwrap();
    assert_eq!(planned.changes.len(), 1);
    assert_eq!(
        planned.changes[0].id, fresh,
        "the never-tagged change is not GC bait"
    );
    assert!(planned.change_map.is_empty());
    let closes: Vec<_> = read_history(&r)
        .into_iter()
        .filter(|e| e.kind == EventKind::Change && e.driver != "opened")
        .collect();
    assert_eq!(closes.len(), 1);
    assert_eq!(closes[0].change_id.as_deref(), Some(tagged.as_str()));
    assert_eq!(closes[0].driver, "abandoned");
}

#[test]
fn whole_node_fold_leaves_foreign_tagged_claims_in_the_plan() {
    let r = Store::new();
    let mut committed = ScryModel::new();
    committed.nodes.push(node("n1", Kind::System, "S", None));
    write_model_at(&r, &committed).unwrap();

    let mut plan = committed.clone();
    let mut n2 = node("n2", Kind::Container, "C", Some("n1"));
    n2.responsibilities = vec![claim("r2", "task A's claim"), claim("r3", "task B's claim")];
    plan.nodes.push(n2);
    let a = open_change(&mut plan, "task A", 100);
    let b = open_change(&mut plan, "task B", 200);
    tag(
        &mut plan,
        &vec![
            element_key(ElementKind::Node, None, "n2"),
            element_key(ElementKind::Responsibility, None, "r2"),
        ],
        &a,
    );
    tag(
        &mut plan,
        &vec![element_key(ElementKind::Responsibility, None, "r3")],
        &b,
    );
    write_planned_at(&r, &plan).unwrap();

    commit_element(&r, ElementKind::Node, None, "n2").unwrap();

    let committed = read_model_at(&r).unwrap();
    let n2 = committed.nodes.iter().find(|n| n.id == "n2").unwrap();
    assert!(n2.responsibilities.iter().any(|x| x.id == "r2"));
    assert!(
        !n2.responsibilities.iter().any(|x| x.id == "r3"),
        "task B's claim must not ride task A's fold"
    );
    let planned = read_planned_at(&r).unwrap();
    assert_eq!(planned.changes.len(), 1, "task B stays open");
    assert_eq!(planned.changes[0].id, b);
    assert_eq!(
        planned.change_map.keys(),
        vec![element_key(ElementKind::Responsibility, None, "r3")]
    );
}

#[test]
fn build_fold_closes_all_changes_and_strips_both_layers() {
    let r = Store::new();
    write_model_at(&r, &model_with_resps(&[("r1", "exists")])).unwrap();

    let mut built = model_with_resps(&[("r1", "exists"), ("r2", "built")]);
    let id = open_change(&mut built, "the build task", 100);
    tag(
        &mut built,
        &vec![element_key(ElementKind::Responsibility, None, "r2")],
        &id,
    );

    fold_built(&r, &built);

    let committed = read_model_at(&r).unwrap();
    assert!(committed.changes.is_empty() && committed.change_map.is_empty());
    let planned = read_planned_at(&r).unwrap();
    assert!(planned.changes.is_empty() && planned.change_map.is_empty());
    let closes: Vec<_> = read_history(&r)
        .into_iter()
        .filter(|e| e.kind == EventKind::Change && e.driver != "opened")
        .collect();
    assert_eq!(closes.len(), 1);
    assert_eq!(closes[0].change_id.as_deref(), Some(id.as_str()));
}

#[test]
fn close_change_discards_only_empty_ledgers() {
    let r = Store::new();
    write_model_at(&r, &model_with_resps(&[("r1", "exists")])).unwrap();

    let mut plan = model_with_resps(&[("r1", "exists"), ("r2", "new A")]);
    let tagged = open_change(&mut plan, "real work", 100);
    tag(
        &mut plan,
        &vec![element_key(ElementKind::Responsibility, None, "r2")],
        &tagged,
    );
    let stranded = open_change(&mut plan, "opened then orphaned", 200);
    write_planned_at(&r, &plan).unwrap();

    assert!(close_change(&r, &tagged)
        .unwrap_err()
        .contains("1 tagged entry"));
    assert!(close_change(&r, "chg-99")
        .unwrap_err()
        .contains("no open change"));

    let meta = close_change(&r, &stranded).unwrap();
    assert_eq!(meta.rationale, "opened then orphaned");
    let planned = read_planned_at(&r).unwrap();
    assert_eq!(
        planned.changes.len(),
        1,
        "only the tagged change remains open"
    );
    assert_eq!(planned.changes[0].id, tagged);

    let closes: Vec<_> = read_history(&r)
        .into_iter()
        .filter(|e| e.kind == EventKind::Change && e.driver != "opened")
        .collect();
    assert_eq!(closes.len(), 1);
    assert_eq!(closes[0].change_id.as_deref(), Some(stranded.as_str()));
    assert_eq!(closes[0].driver, "abandoned");
    assert_eq!(closes[0].rows[0].text, "opened then orphaned");
}

#[test]
fn element_keys_round_trip_and_self_classify() {
    for (kind, owner, id) in [
        (ElementKind::Node, None, "node-3"),
        (ElementKind::Link, None, "link-1"),
        (ElementKind::Group, None, "grp-2"),
        (ElementKind::Responsibility, None, "resp-9"),
        (ElementKind::Property, Some("node-3"), "odooMapping"),
    ] {
        let key = element_key(kind, owner, id);
        let (k, o, i) = parse_key(&key).unwrap();
        assert_eq!(k, kind);
        assert_eq!(o.as_deref(), owner);
        assert_eq!(i, id);
    }
    let key = element_key(ElementKind::Property, Some("node-3"), "std::vec::Vec");
    let (_, o, i) = parse_key(&key).unwrap();
    assert_eq!(o.as_deref(), Some("node-3"));
    assert_eq!(i, "std::vec::Vec");
    assert!(parse_key("bogus").is_none());
    assert!(parse_key("widget:x").is_none());
}

#[test]
fn open_change_mints_a_fresh_id_every_time() {
    let mut m = ScryModel::new();
    let a = open_change(&mut m, "  first task  ", 100);
    assert!(is_minted_id(&a, "chg"), "{a}");
    assert_eq!(m.changes[0].rationale, "first task");
    m.change_map.insert("node:n1".into(), "chg-7".into());
    let b = open_change(&mut m, "second", 200);
    assert!(is_minted_id(&b, "chg"), "{b}");
    assert_ne!(b, a);
    assert_ne!(b, "chg-7");
    assert_eq!(m.changes.len(), 2);
}

#[test]
fn tag_reports_cross_change_collisions_and_last_writer_wins() {
    let mut m = ScryModel::new();
    let keys = vec!["resp:r1".to_string(), "resp:r2".to_string()];
    assert!(tag(&mut m, &keys, "chg-1").is_empty());
    assert!(tag(&mut m, &keys[..1].to_vec(), "chg-1").is_empty());
    let conflicts = tag(&mut m, &keys, "chg-2");
    assert_eq!(
        conflicts,
        vec![
            ("resp:r1".into(), "chg-1".into()),
            ("resp:r2".into(), "chg-1".into())
        ]
    );
    assert_eq!(*m.change_map.get("resp:r1").unwrap(), "chg-2");
}

#[test]
fn retag_moves_a_carrier_with_everything_pending_under_it() {
    let committed = model_with_resps(&[("r1", "exists")]);
    let mut plan = model_with_resps(&[("r1", "exists"), ("r2", "new A"), ("r3", "new B")]);
    let wrong = open_change(&mut plan, "the wrong home", 100);
    let right = open_change(&mut plan, "where it belongs", 200);
    tag(
        &mut plan,
        &vec![
            element_key(ElementKind::Responsibility, None, "r2"),
            element_key(ElementKind::Responsibility, None, "r3"),
        ],
        &wrong,
    );

    let out = retag(&committed, &mut plan, &vec!["n1".into()], Some(&right)).unwrap();

    assert_eq!(
        out.moved.len(),
        2,
        "both claims under the node moved: {:?}",
        out.moved
    );
    assert!(out.unmatched.is_empty());
    assert_eq!(*plan.change_map.get("resp:r2").unwrap(), right);
    assert_eq!(*plan.change_map.get("resp:r3").unwrap(), right);
    assert!(out
        .moved
        .iter()
        .all(|(_, from)| from.as_deref() == Some(wrong.as_str())));
}

#[test]
fn retag_targets_elements_whole_changes_and_the_unfiled_bucket() {
    let committed = model_with_resps(&[("r1", "exists")]);
    let mut plan = model_with_resps(&[("r1", "exists"), ("r2", "new A"), ("r3", "new B")]);
    let a = open_change(&mut plan, "change A", 100);
    let b = open_change(&mut plan, "change B", 200);
    tag(
        &mut plan,
        &vec![element_key(ElementKind::Responsibility, None, "r2")],
        &a,
    );

    let out = retag(&committed, &mut plan, &vec!["r3".into()], Some(&b)).unwrap();
    assert_eq!(out.moved, vec![("resp:r3".to_string(), None)]);

    let out = retag(&committed, &mut plan, &vec![a.clone()], Some(&b)).unwrap();
    assert_eq!(out.moved, vec![("resp:r2".to_string(), Some(a.clone()))]);
    assert_eq!(*plan.change_map.get("resp:r2").unwrap(), b);

    let out = retag(&committed, &mut plan, &vec![b.clone()], None).unwrap();
    assert_eq!(out.moved.len(), 2);
    assert!(
        plan.change_map.is_empty(),
        "detached keys leave the map: {:?}",
        plan.change_map
    );

    let out = retag(&committed, &mut plan, &vec!["unfiled".into()], Some(&a)).unwrap();
    assert_eq!(out.moved.len(), 2);
}

#[test]
fn retag_reports_unmatched_ids_and_stays_idempotent() {
    let committed = model_with_resps(&[("r1", "exists")]);
    let mut plan = model_with_resps(&[("r1", "exists"), ("r2", "new A")]);
    let a = open_change(&mut plan, "change A", 100);
    tag(
        &mut plan,
        &vec![element_key(ElementKind::Responsibility, None, "r2")],
        &a,
    );

    let out = retag(&committed, &mut plan, &vec!["r1".into(), "r2".into()], Some(&a)).unwrap();
    assert_eq!(out.unmatched, vec!["r1".to_string()]);
    assert!(out.moved.is_empty(), "r2 was already filed under A");

    assert!(retag(&committed, &mut plan, &vec!["r2".into()], Some("chg-99")).is_err());
}

#[test]
fn sign_off_classifies_later_edits_against_the_snapshot() {
    let mut plan = model_with_resps(&[("r1", "does one"), ("r2", "does two")]);
    let cid = open_change(&mut plan, "two claims", 1);
    tag(
        &mut plan,
        &vec!["resp:r1".to_string(), "resp:r2".to_string()],
        &cid,
    );
    assert_eq!(sign_off(&mut plan, &cid, 2).unwrap(), 2);
    let meta = plan.changes[0].clone();
    assert_eq!(meta.signed_off.as_ref().unwrap().at, 2);
    assert_eq!(
        meta.signed_off.as_ref().unwrap().entries.get("resp:r1").unwrap()
            .statement
            .as_deref(),
        Some("does one")
    );
    assert!(
        classify_against_signoff(&plan, &meta).is_empty(),
        "nothing moved yet"
    );

    plan.nodes[0].responsibilities[0].statement = "does one differently".into();
    plan.nodes[0].responsibilities.retain(|r| r.id != "r2");
    plan.change_map.remove("resp:r2");
    plan.nodes[0].responsibilities.push(
        claim("r3", "does three")
    );
    tag(&mut plan, &vec!["resp:r3".to_string()], &cid);

    let mut out = classify_against_signoff(&plan, &meta);
    out.sort_by(|a, b| a.0.cmp(&b.0));
    let kinds: Vec<(String, Classification)> =
        out.iter().map(|(k, c, _)| (k.clone(), *c)).collect();
    assert_eq!(
        kinds,
        vec![
            ("resp:r1".to_string(), Classification::Amended),
            ("resp:r2".to_string(), Classification::Dropped),
            ("resp:r3".to_string(), Classification::Added),
        ]
    );
    assert_eq!(
        out[0].2.as_ref().unwrap().statement.as_deref(),
        Some("does one")
    );
    assert_eq!(
        classify_key(&plan, "resp:r1").unwrap().1,
        Classification::Amended
    );
    assert_eq!(
        classify_key(&plan, "resp:r3").unwrap().1,
        Classification::Added
    );
    assert!(classify_key(&plan, "resp:nope").is_none());
}

#[test]
fn entry_hash_ignores_cosmetics_but_sees_a_move() {
    let mut plan = model_with_resps(&[("r1", "does one")]);
    plan.nodes.push(
        node("n2", Kind::Component, "D", None)
    );
    let before = entry_hash(&plan, "resp:r1").unwrap();
    plan.nodes[0].responsibilities[0].concern = Some("auth".into());
    plan.nodes[0].responsibilities[0].directives = vec!["must log".into()];
    plan.nodes[0].responsibilities[0].last_touched_at = Some(99);
    plan.nodes[0].icon = Some("Box".into());
    assert_eq!(
        entry_hash(&plan, "resp:r1").unwrap().hash,
        before.hash,
        "cosmetic edits are not content"
    );

    let r = plan.nodes[0].responsibilities.remove(0);
    plan.nodes[1].responsibilities.push(r);
    let moved = entry_hash(&plan, "resp:r1").unwrap();
    assert_ne!(moved.hash, before.hash, "a move changes the signed content");
    assert_eq!(moved.host.as_deref(), Some("n2"));
    assert!(entry_hash(&plan, "resp:gone").is_none());
    assert_eq!(fnv1a64(b"foobar"), "85944171f73967e8");
}

#[test]
fn restamp_signoffs_refreshes_signed_changes_only() {
    let mut plan = model_with_resps(&[("r1", "does one"), ("r2", "does two")]);
    let signed = open_change(&mut plan, "signed", 1);
    let unsigned = open_change(&mut plan, "unsigned", 1);
    tag(&mut plan, &vec!["resp:r1".to_string()], &signed);
    tag(&mut plan, &vec!["resp:r2".to_string()], &unsigned);
    sign_off(&mut plan, &signed, 2).unwrap();
    plan.nodes[0].responsibilities[0].statement = "does one, the dev's way".into();
    let meta = plan
        .changes
        .iter()
        .find(|c| c.id == signed)
        .cloned()
        .unwrap();
    assert_eq!(
        classify_against_signoff(&plan, &meta).len(),
        1,
        "diverges before the re-stamp"
    );

    assert_eq!(restamp_signoffs(&mut plan, 3), 1);
    let meta = plan
        .changes
        .iter()
        .find(|c| c.id == signed)
        .cloned()
        .unwrap();
    assert!(
        classify_against_signoff(&plan, &meta).is_empty(),
        "the dev's edit is intent"
    );
    assert_eq!(meta.signed_off.as_ref().unwrap().at, 3);
    assert!(plan
        .changes
        .iter()
        .find(|c| c.id == unsigned)
        .unwrap()
        .signed_off
        .is_none());
}

#[test]
fn a_policy_is_off_until_it_is_on() {
    let mut m = ScryModel::new();
    assert!(!requires_countersigned_folds(&m) && !requires_change_titles(&m));
    m.policy =
        Some(Policy { require_change_titles: false, require_countersigned_folds: true });
    assert!(requires_countersigned_folds(&m) && !requires_change_titles(&m));
}

#[test]
fn a_title_is_trimmed_and_bounded() {
    assert_eq!(validate_title("  a name ").unwrap(), "a name");
    assert!(validate_title("   ").is_err());
    assert!(validate_title(&"x".repeat(81)).is_err());
}

#[test]
fn dead_tags_foretell_what_cleaning_closes() {
    let committed = model_with_resps(&[("r1", "exists")]);
    let mut plan = model_with_resps(&[("r1", "exists"), ("r2", "new")]);
    let live = open_change(&mut plan, "live", 1);
    let dead = open_change(&mut plan, "dead", 2);
    tag(&mut plan, &vec!["resp:r2".to_string()], &live);
    tag(&mut plan, &vec!["resp:r1".to_string(), "node:gone".to_string()], &dead);
    assert_eq!(dead_tags(&committed, &plan, &dead), vec!["node:gone", "resp:r1"]);
    assert!(would_abandon(&committed, &plan, &dead));
    assert!(!would_abandon(&committed, &plan, &live));
    let swept = gc(&committed, &mut plan);
    assert_eq!(swept.pruned, 2);
    assert_eq!(swept.closed.iter().map(|c| c.id.clone()).collect::<Vec<_>>(), vec![dead]);
    assert_eq!(plan.change_map.keys(), vec!["resp:r2"]);
    let again = gc(&committed, &mut plan);
    assert_eq!((again.pruned, again.closed.len()), (0, 0));
}

#[test]
fn a_claim_of_another_change_is_foreign_to_its_host() {
    let mut map: StrMap<String> = StrMap::new();
    map.insert("node:n".into(), "chg-1".into());
    map.insert("resp:a".into(), "chg-1".into());
    map.insert("resp:b".into(), "chg-2".into());
    assert!(!foreign_to_host(&map, "node:n", "resp:a"));
    assert!(foreign_to_host(&map, "node:n", "resp:b"));
    assert!(foreign_to_host(&map, "node:other", "resp:a"));
    assert!(!foreign_to_host(&map, "node:n", "resp:untagged"));
}

#[test]
fn every_plan_entry_has_a_key_that_reads_back() {
    let committed = model_with_resps(&[("r1", "exists")]);
    let plan = model_with_resps(&[("r1", "reworded"), ("r2", "new")]);
    for ch in &diff(&committed, &plan).changes {
        let (kind, owner, id) = parse_key(&key_for(ch)).unwrap();
        assert_eq!((kind, id.as_str()), (ch.kind, ch.id.as_str()));
        assert!(owner.is_none());
    }
}

#[test]
fn closing_and_signing_name_the_change_they_miss() {
    let mut plan = ScryModel::new();
    assert!(sign_off(&mut plan, "chg-9", 1).unwrap_err().contains("chg-9"));
    assert!(close(&mut plan, "chg-9").unwrap_err().contains("no open change"));
    assert!(abandon(&ScryModel::new(), &mut plan, "chg-9").is_err());
}

#[test]
fn names_and_citations_are_signed() {
    let mut plan = model_with_resps(&[("r1", "does one")]);
    let bare = entry_hash(&plan, "resp:r1").unwrap();
    plan.nodes[0].responsibilities[0].cites = vec!["doc-intro".into()];
    let cited = entry_hash(&plan, "resp:r1").unwrap();
    assert_ne!(cited.hash, bare.hash, "a citation is content");
    plan.nodes[0].responsibilities[0].cites = vec!["doc".into(), "intro".into()];
    assert_ne!(entry_hash(&plan, "resp:r1").unwrap().hash, cited.hash);
    plan.nodes[0].responsibilities[0].cites.clear();
    plan.nodes[0].responsibilities[0].title = Some("One".into());
    assert_ne!(entry_hash(&plan, "resp:r1").unwrap().hash, bare.hash, "so is a name");
    plan.nodes[0].responsibilities[0].title = None;
    assert_eq!(entry_hash(&plan, "resp:r1").unwrap().hash, bare.hash);
}

#[test]
fn a_claims_signature_tells_what_it_covers() {
    let mut plan = model_with_resps(&[("r1", "does one")]);
    plan.nodes.push(node("n2", Kind::Component, "D", None));
    let before = entry_hash(&plan, "resp:r1").unwrap();
    let mut dressed = plan.clone();
    let c = &mut dressed.nodes[0].responsibilities[0];
    c.concern = Some("auth".into());
    c.last_touched_at = Some(99);
    c.stale = Some(true);
    c.vagrant = Some(true);
    c.vagrant_origin = Some("addition".into());
    dressed.nodes[1].icon = Some("Box".into());
    assert_eq!(entry_hash(&dressed, "resp:r1").unwrap(), before);
    let mut told = vec![before.hash.clone()];
    let mut changed = plan.clone();
    changed.nodes[0].responsibilities[0].statement = "does another".into();
    told.push(entry_hash(&changed, "resp:r1").unwrap().hash);
    changed = plan.clone();
    changed.nodes[0].responsibilities[0].title = Some("[]".into());
    told.push(entry_hash(&changed, "resp:r1").unwrap().hash);
    changed.nodes[0].responsibilities[0].cites = vec!["a\",\"b".into()];
    told.push(entry_hash(&changed, "resp:r1").unwrap().hash);
    changed.nodes[0].responsibilities[0].cites = vec!["a".into(), "b".into()];
    told.push(entry_hash(&changed, "resp:r1").unwrap().hash);
    changed = plan.clone();
    let moved = changed.nodes[0].responsibilities.remove(0);
    changed.nodes[1].responsibilities.push(moved);
    let there = entry_hash(&changed, "resp:r1").unwrap();
    assert_eq!(there.host.as_deref(), Some("n2"));
    told.push(there.hash);
    told.sort();
    told.dedup();
    assert_eq!(told.len(), 6);
    assert!(entry_hash(&plan, "resp:gone").is_none());
}

#[test]
fn a_write_sees_to_each_change_on_its_own() {
    let mut plan = model_with_resps(&[("r1", "does one"), ("r2", "does two"), ("r3", "does three")]);
    let mine = open_change(&mut plan, "mine", 1);
    let yours = open_change(&mut plan, "yours", 1);
    let open = open_change(&mut plan, "open", 1);
    for (key, id) in [("resp:r1", &mine), ("resp:r2", &yours), ("resp:r3", &open)] {
        tag(&mut plan, &vec![key.to_string()], id);
    }
    sign_off_as(&mut plan, &mine, 2, Some("ada")).unwrap();
    sign_off_as(&mut plan, &yours, 2, Some("bob")).unwrap();
    for c in &mut plan.nodes[0].responsibilities {
        c.statement.push_str(", now");
    }
    let before = plan.clone();
    let by = |m: &ScryModel, id: &str| m.changes.iter().find(|c| c.id == id).cloned().unwrap();
    let done = restamp_signoffs_as(&mut plan, 9, Some(" ada "));
    assert_eq!((&done.restamped, &done.staled), (&vec![mine.clone()], &vec![yours.clone()]));
    let signed = by(&plan, &mine).signed_off.unwrap();
    assert_eq!((signed.at, signed.by.as_deref()), (9, Some("ada")));
    assert!(classify_against_signoff(&plan, &by(&plan, &mine)).is_empty());
    let mut expected = by(&before, &yours);
    expected.signed_off.as_mut().unwrap().staled_by = Some("ada".into());
    assert_eq!(by(&plan, &yours), expected);
    assert_eq!(by(&plan, &open), by(&before, &open));
    for writer in [None, Some("  ")] {
        let mut again = before.clone();
        let done = restamp_signoffs_as(&mut again, 9, writer);
        assert_eq!(done.restamped, vec![mine.clone(), yours.clone()]);
        assert!(done.staled.is_empty());
        assert_eq!(by(&again, &yours).signed_off.unwrap().by.as_deref(), Some("bob"));
        assert!(classify_against_signoff(&again, &by(&again, &yours)).is_empty());
    }
}

#[test]
fn what_is_set_aside_is_not_refiled() {
    let committed = model_with_resps(&[("r1", "does one"), ("r2", "does two")]);
    let mut plan = model_with_resps(&[("r1", "does one more"), ("r2", "does two more")]);
    let to = open_change(&mut plan, "one", 1);
    let targets = vec!["unfiled".to_string()];
    let aside = vec!["resp:r2".to_string()];
    let moved = retag_without(&committed, &mut plan, &targets, Some(&to), &aside).unwrap().moved;
    assert_eq!(moved, vec![("resp:r1".to_string(), None)]);
    let moved = retag(&committed, &mut plan, &targets, Some(&to)).unwrap().moved;
    assert_eq!(moved, vec![("resp:r2".to_string(), None)]);
}
