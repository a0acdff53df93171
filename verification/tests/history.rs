use scryer_core::history::{name_given, EventKind, EventRow, HistoryEvent};
use scryer_core::SourceLocation;

#[test]
fn an_event_carrying_an_actor_names_it_instead_of_the_agent() {
    let log = vec![
        HistoryEvent::new(100, EventKind::Impl, "n1", "build").by_actor(Some("jesseh")),
        HistoryEvent::new(200, EventKind::Impl, "n1", "build"),
        HistoryEvent::new(300, EventKind::Impl, "n1", "build").by_actor(Some("   ")),
    ];
    assert_eq!(log[0].by, "jesseh", "the named actor drove it");
    assert_eq!(log[1].by, "agent", "no actor supplied: unattributed");
    assert_eq!(log[2].by, "agent", "a blank actor names nobody");
}

#[test]
fn resp_hmesby_a_plan_event_reads_back_as_its_own_kind() {
    let proposed = HistoryEvent::new(100, EventKind::Plan, "n1", "chg-7")
        .with_change("chg-7")
        .with_rows(vec![EventRow::new("+", "**When** the card is charged, **record** it")]);
    let built = HistoryEvent::new(200, EventKind::Impl, "n1", "fill");
    let log = vec![proposed, built];
    assert_eq!(log[0].kind, EventKind::Plan, "the proposal keeps its own kind");
    assert_ne!(log[0].kind, log[1].kind, "a plan event is not the fold beside it");
    assert_eq!(log[0].change_id.as_deref(), Some("chg-7"));
    assert_eq!(log[0].rows[0].marker, "+");
}

#[test]
fn an_event_is_built_up_step_by_step() {
    let at = SourceLocation {
        pattern: "api/payment/handler.rs".into(),
        symbol: Some("charge".into()),
        line: Some(40),
        end_line: Some(78),
    };
    let e = HistoryEvent::new(200, EventKind::Change, "", "opened")
        .with_change("chg-1")
        .with_change_title("A name")
        .by_actor(Some(" sam "))
        .for_person(Some("morgan"))
        .with_rows(vec![EventRow::new("+", "Charges the card").with_source(at.clone())]);
    assert_eq!((e.at, e.driver.as_str(), e.node_id.as_str()), (200, "opened", ""));
    assert_eq!(e.change_title.as_deref(), Some("A name"));
    assert_eq!(e.by, "sam");
    assert_eq!(e.on_behalf_of.as_deref(), Some("morgan"));
    assert_eq!(e.rows[0].source, Some(at));
    assert_eq!(name_given(Some("  ")), None);
    assert_eq!(name_given(Some(" x ")), Some("x".to_string()));
    assert_eq!(name_given(None), None);
}
