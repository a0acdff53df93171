use scryer_core::refusals::{prune_refusals, update_refusals, Refusal};

fn refusal(id: &str, kind: &str) -> Refusal {
    Refusal {
        resp_id: id.into(),
        host_id: "n1".into(),
        kind: kind.into(),
        reason: format!("{kind} for {id}"),
        run: vec!["tests/a.test.ts".into()],
        at: 1,
    }
}

#[test]
fn a_refusal_is_recorded_replaced_and_cleared_by_a_fold() {
    let none: Vec<Refusal> = Vec::new();
    let now =
        update_refusals(&none, &vec![refusal("r1", "no-test"), refusal("r2", "stale")], &vec![]);
    assert_eq!(now.len(), 2);

    let now = update_refusals(&now, &vec![refusal("r1", "no-verdict")], &vec![]);
    assert_eq!(now.len(), 2);
    assert_eq!(now.iter().find(|x| x.resp_id == "r1").unwrap().kind, "no-verdict");

    let now = update_refusals(&now, &none, &vec!["r1".to_string()]);
    assert_eq!(now.len(), 1);
    assert_eq!(now[0].resp_id, "r2");

    let now = update_refusals(&now, &none, &vec!["r2".to_string()]);
    assert!(now.is_empty());
}

#[test]
fn pruning_drops_refusals_for_claims_gone_from_the_plan() {
    let ledger = update_refusals(
        &Vec::new(),
        &vec![refusal("r1", "no-test"), refusal("r2", "stale")],
        &Vec::new(),
    );
    let live = vec!["r2".to_string()];
    let now = prune_refusals(&ledger, &live);
    assert_eq!(now.len(), 1);
    assert_eq!(now[0].resp_id, "r2");
}
