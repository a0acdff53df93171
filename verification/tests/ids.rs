use scryer_core::ids::{id_from_draw, SUFFIX_LEN};
use scryer_core::{
    is_minted_id, make_link_id, mint_id, mint_id_from, next_group_id, next_node_id,
    next_responsibility_id, ScryModel,
};

#[test]
fn two_minters_over_the_same_snapshot_disagree() {
    let m = ScryModel::new();
    let a = next_node_id(&m);
    let b = next_node_id(&m);
    assert_ne!(a, b);
    assert!(
        a.starts_with("node-") && a.len() == "node-".len() + SUFFIX_LEN,
        "{a}"
    );
}

#[test]
fn a_taken_id_is_never_returned() {
    let held = mint_id("resp", &Vec::new());
    let taken = vec![held.clone()];
    for _ in 0..1000 {
        assert_ne!(mint_id("resp", &taken), held);
    }
}

#[test]
fn both_id_shapes_read_as_minted() {
    assert!(is_minted_id("resp-42", "resp"));
    assert!(is_minted_id("resp-k7x2qd", "resp"));
    assert!(!is_minted_id("resp-", "resp"));
    assert!(!is_minted_id("resp-new", "resp"));
    assert!(!is_minted_id("resp-k7x2qdz", "resp"));
    assert!(!is_minted_id("node-42", "resp"));
}

#[test]
fn a_suffix_spells_a_draw() {
    let none = Vec::new();
    assert_eq!(id_from_draw("node", &none, 0).as_deref(), Some("node-000000"));
    assert_eq!(id_from_draw("node", &none, 1).as_deref(), Some("node-100000"));
    assert_eq!(id_from_draw("grp", &none, 32).as_deref(), Some("grp-010000"));
    let held = vec!["node-000000".to_string()];
    assert_eq!(id_from_draw("node", &held, 0), None);
}

#[test]
fn fresh_ids_avoid_what_is_there() {
    let m = ScryModel::new();
    assert!(next_group_id(&m).starts_with("group-"));
    let taken = vec!["resp-1".to_string()];
    assert!(is_minted_id(&next_responsibility_id(&Vec::new()), "resp"));
    assert!(is_minted_id(&mint_id_from("node", taken), "node"));
    assert_eq!(make_link_id("a", "b"), "link-a-b");
}
