use base64::Engine;
use scryer_core::basis::{
    check, check_set, check_without, decode, derive_without, differences, encode, read_set,
    read_set_without, Scope, TOKEN_PREFIX,
};
use scryer_core::strmap::StrMap;
use scryer_core::{
    Directive, Group, Kind, Link, Node, Position, Responsibility, ScryModel, SourceLocation,
    SCRY_VERSION,
};
use std::io::Write;

fn claim(id: &str, statement: &str) -> Responsibility {
    Responsibility {
        title: None,
        cites: Vec::new(),
        id: id.into(),
        statement: statement.into(),
        concern: None,
        vagrant: None,
        vagrant_origin: None,
        approved_statement: None,
        stale: None,
        stale_proposal: None,
        directives: Vec::new(),
        last_touched_at: None,
    }
}

fn node(id: &str, claims: Vec<Responsibility>) -> Node {
    Node {
        id: id.into(),
        kind: Kind::Component,
        name: id.into(),
        parent_id: None,
        external: None,
        technology: None,
        description: None,
        vagrant: None,
        stale: None,
        responsibilities: claims,
        properties: Vec::new(),
        icon: None,
        notes: None,
        position: None,
        directives: Vec::new(),
    }
}

fn model(nodes: Vec<Node>) -> ScryModel {
    ScryModel {
        version: SCRY_VERSION.to_string(),
        nodes,
        links: Vec::new(),
        groups: Vec::new(),
        source_map: StrMap::new(),
        test_map: StrMap::new(),
        boundaries: StrMap::new(),
        concerns: Vec::new(),
        changes: Vec::new(),
        change_map: StrMap::new(),
        policy: None,
    }
}

#[test]
fn a_basis_round_trips_through_its_token() {
    let m = model(vec![node("n1", vec![claim("r1", "**Answers** the call")])]);
    let token = scryer_core::basis::derive(&m, &m, &Scope::nodes(vec!["n1".to_string()])).unwrap();
    assert!(token.starts_with(TOKEN_PREFIX));
    let back = decode(&token).unwrap();
    assert_eq!(back.scope.nodes, vec!["n1".to_string()]);
    assert_eq!(back, read_set(&m, &m, &Scope::nodes(vec!["n1".to_string()])));
}

#[test]
fn a_reword_elsewhere_in_the_scope_is_the_write_skew_the_basis_catches() {
    let before = model(vec![node(
        "n1",
        vec![
            claim("r1", "**Answers** the call"),
            claim("r2", "**Writes** the log"),
        ],
    )]);
    let token = scryer_core::basis::derive(&before, &before, &Scope::nodes(vec!["n1".to_string()])).unwrap();

    let after = model(vec![node(
        "n1",
        vec![
            claim("r1", "**Answers** the call twice"),
            claim("r2", "**Writes** the log"),
        ],
    )]);
    let refusal = check(&after, &after, &token).unwrap_err();
    assert!(refusal.contains("stale"), "{refusal}");
    assert!(
        refusal.contains("r1"),
        "the refusal names claim r1: {refusal}"
    );
    assert!(!refusal.contains("r2"), "r2 did not move: {refusal}");
}

#[test]
fn a_claim_added_to_the_scope_moves_the_basis() {
    let before = model(vec![node("n1", vec![claim("r1", "**Answers** the call")])]);
    let token = scryer_core::basis::derive(&before, &before, &Scope::nodes(vec!["n1".to_string()])).unwrap();
    let after = model(vec![node(
        "n1",
        vec![
            claim("r1", "**Answers** the call"),
            claim("r2", "**Writes** the log"),
        ],
    )]);
    let refusal = check(&before, &after, &token).unwrap_err();
    assert!(
        refusal.contains("new:"),
        "an added claim is new in the set: {refusal}"
    );
    assert!(refusal.contains("r2"), "{refusal}");
}

#[test]
fn the_untested_flag_the_tests_and_the_anchors_are_not_in_the_relevant_set() {
    let m = model(vec![node("n1", vec![claim("r1", "**Answers** the call")])]);
    let token = scryer_core::basis::derive(&m, &m, &Scope::nodes(vec!["n1".to_string()])).unwrap();

    let mut after = m.clone();
    after.test_map.insert(
        "r1".into(),
        vec![SourceLocation {
            pattern: "tests/a.rs".into(),
            symbol: Some("resp_r1".into()),
            line: None,
            end_line: None,
        }],
    );
    after.source_map.insert(
        "r1".into(),
        vec![SourceLocation {
            pattern: "src/a.rs".into(),
            symbol: Some("answer".into()),
            line: None,
            end_line: None,
        }],
    );
    assert!(check(&after, &after, &token).is_ok());
}

#[test]
fn a_directive_above_the_node_moves_the_basis_and_a_cosmetic_stamp_does_not() {
    let mut parent = node("p1", vec![]);
    parent.kind = Kind::Container;
    let mut child = node("n1", vec![claim("r1", "**Answers** the call")]);
    child.parent_id = Some("p1".into());
    let before = model(vec![parent.clone(), child.clone()]);
    let token = scryer_core::basis::derive(&before, &before, &Scope::nodes(vec!["n1".to_string()])).unwrap();

    let mut stamped = before.clone();
    stamped.nodes[1].responsibilities[0].last_touched_at = Some(1_789_000_000);
    stamped.nodes[1].position = Some(Position { x: 4.0f64.to_bits(), y: 2.0f64.to_bits() });
    assert!(check(&stamped, &stamped, &token).is_ok());

    let mut directed = before.clone();
    directed.nodes[0].directives = vec!["Never log a token".into()];
    let refusal = check(&directed, &directed, &token).unwrap_err();
    assert!(refusal.contains("binding directives of n1"), "{refusal}");
}

#[test]
fn resp_b00631_a_citation_is_part_of_what_the_basis_fingerprints() {
    let before = model(vec![node("n1", vec![claim("r1", "**Answers** the call")])]);
    let token = scryer_core::basis::derive(&before, &before, &Scope::nodes(vec!["n1".to_string()])).unwrap();

    let mut cited = before.clone();
    cited.nodes[0].responsibilities[0].cites = vec!["doc-intro".into()];
    let refusal = check(&cited, &cited, &token).unwrap_err();
    assert!(
        refusal.contains("r1"),
        "the refusal names the claim whose citation arrived: {refusal}"
    );

    let mut worded = before.clone();
    worded.nodes[0].directives = vec!["Never log a token".into()];
    let token = scryer_core::basis::derive(&worded, &worded, &Scope::nodes(vec!["n1".to_string()])).unwrap();
    let mut anchored = worded.clone();
    anchored.nodes[0].directives = vec![Directive::cited(
        "Never log a token",
        vec!["doc-rules".into()],
    )];
    let refusal = check(&anchored, &anchored, &token).unwrap_err();
    assert!(
        refusal.contains("directives of n1"),
        "an anchor on a directive moves the binding set: {refusal}"
    );

    let token = scryer_core::basis::derive(&anchored, &anchored, &Scope::nodes(vec!["n1".to_string()])).unwrap();
    assert!(check(&anchored, &anchored, &token).is_ok());
}

#[test]
fn the_token_is_opaque_and_a_foreign_one_is_refused_with_the_way_out() {
    let m = model(vec![node("n1", vec![claim("r1", "**Answers** the call")])]);
    assert!(check(&m, &m, "whatever-i-made-up")
        .unwrap_err()
        .contains("re-read"));
    assert!(check(&m, &m, "b1.not-base64!!")
        .unwrap_err()
        .contains("re-read"));
    assert!(scryer_core::basis::derive(&m, &m, &Scope::default()).is_none());
}

#[test]
fn ids_in_any_order_derive_one_basis() {
    let m = model(vec![
        node("n1", vec![claim("r1", "**Answers**")]),
        node("n2", vec![claim("r2", "**Writes**")]),
    ]);
    let a = Scope::nodes(vec!["n2".into(), "n1".into(), "n2".into()]);
    let b = Scope::nodes(vec!["n1".into(), "n2".into()]);
    assert_eq!(scryer_core::basis::derive(&m, &m, &a), scryer_core::basis::derive(&m, &m, &b));
    let mut c = a.normalized();
    assert_eq!(c.nodes, vec!["n1", "n2"]);
    c.outline = vec!["n1".into(), "n3".into()];
    assert_eq!(c.normalized().outline, vec!["n3"]);
}

#[test]
fn a_set_of_every_kind_survives_its_token() {
    let mut committed = model(vec![node("n1", vec![claim("r1", "a \"quoted\" \\ line\n")])]);
    committed.groups.push(Group {
        id: "g1".into(),
        name: "G".into(),
        description: None,
        member_ids: vec!["n1".into()],
        parent_group_id: None,
        parent_node_id: None,
        responsibilities: vec![claim("r9", "**Groups**")],
        icon: None,
    });
    let mut planned = committed.clone();
    planned.nodes.push(node("n2", vec![]));
    planned.links.push(Link {
        id: "l1".into(),
        src: "n1".into(),
        dst: "n2".into(),
        label: "tab\tand \u{1} control".into(),
        method: None,
    });
    planned.change_map.insert("node:n2".into(), "chg-1".into());
    let scope = Scope {
        nodes: vec!["n1".into()],
        groups: vec!["g1".into()],
        outline: vec!["n2".into()],
        pending: Some("*".into()),
    };
    let set = read_set(&committed, &planned, &scope);
    let keys = set.entries.keys();
    assert_eq!(
        keys,
        vec!["c:r1", "c:r9", "d:n1", "e:link:l1", "e:node:n2", "o:n1", "o:n2", "p:r1", "p:r9"]
    );
    let token = encode(&set);
    assert_eq!(decode(&token).unwrap(), set);
    assert!(check(&committed, &planned, &token).is_ok());
    assert!(token.starts_with("b1.") && token.is_ascii());

    // What the scope asks for by filing.
    let only = |p: &str| {
        let s = Scope { nodes: vec![], groups: vec![], outline: vec![], pending: Some(p.into()) };
        read_set(&committed, &planned, &s).entries.keys()
    };
    assert_eq!(only("chg-1"), vec!["e:node:n2"]);
    assert_eq!(only("unfiled"), vec!["e:link:l1"]);
}

#[test]
fn a_refusal_lists_twenty_and_counts_the_rest() {
    let claims = |n: usize| (0..n).map(|k| claim(&format!("r{k:02}"), "**Does**")).collect();
    let before = model(vec![node("n1", Vec::new())]);
    let after = model(vec![node("n1", claims(25))]);
    let basis = read_set(&before, &before, &Scope::nodes(vec!["n1".into()]));
    let text = check_set(&before, &after, basis).unwrap_err();
    // Each claim is new in the plan; the outline counts claims; each is pending too.
    assert_eq!(text.matches("\n- ").count(), 21);
    assert!(text.ends_with("more"), "{text}");
}

#[test]
fn what_moved_is_told_in_the_models_words() {
    let long = "word ".repeat(40);
    let before = model(vec![node("n1", vec![claim("r1", "x")])]);
    let after = model(vec![node("n1", vec![claim("r1", &long)])]);
    let scope = Scope::nodes(vec!["n1".into()]);
    let was = read_set(&before, &before, &scope);
    let now = read_set(&after, &after, &scope);
    let lines: Vec<String> =
        differences(&after, &after, &was, &now).iter().map(|d| d.line()).collect();
    let head: String = long.trim_end().chars().take(70).collect();
    assert_eq!(
        lines,
        vec![
            format!("changed: the committed claim r1 on n1 (\"{head}…\")"),
            format!("changed: the planned claim r1 on n1 (\"{head}…\")"),
        ]
    );
    let gone = model(vec![node("n1", vec![])]);
    let now = read_set(&gone, &gone, &scope);
    let lines: Vec<String> =
        differences(&gone, &gone, &was, &now).iter().map(|d| d.line()).collect();
    assert_eq!(
        lines,
        vec![
            "gone: the committed claim r1 (no longer in the model)",
            "changed: the outline of n1 (its name, kind, parent or claim count)",
            "gone: the planned claim r1 (no longer in the model)",
        ]
    );
}

#[test]
fn a_truncated_token_is_refused() {
    let m = model(vec![node("n1", vec![claim("r1", "**Answers** the call")])]);
    let token = scryer_core::basis::derive(&m, &m, &Scope::nodes(vec!["n1".into()])).unwrap();
    let cut = &token[..token.len() / 2];
    let err = decode(cut).unwrap_err();
    assert!(err.starts_with("the basis is not readable ("), "{err}");
    assert!(err.ends_with("); re-read the model"), "{err}");
    assert!(check(&m, &m, cut).unwrap_err().starts_with("REFUSED: the basis is not"));
}

#[test]
fn a_token_of_another_shape_is_refused_with_what_is_wrong() {
    let token = |json: &str| {
        let mut d =
            flate2::write::DeflateEncoder::new(Vec::new(), flate2::Compression::default());
        d.write_all(json.as_bytes()).unwrap();
        let packed = d.finish().unwrap();
        format!("b1.{}", base64::engine::general_purpose::URL_SAFE_NO_PAD.encode(packed))
    };
    let wrong = |json: &str| decode(&token(json)).unwrap_err();
    assert!(wrong("[1]").contains("invalid length"));
    assert!(wrong("7").contains("invalid type"));
    assert!(wrong("{").contains("not readable"));
    assert!(wrong("[[[],[],[],null,0],{}]").contains("invalid field `s`"));
    assert!(wrong("{\"s\":{\"n\":[\"a\",3]},\"k\":{}}").contains("invalid field `n`"));
    assert!(wrong("{\"k\":{}}").contains("missing field `s`"));
    assert!(wrong("{\"s\":{}}").contains("missing field `k`"));
    assert!(wrong("{\"s\":{\"n\":3},\"k\":{}}").contains("invalid field `n`"));
    assert!(wrong("{\"s\":{\"p\":[]},\"k\":{}}").contains("invalid field `p`"));
    assert!(wrong("{\"s\":{},\"k\":{\"a\":1}}").contains("invalid field `k`"));
    let ok = decode(&token("{\"x\":1,\"k\":{\"a\":\"b\"},\"s\":{\"o\":[\"n\"]}}")).unwrap();
    assert_eq!(ok.scope.outline, vec!["n"]);
    assert_eq!(ok.entries.get("a").map(String::as_str), Some("b"));
    let row = decode(&token("[[[\"n1\"],[],[\"o\"]],{\"a\":\"b\"}]")).unwrap();
    assert_eq!(row.scope.nodes, vec!["n1"]);
    assert_eq!(row.scope.outline, vec!["o"]);
    assert!(row.scope.groups.is_empty() && row.scope.pending.is_none());
    assert_eq!(row.entries.get("a").map(String::as_str), Some("b"));
}

#[test]
fn what_is_set_aside_is_not_in_the_relevant_set() {
    let committed = model(vec![node("n1", vec![claim("r1", "**Answers** the call")])]);
    let mut planned = committed.clone();
    planned.nodes.push(node("n2", Vec::new()));
    let mut scope = Scope::nodes(Vec::new());
    scope.pending = Some("*".into());
    let aside = vec!["node:n2".to_string()];
    let whole = read_set(&committed, &planned, &scope);
    assert_eq!(read_set_without(&committed, &planned, &scope, &Vec::new()), whole);
    assert!(whole.entries.get("e:node:n2").is_some());
    let less = read_set_without(&committed, &planned, &scope, &aside);
    assert!(less.entries.get("e:node:n2").is_none());
    let token = derive_without(&committed, &planned, &scope, &aside).unwrap();
    assert_eq!(check_without(&committed, &planned, &token, &aside).unwrap(), less);
    assert!(check(&committed, &planned, &token).unwrap_err().contains("n2"));
    planned.nodes[1].name = "Renamed".into();
    assert_eq!(check_without(&committed, &planned, &token, &aside).unwrap(), less);
    assert!(check_without(&committed, &planned, "x1.", &aside).unwrap_err().contains("re-read"));
}
