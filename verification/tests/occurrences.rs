use scryer_core::occurrences::{find, find_lowered, places, sentence_around, Occurrence};
use scryer_core::{
    Directive, Group, Kind, Node, Responsibility, SchemaProperty, ScryModel,
};

fn node(id: &str, name: &str) -> Node {
    Node {
        id: id.into(),
        kind: Kind::Component,
        name: name.into(),
        parent_id: None,
        external: None,
        technology: None,
        description: None,
        vagrant: None,
        stale: None,
        responsibilities: Vec::new(),
        properties: Vec::new(),
        icon: None,
        notes: None,
        position: None,
        directives: Vec::new(),
    }
}

fn claim(id: &str, statement: &str) -> Responsibility {
    Responsibility {
        id: id.into(),
        title: None,
        statement: statement.into(),
        concern: None,
        cites: Vec::new(),
        vagrant: None,
        vagrant_origin: None,
        approved_statement: None,
        stale: None,
        stale_proposal: None,
        directives: Vec::new(),
        last_touched_at: None,
    }
}

fn model(n: Node) -> ScryModel {
    let mut m = ScryModel::new();
    m.nodes.push(n);
    m
}

fn fixture() -> ScryModel {
    let mut n = node("n1", "Yada");
    n.description = Some("Holds the proxy. A proxy is not a Proxy Server.".into());
    n.directives = vec!["must never proxy a token".into()];
    n.properties.push(SchemaProperty {
        label: "proxyUrl".into(),
        description: "Where the proxy lives.".into(),
        vagrant: None,
        stale: None,
        last_touched_at: None,
    });
    n.responsibilities
        .push(claim("r1", "**Answers** as the proxy, and proxies nothing else"));
    let mut r2 = claim("r2", "**Refuses** a request with no proxy");
    r2.directives = vec!["must log the proxy".into()];
    n.responsibilities.push(r2);
    model(n)
}

fn one_layer(m: &ScryModel, term: &str, whole: bool) -> Vec<Occurrence> {
    find(&[("planned", m)], term, whole)
}

#[test]
fn resp_b00631_a_word_search_never_reaches_into_a_citation() {
    let mut n = node("n1", "Yada");
    n.directives = vec![Directive::cited(
        "must never log a token",
        vec!["doc-proxy-anchor".into(), "proxy".into()],
    )];
    let mut r = claim("r1", "**Answers** as the proxy");
    r.cites = vec!["proxy".into(), "doc-proxy-first".into()];
    r.directives = vec![Directive::cited("must stay stateless", vec!["proxy".into()])];
    n.responsibilities.push(r);
    let m = model(n);
    let hits = one_layer(&m, "proxy", true);
    let shape: Vec<(&str, &str, &str)> = hits
        .iter()
        .map(|h| (h.kind, h.id.as_str(), h.field.as_str()))
        .collect();
    assert_eq!(
        shape,
        vec![("claim", "r1", "statement")],
        "only the ONE prose use is reported — six anchor ids spelling the \
         same word are not uses of it"
    );

    let words = one_layer(&m, "stateless", true);
    assert_eq!(
        words
            .iter()
            .map(|h| (h.kind, h.field.as_str()))
            .collect::<Vec<_>>(),
        vec![("directive", "directive 1")]
    );
}

#[test]
fn resp_9rp8zq_every_use_is_reported_with_its_id_and_its_sentence() {
    let m = fixture();
    let hits = one_layer(&m, "proxy", true);
    let shape: Vec<(&str, &str, &str)> = hits
        .iter()
        .map(|h| (h.kind, h.id.as_str(), h.field.as_str()))
        .collect();
    assert_eq!(
        shape,
        vec![
            ("description", "n1", "description"),
            ("description", "n1", "description"),
            ("description", "n1", "description"),
            ("directive", "n1", "directive 1"),
            ("description", "n1:proxyUrl", "description"),
            ("claim", "r1", "statement"),
            ("claim", "r2", "statement"),
            ("directive", "r2", "directive 1"),
        ],
        "every kind of prose, in the model's own order, one hit per use: {shape:?}"
    );
    assert_eq!(hits[0].sentence, "Holds the proxy.");
    assert_eq!(hits[1].sentence, "A proxy is not a Proxy Server.");
    assert_eq!(hits[2].sentence, "A proxy is not a Proxy Server.");
    assert_eq!(
        hits[5].sentence,
        "**Answers** as the proxy, and proxies nothing else"
    );
    assert_eq!(hits[5].host_id.as_deref(), Some("n1"), "and where it sits");
    assert_eq!(hits[5].path.as_deref(), Some("Yada"), "and its place");
}

#[test]
fn resp_9rp8zq_whole_word_by_default_and_a_flag_for_substrings() {
    let m = fixture();
    let whole = one_layer(&m, "proxy", true);
    assert_eq!(whole.len(), 8);
    assert!(
        whole.iter().all(|h| !h.sentence.contains("proxyUrl")),
        "the property LABEL is not prose and is never a hit"
    );
    assert!(whole.iter().any(|h| h.sentence.contains("Proxy Server")));

    let mut m2 = fixture();
    m2.nodes[0].description = Some("The fold folded an unfolded claim.".into());
    assert_eq!(
        one_layer(&m2, "fold", true)
            .iter()
            .map(|h| h.sentence.as_str())
            .collect::<Vec<_>>(),
        vec!["The fold folded an unfolded claim."],
        "one use of the word itself, whole-word"
    );
    assert_eq!(
        one_layer(&m2, "fold", false).len(),
        3,
        "and all three when substrings are asked for"
    );
    assert!(one_layer(&m, "widget", true).is_empty());
    assert!(one_layer(&m, "   ", true).is_empty());
}

#[test]
fn resp_9rp8zq_a_multi_word_term_is_bounded_at_its_two_ends() {
    let mut n = node("n1", "C");
    n.description = Some("The relevant set is read. A relevant setting is not.".into());
    let m = model(n);
    let hits = one_layer(&m, "relevant set", true);
    assert_eq!(hits.len(), 1, "the phrase, not its prefix: {hits:?}");
    assert_eq!(hits[0].sentence, "The relevant set is read.");
}

#[test]
fn resp_9rp8zq_both_layers_are_answered_when_asked_and_told_apart() {
    let committed = fixture();
    let mut planned = fixture();
    planned.nodes[0].responsibilities[0].statement =
        "**Answers** as the proxy, twice over".into();

    let both = find(
        &[("committed", &committed), ("planned", &planned)],
        "proxy",
        true,
    );
    assert_eq!(both.len(), 16, "eight uses in each layer");
    assert!(both[..8].iter().all(|h| h.layer == "committed"));
    assert!(both[8..].iter().all(|h| h.layer == "planned"));
    let planned_claim = both
        .iter()
        .find(|h| h.layer == "planned" && h.id == "r1")
        .unwrap();
    assert_eq!(
        planned_claim.sentence,
        "**Answers** as the proxy, twice over"
    );

    assert_eq!(find(&[("committed", &committed)], "proxy", true).len(), 8);
}

#[test]
fn resp_9rp8zq_a_long_clause_with_no_full_stop_is_windowed_around_the_term() {
    let filler = "and on ".repeat(120);
    let mut m = fixture();
    m.nodes[0].responsibilities[0].statement = format!("**Answers** {filler}proxy {filler}end");
    let hits = one_layer(&m, "proxy", true);
    let claim = hits.iter().find(|h| h.id == "r1").unwrap();
    assert!(
        claim.sentence.chars().count() < 460,
        "a hit is readable at a glance: {} chars",
        claim.sentence.chars().count()
    );
    assert!(claim.sentence.contains("proxy"), "with the term in it");
    assert!(claim.sentence.starts_with('…') && claim.sentence.ends_with('…'));
}

#[test]
fn a_group_is_read_with_its_parents_place() {
    let mut m = fixture();
    m.groups.push(Group {
        id: "g1".into(),
        name: "Edge".into(),
        description: Some("Where the proxy stands.".into()),
        member_ids: Vec::new(),
        parent_group_id: None,
        parent_node_id: Some("n1".into()),
        responsibilities: Vec::new(),
        icon: None,
    });
    let mut child = node("n2", "Inner");
    child.parent_id = Some("n1".into());
    child.description = Some("A proxy too".into());
    m.nodes.push(child);
    let hits = one_layer(&m, "proxy", true);
    let last = hits.last().unwrap();
    assert_eq!((last.id.as_str(), last.path.as_deref()), ("g1", Some("Yada")));
    let inner = hits.iter().find(|h| h.id == "n2").unwrap();
    assert_eq!(inner.path.as_deref(), Some("Yada / Inner"));
}

#[test]
fn uses_are_places_of_characters() {
    assert_eq!(scryer_core::occurrences::matches("a fold, folded; FOLD", "fold", true), vec![2, 16]);
    assert_eq!(scryer_core::occurrences::matches("a fold, folded; FOLD", "fold", false), vec![2, 8, 16]);
    assert_eq!(scryer_core::occurrences::matches("aaa", "aa", false), vec![0, 1]);
    assert_eq!(scryer_core::occurrences::matches("über Über", "über", true), vec![0, 5]);
    assert_eq!(scryer_core::occurrences::matches("read-across", "read", true), vec![0]);
    assert_eq!(scryer_core::occurrences::matches("snake_case", "case", true), Vec::<usize>::new());
    // A capital whose small letter takes two characters, the second of no word.
    assert_eq!(scryer_core::occurrences::matches("İx x", "x", true), vec![1, 3]);
}

#[test]
fn places_follow_the_origins() {
    let low: Vec<char> = "abab".chars().collect();
    let needle: Vec<char> = "ab".chars().collect();
    let words = vec![true; 4];
    let org = vec![7, 7, 9, 9];
    assert_eq!(places(&low, &words, &org, &needle, false), vec![7, 9]);
    assert!(places(&low, &words, &org, &needle, true).is_empty());
    let apart = vec![true, true, false, true];
    assert_eq!(places(&low, &apart, &org, &needle, true), vec![7]);
}

#[test]
fn sentences_end_at_marks_before_white_space_and_at_line_ends() {
    let t = "One v1.2 here! Two\nthree? four";
    assert_eq!(sentence_around(t, 4, 2), "One v1.2 here!");
    assert_eq!(sentence_around(t, 15, 3), "Two");
    assert_eq!(sentence_around(t, 19, 5), "three?");
    assert_eq!(sentence_around(t, 26, 4), "four");
}

#[test]
fn a_term_is_trimmed_and_read_in_any_case() {
    let m = fixture();
    let layers = [("planned", &m)];
    assert_eq!(find(&layers, "  PROXY ", true), find(&layers, "proxy", true));
    assert_eq!(find_lowered(&layers, "proxy", true), find(&layers, "proxy", true));
}

#[test]
fn capitals_are_found_by_themselves() {
    let mut n = node("n1", "N");
    n.description = Some("\u{39f}\u{394}\u{39f}\u{3a3}".into());
    let m = model(n);
    let hits = one_layer(&m, "\u{39f}\u{394}\u{39f}\u{3a3}", true);
    assert_eq!(hits.len(), 1);
    assert_eq!(hits[0].kind, "description");
    assert_eq!(hits[0].layer, "planned");
    assert_eq!(hits[0].id, "n1");
    assert_eq!(hits[0].field, "description");
    assert_eq!(hits[0].sentence, "\u{39f}\u{394}\u{39f}\u{3a3}");
    let small = one_layer(&m, "\u{3bf}\u{3b4}\u{3bf}\u{3c2}", true);
    assert_eq!(small.len(), 1, "the sigma at the end of a word is the same letter");
}
