use scryer_core::rules::{
    citations, get, lookup, rank, render, rules, rules_full, rules_index, RULES,
};

#[test]
fn slugs_are_unique_and_get_resolves_every_one() {
    let mut seen = std::collections::HashSet::new();
    for r in rules() {
        assert!(seen.insert(r.slug), "duplicate slug {}", r.slug);
        assert!(
            r.slug
                .chars()
                .all(|c| c.is_ascii_lowercase() || c == '-' || c.is_ascii_digit()),
            "slug {} is not kebab-case",
            r.slug
        );
        assert_eq!(get(r.slug).map(|x| x.id), Some(r.id));
        assert_eq!(get(&r.id.to_string()).map(|x| x.slug), Some(r.slug), "numeric alias");
    }
    assert!(get("no-such-rule").is_none());
}

#[test]
fn every_body_citation_resolves() {
    for r in rules() {
        for c in citations(r.body) {
            assert!(get(c).is_some(), "rule {} cites unknown [[{}]]", r.slug, c);
        }
    }
    assert_eq!(citations("a [[x]] b [[y-z]]"), vec!["x", "y-z"]);
    assert!(citations("no cite [[dangling").is_empty());
}

#[test]
fn lookup_matches_slug_words() {
    assert!(lookup("post-flight").iter().any(|r| r.slug == "fold-post-flight"));
    assert!(lookup("sign-off").iter().any(|r| r.slug == "sign-off"));
}

#[test]
fn lookup_resolves_topics_via_title_and_tags() {
    let hits = lookup("symbol");
    assert!(hits.iter().any(|r| r.id == 8), "symbol → symbols rule");

    let empty = lookup("empty");
    assert!(empty.iter().any(|r| r.id == 2));
    assert!(empty.iter().any(|r| r.id == 8));

    assert!(lookup("group").iter().any(|r| r.id == 4));
    assert!(lookup("altitude").iter().any(|r| r.id == 3));
    assert!(lookup("vagrant stale").iter().any(|r| r.id == 14));
    assert!(lookup("naming").iter().any(|r| r.id == 17));
    assert!(lookup("concern").iter().any(|r| r.id == 20));
    assert!(lookup("cross-cutting").iter().any(|r| r.id == 20));

    assert!(lookup("ears").iter().any(|r| r.id == 21));
    assert!(lookup("markup").iter().any(|r| r.id == 21));
    assert!(lookup("trigger condition").first().map(|r| r.id) == Some(21));
}

#[test]
fn lookup_misses_return_empty_not_everything() {
    assert!(lookup("kubernetes helm istio").is_empty());
    assert!(lookup("the for and a of").is_empty());
}

#[test]
fn lookup_ranks_a_task_sentence_by_relevance() {
    let hits = lookup("tag the concerns for the model");
    assert_eq!(
        hits.first().map(|r| r.id),
        Some(20),
        "concerns rule outranks stopword noise"
    );
    assert!(lookup("links").iter().any(|r| r.id == 5), "links → link (one-link)");
    assert!(lookup("groups").iter().any(|r| r.id == 4), "groups → group (groups)");
}

#[test]
fn index_lists_every_rule_full_renders_all() {
    let idx = rules_index();
    for r in rules() {
        assert!(idx.contains(r.title), "index lists '{}'", r.title);
    }
    assert!(!idx.contains(rules()[7].body));
    assert!(rules_full().contains(rules()[7].body));
}

#[test]
fn the_table_and_the_list_agree() {
    let all = rules();
    assert_eq!(all.len(), RULES.len());
    assert_eq!(all[0].slug, RULES[0].1);
    assert_eq!(
        all[0].tags,
        vec!["responsibility", "business", "mechanism", "directives", "wording"]
    );
    assert!(rules_index().starts_with(
        "statement-business — Responsibilities are pure business statements [responsibility, \
         business, mechanism, directives, wording]\n"
    ));
    assert!(rules_full().starts_with(
        "statement-business — Responsibilities are pure business statements. A responsibility"
    ));
}

#[test]
fn rendering_sets_rules_apart_and_ends_clean() {
    let picked = vec![get("one-link").unwrap(), get("naming").unwrap()];
    let text = render(&picked);
    assert_eq!(
        text,
        format!(
            "one-link — {}\n{}\n\nnaming — {}\n{}",
            picked[0].title, picked[0].body, picked[1].title, picked[1].body
        )
    );
    assert_eq!(render(&Vec::new()), "");
}

#[test]
fn a_number_is_read_as_a_number() {
    assert_eq!(get(" +5 ").map(|r| r.id), Some(5));
    assert_eq!(get("005").map(|r| r.id), Some(5));
    assert!(get("256").is_none());
    assert!(get("13").is_none());
    assert!(get("+").is_none());
    assert!(get("").is_none());
}

#[test]
fn ranking_prefers_curated_hits_and_keeps_order() {
    // No curated hit: any hit counts, the most first, equals in order.
    assert_eq!(rank(&vec![(0, 1), (0, 0), (0, 3), (0, 1)]), vec![2, 0, 3]);
    // A curated hit silences the bodies and counts twice.
    assert_eq!(rank(&vec![(0, 9), (1, 0), (1, 1), (2, 0)]), vec![3, 2, 1]);
    assert!(rank(&vec![(0, 0)]).is_empty());
}

#[test]
fn lookup_drops_fragments_and_reads_any_case() {
    assert!(lookup("if ab").is_empty());
    assert_eq!(
        lookup("SYMBOL").iter().map(|r| r.id).collect::<Vec<_>>(),
        lookup("symbol").iter().map(|r| r.id).collect::<Vec<_>>()
    );
    assert_eq!(
        lookup("--symbol--").iter().map(|r| r.id).collect::<Vec<_>>(),
        lookup("symbol").iter().map(|r| r.id).collect::<Vec<_>>()
    );
}
