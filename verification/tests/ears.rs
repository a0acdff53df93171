use scryer_core::ears::{classify, EarsPattern};

#[test]
fn classifies_each_keyword_form() {
    assert_eq!(classify("When a callback arrives, append an event"), EarsPattern::Event);
    assert_eq!(classify("While a reconcile runs, queue edits"), EarsPattern::State);
    assert_eq!(classify("If the signature is invalid, then reject"), EarsPattern::Unwanted);
    assert_eq!(classify("Where previews are enabled, render live"), EarsPattern::Optional);
    assert_eq!(classify("Authenticate every inbound POST"), EarsPattern::Ubiquitous);
}

#[test]
fn reads_through_display_markup() {
    assert_eq!(classify("**When** a callback arrives, **append** an event"), EarsPattern::Event);
    assert_eq!(classify("**Authenticate** every inbound POST"), EarsPattern::Ubiquitous);
}

#[test]
fn keyword_needs_a_word_boundary() {
    assert_eq!(classify("Whenever possible, batch the writes"), EarsPattern::Ubiquitous);
    assert_eq!(classify("Whereas the ledger…"), EarsPattern::Ubiquitous);
    assert_eq!(classify("If"), EarsPattern::Ubiquitous);
}

#[test]
fn testable_covers_trigger_state_failure_only() {
    assert!(EarsPattern::Event.testable());
    assert!(EarsPattern::State.testable());
    assert!(EarsPattern::Unwanted.testable());
    assert!(!EarsPattern::Ubiquitous.testable());
    assert!(!EarsPattern::Optional.testable());
}

#[test]
fn the_keyword_is_read_in_either_case_and_behind_white_space() {
    assert_eq!(classify("  WHEN a call comes"), EarsPattern::Event);
    assert_eq!(classify("\t**iF** it fails, then stop"), EarsPattern::Unwanted);
    assert_eq!(classify("**While** it runs"), EarsPattern::State);
    assert_eq!(classify("when\u{a0}it rains"), EarsPattern::Event);
    assert_eq!(classify("when, then"), EarsPattern::Ubiquitous);
}

#[test]
fn statements_beyond_ascii_are_classified() {
    assert_eq!(classify("日本語"), EarsPattern::Ubiquitous);
    assert_eq!(classify(""), EarsPattern::Ubiquitous);
    assert_eq!(classify("**"), EarsPattern::Ubiquitous);
}

#[test]
fn every_keyword_is_read_in_every_dress() {
    let forms = [
        ("while", EarsPattern::State),
        ("when", EarsPattern::Event),
        ("if", EarsPattern::Unwanted),
        ("where", EarsPattern::Optional),
    ];
    for (word, form) in forms {
        for spelt in [word.to_string(), word.to_uppercase(), word[..1].to_uppercase() + &word[1..]] {
            for space in ["", " ", "\n\t ", "\u{3000}"] {
                assert_eq!(classify(&format!("{space}{spelt} it goes")), form);
                assert_eq!(classify(&format!("{space}**{spelt}** it goes")), form);
                assert_eq!(classify(&format!("{space}**{spelt} it** goes")), form);
                assert_eq!(classify(&format!("{space}{spelt}x it goes")), EarsPattern::Ubiquitous);
                assert_eq!(classify(&format!("{space}{spelt}")), EarsPattern::Ubiquitous);
            }
        }
    }
}
