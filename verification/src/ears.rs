//! The form of a claim, read off its leading keyword.
//!
//! The grammar fixes the order of the clauses (condition first, response last),
//! so the form of a statement is decided by how it begins. Display markup
//! (`**bold**` on the keyword) is read through.

use crate::letters::{lower, lowered};
use crate::text::{chars_of, is_white, reads, reads_at, start_of, trimmed_start, white};
use vstd::prelude::*;
use vstd::string::*;

verus! {

/// The form of one responsibility statement.
#[derive(Debug, Clone, Copy, PartialEq, Eq, Structural)]
pub enum EarsPattern {
    /// No leading keyword: always active, led by a verb.
    Ubiquitous,
    /// `When <trigger>, ...`: fires on an event.
    Event,
    /// `While <state>, ...`: holds during a state.
    State,
    /// `If <condition>, then ...`: handles a failure or a rejection.
    Unwanted,
    /// `Where <feature>, ...`: conditional on a feature.
    Optional,
}

impl EarsPattern {
    /// Does the form name a trigger, a state or a failure that a test can arrange?
    pub open spec fn is_testable(self) -> bool {
        self == EarsPattern::Event || self == EarsPattern::State || self == EarsPattern::Unwanted
    }

    /// Does the form name a trigger, a state or a failure that a test can arrange?
    pub fn testable(self) -> (r: bool)
        ensures
            r == self.is_testable(),
    {
        matches!(self, EarsPattern::Event | EarsPattern::State | EarsPattern::Unwanted)
    }
}

/// Does `s` begin with the keyword (in ASCII letters of either case)?
pub open spec fn led_by(s: Seq<char>, kw: Seq<char>) -> bool {
    &&& s.len() >= kw.len()
    &&& forall|i: int| 0 <= i < kw.len() ==> lowered(#[trigger] s[i]) == lowered(kw[i])
}

/// Does `s` begin with the keyword, ending at a word boundary: white space, or
/// the marker that closes it?
pub open spec fn opens_with(s: Seq<char>, kw: Seq<char>) -> bool {
    &&& led_by(s, kw)
    &&& s.len() > kw.len()
    &&& is_white(s[kw.len() as int]) || reads_at(s, kw.len() as int, "**"@)
}

/// The statement from where its first word begins: leading white space and an
/// opening marker are passed over.
pub open spec fn opening(statement: Seq<char>) -> Seq<char> {
    let s = trimmed_start(statement);
    if "**"@.is_prefix_of(s) {
        s.skip(2)
    } else {
        s
    }
}

/// The form of a statement.
pub open spec fn pattern_of(statement: Seq<char>) -> EarsPattern {
    let s = opening(statement);
    if opens_with(s, "while"@) {
        EarsPattern::State
    } else if opens_with(s, "when"@) {
        EarsPattern::Event
    } else if opens_with(s, "if"@) {
        EarsPattern::Unwanted
    } else if opens_with(s, "where"@) {
        EarsPattern::Optional
    } else {
        EarsPattern::Ubiquitous
    }
}

fn opened(v: &Vec<char>, from: usize, kw: &str) -> (r: bool)
    requires
        from <= v@.len(),
    ensures
        r == opens_with(v@.skip(from as int), kw@),
{
    let k = chars_of(kw);
    let ghost s = v@.skip(from as int);
    let n: usize = v.len();
    if n - from <= k.len() {
        return false;
    }
    let mut i: usize = 0;
    while i < k.len()
        invariant
            i <= k@.len(),
            from + k@.len() < n == v@.len(),
            s == v@.skip(from as int),
            k@ == kw@,
            forall|j: int| 0 <= j < i ==> lowered(#[trigger] s[j]) == lowered(k@[j]),
        decreases k@.len() - i,
    {
        assert(s[i as int] == v@[from + i]);
        if lower(v[from + i]) != lower(k[i]) {
            return false;
        }
        i += 1;
    }
    let stars = chars_of("**");
    let p: usize = from + k.len();
    proof {
        reveal_strlit("**");
        assert(s[k@.len() as int] == v@[p as int]);
        if reads_at(v@, p as int, "**"@) {
            assert(s.subrange(k@.len() as int, (k@.len() + 2) as int) =~= v@.subrange(p as int, p + 2));
        }
        if reads_at(s, k@.len() as int, "**"@) {
            assert(s.subrange(k@.len() as int, (k@.len() + 2) as int) =~= v@.subrange(p as int, p + 2));
        }
    }
    white(v[p]) || reads(v, p, &stars)
}

/// The form of a statement, by its leading keyword. The keyword ends at a word
/// boundary: "Whenever" is not "When".
pub fn classify(statement: &str) -> (r: EarsPattern)
    ensures
        r == pattern_of(statement@),
{
    let v = chars_of(statement);
    let n: usize = v.len();
    let mut from: usize = start_of(&v);
    let stars = chars_of("**");
    let ghost s = trimmed_start(v@);
    proof {
        reveal_strlit("**");
    }
    if reads(&v, from, &stars) {
        proof {
            assert(v@.subrange(from as int, from + 2) =~= s.take(2));
            assert("**"@ =~= s.take(2));
            assert("**"@.is_prefix_of(s));
            assert(v@.skip(from + 2) =~= s.skip(2));
            assert(from + 2 <= n);
        }
        from = from + 2;
    } else {
        proof {
            if "**"@.is_prefix_of(s) {
                assert(v@.subrange(from as int, from + 2) =~= s.take(2));
                assert("**"@ =~= s.take(2));
            }
        }
    }
    if opened(&v, from, "while") {
        EarsPattern::State
    } else if opened(&v, from, "when") {
        EarsPattern::Event
    } else if opened(&v, from, "if") {
        EarsPattern::Unwanted
    } else if opened(&v, from, "where") {
        EarsPattern::Optional
    } else {
        EarsPattern::Ubiquitous
    }
}

/// At most one keyword opens a statement, so the order in which they are tried
/// decides nothing.
pub proof fn law_keywords_exclude_each_other(s: Seq<char>)
    ensures
        opens_with(s, "while"@) ==> !opens_with(s, "when"@) && !opens_with(s, "if"@)
            && !opens_with(s, "where"@),
        opens_with(s, "when"@) ==> !opens_with(s, "if"@) && !opens_with(s, "where"@),
        opens_with(s, "if"@) ==> !opens_with(s, "where"@),
{
    reveal_strlit("while");
    reveal_strlit("when");
    reveal_strlit("if");
    reveal_strlit("where");
    if led_by(s, "while"@) {
        assert(lowered(s[0]) == 'w');
        assert(lowered(s[1]) == 'h');
        assert(lowered(s[2]) == 'i');
    }
    if led_by(s, "when"@) {
        assert(lowered(s[0]) == 'w');
        assert(lowered(s[2]) == 'e');
        assert(lowered(s[3]) == 'n');
    }
    if led_by(s, "if"@) {
        assert(lowered(s[0]) == 'i');
    }
    if led_by(s, "where"@) {
        assert(lowered(s[0]) == 'w');
        assert(lowered(s[2]) == 'e');
        assert(lowered(s[3]) == 'r');
    }
}

/// The keyword that leads a form.
pub open spec fn keyword_of(p: EarsPattern) -> Seq<char> {
    match p {
        EarsPattern::State => "while"@,
        EarsPattern::Event => "when"@,
        EarsPattern::Unwanted => "if"@,
        EarsPattern::Optional => "where"@,
        EarsPattern::Ubiquitous => Seq::empty(),
    }
}

/// Is `word` the keyword, its letters in either case?
pub open spec fn spells(word: Seq<char>, kw: Seq<char>) -> bool {
    word.len() == kw.len() && led_by(word, kw)
}

/// Does a word that stands before `rest` end there: with white space, or with the marker
/// that closes it?
pub open spec fn ends_a_word(rest: Seq<char>) -> bool {
    rest.len() > 0 && (is_white(rest[0]) || "**"@.is_prefix_of(rest))
}

/// A statement that is led by white space, a marker or none, and a word.
pub open spec fn phrased(
    space: Seq<char>,
    marked: bool,
    word: Seq<char>,
    rest: Seq<char>,
) -> Seq<char> {
    space + if marked {
        "**"@
    } else {
        Seq::empty()
    } + word + rest
}

proof fn lemma_space_passed(space: Seq<char>, s: Seq<char>)
    requires
        forall|i: int| 0 <= i < space.len() ==> is_white(#[trigger] space[i]),
    ensures
        trimmed_start(space + s) == trimmed_start(s),
    decreases space.len(),
{
    if space.len() == 0 {
        assert(space + s =~= s);
    } else {
        let t = space.drop_first();
        assert forall|i: int| 0 <= i < t.len() implies is_white(#[trigger] t[i]) by {
            assert(t[i] == space[i + 1]);
        }
        lemma_space_passed(t, s);
        assert(is_white(space[0]));
        assert((space + s)[0] == space[0]);
        assert((space + s).drop_first() =~= t + s);
    }
}

/// White space in front of a statement does not change its form, and neither does a marker
/// that opens it, whether or not it holds a keyword.
pub proof fn law_markup_is_read_through(space: Seq<char>, s: Seq<char>)
    requires
        forall|i: int| 0 <= i < space.len() ==> is_white(#[trigger] space[i]),
    ensures
        pattern_of(space + s) == pattern_of(s),
        trimmed_start(s) == s && !"**"@.is_prefix_of(s) ==> pattern_of(space + "**"@ + s)
            == pattern_of(s),
{
    reveal_strlit("**");
    lemma_space_passed(space, s);
    let m = "**"@ + s;
    assert(space + "**"@ + s =~= space + m);
    lemma_space_passed(space, m);
    assert(m[0] == '*');
    assert(trimmed_start(m) == m);
    assert("**"@.is_prefix_of(m)) by {
        assert(m.take(2) =~= "**"@);
    }
    assert(m.skip(2) =~= s);
}

/// What a keyword begins with is a letter.
proof fn lemma_starts_with_a_letter(word: Seq<char>, p: EarsPattern)
    requires
        p != EarsPattern::Ubiquitous,
        spells(word, keyword_of(p)),
    ensures
        word.len() > 0,
        !is_white(word[0]),
        word[0] != '*',
{
    reveal_strlit("while");
    reveal_strlit("when");
    reveal_strlit("if");
    reveal_strlit("where");
    let kw = keyword_of(p);
    assert(lowered(word[0]) == lowered(kw[0]));
    assert(lowered(kw[0]) == kw[0]);
}

proof fn lemma_opening(space: Seq<char>, marked: bool, word: Seq<char>, rest: Seq<char>)
    requires
        forall|i: int| 0 <= i < space.len() ==> is_white(#[trigger] space[i]),
        word.len() > 0,
        !is_white(word[0]),
        word[0] != '*',
    ensures
        opening(phrased(space, marked, word, rest)) == word + rest,
{
    reveal_strlit("**");
    let s = word + rest;
    let lead = if marked {
        "**"@
    } else {
        Seq::empty()
    };
    let t = lead + s;
    assert(phrased(space, marked, word, rest) =~= space + t);
    lemma_space_passed(space, t);
    assert(s[0] == word[0]);
    if marked {
        assert(t[0] == '*');
        assert(t.take(2) =~= "**"@);
        assert("**"@.is_prefix_of(t));
        assert(t.skip(2) =~= s);
    } else {
        assert(t =~= s);
        if "**"@.is_prefix_of(s) {
            assert(s[0] == "**"@[0]);
        }
    }
}

/// A keyword in letters of either case, behind any white space and a marker or none, gives
/// its form exactly where it ends there: with white space, or with the marker that closes
/// it. One that runs on makes a statement like any other.
pub proof fn law_a_keyword_gives_its_form(
    space: Seq<char>,
    marked: bool,
    word: Seq<char>,
    rest: Seq<char>,
    p: EarsPattern,
)
    requires
        forall|i: int| 0 <= i < space.len() ==> is_white(#[trigger] space[i]),
        p != EarsPattern::Ubiquitous,
        spells(word, keyword_of(p)),
    ensures
        pattern_of(phrased(space, marked, word, rest)) == if ends_a_word(rest) {
            p
        } else {
            EarsPattern::Ubiquitous
        },
{
    reveal_strlit("while");
    reveal_strlit("when");
    reveal_strlit("if");
    reveal_strlit("where");
    reveal_strlit("**");
    lemma_starts_with_a_letter(word, p);
    lemma_opening(space, marked, word, rest);
    let s = word + rest;
    let kw = keyword_of(p);
    assert forall|i: int| 0 <= i < kw.len() implies lowered(#[trigger] s[i]) == lowered(kw[i]) by {
        assert(s[i] == word[i]);
    }
    assert(led_by(s, kw));
    if rest.len() > 0 {
        assert(s[kw.len() as int] == rest[0]);
    }
    if "**"@.is_prefix_of(rest) {
        assert(s.subrange(kw.len() as int, (kw.len() + 2) as int) =~= rest.take(2));
        assert(rest.take(2) =~= "**"@);
    }
    if reads_at(s, kw.len() as int, "**"@) {
        assert(s.subrange(kw.len() as int, (kw.len() + 2) as int) =~= rest.take(2));
        assert("**"@.is_prefix_of(rest));
    }
    assert(opens_with(s, kw) <==> ends_a_word(rest));
    assert(lowered(s[0]) == lowered(kw[0]));
    if kw.len() > 2 {
        assert(lowered(s[2]) == lowered(kw[2]));
        assert(lowered(s[3]) == lowered(kw[3]));
    }
    lemma_no_other_keyword(s, p);
}

/// A statement is led by one keyword at most.
proof fn lemma_no_other_keyword(s: Seq<char>, p: EarsPattern)
    requires
        p != EarsPattern::Ubiquitous,
        led_by(s, keyword_of(p)),
    ensures
        forall|q: EarsPattern|
            q != p && q != EarsPattern::Ubiquitous ==> !opens_with(s, #[trigger] keyword_of(q)),
{
    reveal_strlit("while");
    reveal_strlit("when");
    reveal_strlit("if");
    reveal_strlit("where");
    let kw = keyword_of(p);
    assert(lowered(s[0]) == lowered(kw[0]));
    if kw.len() > 2 {
        assert(lowered(s[2]) == lowered(kw[2]));
        assert(lowered(s[3]) == lowered(kw[3]));
    }
    assert forall|q: EarsPattern| q != p && q != EarsPattern::Ubiquitous implies !opens_with(
        s,
        #[trigger] keyword_of(q),
    ) by {
        let k2 = keyword_of(q);
        if led_by(s, k2) {
            assert(lowered(s[0]) == lowered(k2[0]));
            if k2.len() > 2 {
                assert(lowered(s[2]) == lowered(k2[2]));
                assert(lowered(s[3]) == lowered(k2[3]));
            }
        }
    }
}

/// A keyword that runs on into a letter is none: "Whenever" is not "When".
pub proof fn law_a_keyword_ends_where_its_word_does(
    space: Seq<char>,
    marked: bool,
    word: Seq<char>,
    rest: Seq<char>,
    p: EarsPattern,
)
    requires
        forall|i: int| 0 <= i < space.len() ==> is_white(#[trigger] space[i]),
        p != EarsPattern::Ubiquitous,
        spells(word, keyword_of(p)),
        rest.len() > 0,
        'a' <= lowered(rest[0]) <= 'z',
    ensures
        pattern_of(phrased(space, marked, word, rest)) == EarsPattern::Ubiquitous,
{
    reveal_strlit("**");
    law_a_keyword_gives_its_form(space, marked, word, rest, p);
    if "**"@.is_prefix_of(rest) {
        assert(rest[0] == "**"@[0]);
    }
}

/// A statement that no keyword leads is ubiquitous.
pub proof fn law_no_keyword_no_condition(s: Seq<char>)
    requires
        forall|p: EarsPattern|
            p != EarsPattern::Ubiquitous ==> !led_by(opening(s), #[trigger] keyword_of(p)),
    ensures
        pattern_of(s) == EarsPattern::Ubiquitous,
{
    assert(!led_by(opening(s), keyword_of(EarsPattern::State)));
    assert(!led_by(opening(s), keyword_of(EarsPattern::Event)));
    assert(!led_by(opening(s), keyword_of(EarsPattern::Unwanted)));
    assert(!led_by(opening(s), keyword_of(EarsPattern::Optional)));
}

} // verus!
