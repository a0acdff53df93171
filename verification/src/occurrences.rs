//! Every use of a word in the model's prose.
//!
//! A ranked search answers which nodes a task is about. This answers where a word is
//! used: every use, with no cap and no ranking, each with the sentence around it.
//!
//! The prose is what the model authors: a claim's statement, a description (of a
//! node, a group or a property) and a directive (of a node or a claim). Not names,
//! labels or paths, which are identifiers.

use crate::bytes::{
    byte_len, byte_width, bytes_before, bytes_in, lemma_offset_apart, lemma_offset_bound,
    lemma_offset_grows, offset,
};
use crate::letters::{alphanumeric, is_alnum, lower_chars, lowercase_char};
use crate::model::{
    find_last_node, last_node, Directive, DirectiveView, Group, GroupView, Node, NodeView,
    Responsibility, ResponsibilityView, SchemaProperty, SchemaPropertyView, ScryModel,
    ScryModelView,
};
use crate::modelled::{at, fresh, put, Modelled};
use crate::text::{
    cat2, cat3, chars_of, dec, decimal, join, joined, reads, reads_at, text_of, trim, trimmed,
    trimmed_end, trimmed_start,
};
use vstd::prelude::*;
use vstd::string::*;

verus! {

/// One use of the term, in the element it stands in.
#[derive(Debug, PartialEq, Eq)]
pub struct Occurrence {
    /// `claim`, `description` or `directive`.
    pub kind: &'static str,
    /// `committed` or `planned`.
    pub layer: &'static str,
    /// The element: a claim, a node, a group, or `<owner>:<label>` for a property. A
    /// directive of a claim carries the claim's id.
    pub id: String,
    /// The node or group that holds it, where the element is not itself one.
    pub host_id: Option<String>,
    /// The place of the holding node or group, by names.
    pub path: Option<String>,
    /// Which text of the element: `statement`, `description`, or `directive 2` for the
    /// second of a list.
    pub field: String,
    /// The sentence the term stands in, as written.
    pub sentence: String,
}

/// The model of an [`Occurrence`].
#[verifier::ext_equal]
pub struct OccurrenceView {
    pub kind: Seq<char>,
    pub layer: Seq<char>,
    pub id: Seq<char>,
    pub host_id: Option<Seq<char>>,
    pub path: Option<Seq<char>>,
    pub field: Seq<char>,
    pub sentence: Seq<char>,
}

impl DeepView for Occurrence {
    type V = OccurrenceView;

    open spec fn deep_view(&self) -> OccurrenceView {
        OccurrenceView {
            kind: self.kind@,
            layer: self.layer@,
            id: self.id@,
            host_id: self.host_id.deep_view(),
            path: self.path.deep_view(),
            field: self.field@,
            sentence: self.sentence@,
        }
    }
}

impl Modelled for Occurrence {
    fn dup(&self) -> (r: Self) {
        Occurrence {
            kind: self.kind,
            layer: self.layer,
            id: self.id.dup(),
            host_id: self.host_id.dup(),
            path: self.path.dup(),
            field: self.field.dup(),
            sentence: self.sentence.dup(),
        }
    }

    fn same(&self, other: &Self) -> (r: bool) {
        crate::text::same_text(self.kind, other.kind) && crate::text::same_text(
            self.layer,
            other.layer,
        ) && self.id.same(&other.id) && self.host_id.same(&other.host_id) && self.path.same(
            &other.path,
        ) && self.field.same(&other.field) && self.sentence.same(&other.sentence)
    }
}

impl Clone for Occurrence {
    fn clone(&self) -> (r: Self)
        ensures
            r.deep_view() == self.deep_view(),
    {
        self.dup()
    }
}

/// The most of a sentence that a use carries, in characters. A longer one is windowed
/// around the term.
pub const SENTENCE_LIMIT: usize = 400;

// ---- words -------------------------------------------------------------------------------

/// Is the character part of a word? A hyphen is not.
pub open spec fn is_word(c: char) -> bool {
    is_alnum(c) || c == '_'
}

fn word(c: char) -> (r: bool)
    ensures
        r == is_word(c),
{
    c == '_' || alphanumeric(c)
}

// ---- matches ----------------------------------------------------------------------------

/// A character with its case taken away: its lower case, and for the sigma that stands at
/// the end of words the one that stands elsewhere.
pub open spec fn caseless(c: char) -> Seq<char> {
    if c == '\u{3c2}' {
        seq!['\u{3c3}']
    } else {
        lower_chars(c)
    }
}

fn caseless_char(c: char) -> (r: Vec<char>)
    ensures
        r@ == caseless(c),
{
    if c == '\u{3c2}' {
        let mut v: Vec<char> = Vec::new();
        v.push('\u{3c3}');
        assert(v@ =~= seq!['\u{3c3}']);
        v
    } else {
        lowercase_char(c)
    }
}

/// A text in lower case, character by character: the text searched and the term alike.
pub open spec fn lowered_chars(s: Seq<char>) -> Seq<char>
    decreases s.len(),
{
    if s.len() == 0 {
        Seq::empty()
    } else {
        lowered_chars(s.drop_last()) + caseless(s.last())
    }
}

fn lowered_term(s: &str) -> (r: String)
    ensures
        r@ == lowered_chars(s@),
{
    let v = chars_of(s);
    let mut out: Vec<char> = Vec::new();
    let mut i: usize = 0;
    assert(v@.take(0) =~= Seq::<char>::empty());
    while i < v.len()
        invariant
            i <= v@.len(),
            v@ == s@,
            out@ == lowered_chars(v@.take(i as int)),
        decreases v@.len() - i,
    {
        let mut ls = caseless_char(v[i]);
        let ghost had = out@;
        let ghost lv = ls@;
        assert(v@.take(i + 1).drop_last() =~= v@.take(i as int));
        assert(v@.take(i + 1).last() == v@[i as int]);
        out.append(&mut ls);
        assert(out@ =~= had + lv);
        i += 1;
    }
    assert(v@.take(v@.len() as int) =~= v@);
    let n: usize = out.len();
    assert(out@.subrange(0, n as int) =~= out@);
    text_of(&out, 0, n)
}

/// For each character of the lower case, the place in the text it came from.
pub open spec fn origins(s: Seq<char>) -> Seq<int>
    decreases s.len(),
{
    if s.len() == 0 {
        Seq::empty()
    } else {
        origins(s.drop_last()) + Seq::new(caseless(s.last()).len(), |i: int| s.len() - 1)
    }
}

/// Which characters of a text are part of a word.
pub open spec fn words_in(s: Seq<char>) -> Seq<bool> {
    Seq::new(s.len(), |i: int| is_word(s[i]))
}

/// Is the term at place `p` of the text: does it read so there and, where whole words
/// are asked for, stand between two word boundaries? `words` tells which characters are
/// part of a word.
pub open spec fn used_at(
    low: Seq<char>,
    words: Seq<bool>,
    needle: Seq<char>,
    whole: bool,
    p: int,
) -> bool {
    let end = p + needle.len();
    &&& reads_at(low, p, needle)
    &&& whole ==> (p == 0 || !words[p - 1]) && (end >= low.len() || !words[end])
}

/// Where the uses before place `p` of the lower case are in the text.
pub open spec fn uses_before(
    low: Seq<char>,
    words: Seq<bool>,
    org: Seq<int>,
    needle: Seq<char>,
    whole: bool,
    p: int,
) -> Seq<int>
    decreases p,
{
    if p <= 0 {
        Seq::empty()
    } else {
        let earlier = uses_before(low, words, org, needle, whole, p - 1);
        if used_at(low, words, needle, whole, p - 1) {
            earlier.push(org[p - 1])
        } else {
            earlier
        }
    }
}

/// Where the term is used in the text, overlapping uses too. `needle` is in lower case
/// already.
pub open spec fn uses(s: Seq<char>, needle: Seq<char>, whole: bool) -> Seq<int> {
    let low = lowered_chars(s);
    uses_before(low, words_in(low), origins(s), needle, whole, low.len() as int)
}

proof fn lemma_origins(s: Seq<char>)
    ensures
        origins(s).len() == lowered_chars(s).len(),
        forall|i: int| 0 <= i < origins(s).len() ==> 0 <= #[trigger] origins(s)[i] < s.len(),
    decreases s.len(),
{
    if s.len() > 0 {
        let d = s.drop_last();
        lemma_origins(d);
        assert forall|i: int| 0 <= i < origins(s).len() implies 0 <= #[trigger] origins(s)[i]
            < s.len() by {
            if i < origins(d).len() {
                assert(origins(s)[i] == origins(d)[i]);
            }
        }
    }
}

/// Where the term is used in the text: the places of the characters, in order. `needle`
/// is in lower case already, and not empty.
pub fn matches(text: &str, needle: &str, whole_word: bool) -> (r: Vec<usize>)
    requires
        needle@.len() > 0,
    ensures
        Seq::new(r@.len(), |i: int| r@[i] as int) == uses(text@, needle@, whole_word),
        forall|i: int| 0 <= i < r@.len() ==> #[trigger] r@[i] < text@.len(),
{
    let v = chars_of(text);
    let n = chars_of(needle);
    let mut low: Vec<char> = Vec::new();
    let mut org: Vec<usize> = Vec::new();
    let mut i: usize = 0;
    assert(v@.take(0) =~= Seq::<char>::empty());
    while i < v.len()
        invariant
            i <= v@.len(),
            v@ == text@,
            low@ == lowered_chars(v@.take(i as int)),
            Seq::new(org@.len(), |k: int| org@[k] as int) == origins(v@.take(i as int)),
        decreases v@.len() - i,
    {
        let ls = caseless_char(v[i]);
        let ghost low0 = low@;
        let ghost org0 = Seq::new(org@.len(), |k: int| org@[k] as int);
        assert(v@.take(i + 1).drop_last() =~= v@.take(i as int));
        assert(v@.take(i + 1).last() == v@[i as int]);
        let mut j: usize = 0;
        assert(low0 + ls@.take(0) =~= low0);
        while j < ls.len()
            invariant
                j <= ls@.len(),
                low@ == low0 + ls@.take(j as int),
                Seq::new(org@.len(), |k: int| org@[k] as int) =~= org0 + Seq::new(
                    j as nat,
                    |k: int| i as int,
                ),
            decreases ls@.len() - j,
        {
            let ghost before = Seq::new(org@.len(), |k: int| org@[k] as int);
            low.push(ls[j]);
            org.push(i);
            proof {
                assert(ls@.take(j + 1) =~= ls@.take(j as int).push(ls@[j as int]));
                assert(low0 + ls@.take(j + 1) =~= (low0 + ls@.take(j as int)).push(
                    ls@[j as int],
                ));
                assert(Seq::new(org@.len(), |k: int| org@[k] as int) =~= before.push(i as int));
            }
            j += 1;
        }
        proof {
            assert(ls@.take(ls@.len() as int) =~= ls@);
            assert(Seq::new(org@.len(), |k: int| org@[k] as int) =~= origins(v@.take(i + 1)));
        }
        i += 1;
    }
    assert(v@.take(v@.len() as int) =~= v@);
    proof {
        lemma_origins(v@);
        assert forall|k: int| 0 <= k < org@.len() implies #[trigger] org@[k] < text@.len() by {
            assert(origins(v@)[k] == org@[k] as int);
        }
    }
    let mut words: Vec<bool> = Vec::new();
    i = 0;
    while i < low.len()
        invariant
            i <= low@.len(),
            words@ == words_in(low@).take(i as int),
        decreases low@.len() - i,
    {
        words.push(word(low[i]));
        assert(words_in(low@).take(i + 1) =~= words_in(low@).take(i as int).push(
            words_in(low@)[i as int],
        ));
        i += 1;
    }
    assert(words_in(low@).take(low@.len() as int) =~= words_in(low@));
    let r = places(&low, &words, &org, &n, whole_word);
    proof {
        assert(Seq::new(org@.len(), |k: int| org@[k] as int) =~= origins(text@));
        assert forall|k: int| 0 <= k < r@.len() implies #[trigger] r@[k] < text@.len() by {
            assert(org@.contains(r@[k]));
            let q = choose|q: int| 0 <= q < org@.len() && org@[q] == r@[k];
            assert(org@[q] < text@.len());
        }
    }
    r
}

/// Where the term is used, by the origins of the characters of the text in lower case.
/// `words` tells which of them are part of a word.
pub fn places(
    low: &Vec<char>,
    words: &Vec<bool>,
    org: &Vec<usize>,
    needle: &Vec<char>,
    whole_word: bool,
) -> (r: Vec<usize>)
    requires
        needle@.len() > 0,
        words@.len() == low@.len(),
        org@.len() == low@.len(),
    ensures
        Seq::new(r@.len(), |i: int| r@[i] as int) == uses_before(
            low@,
            words@,
            Seq::new(org@.len(), |i: int| org@[i] as int),
            needle@,
            whole_word,
            low@.len() as int,
        ),
        forall|i: int| 0 <= i < r@.len() ==> org@.contains(#[trigger] r@[i]),
{
    let ghost ov = Seq::new(org@.len(), |k: int| org@[k] as int);
    let mut out: Vec<usize> = Vec::new();
    let mut p: usize = 0;
    let total: usize = low.len();
    assert(Seq::new(out@.len(), |k: int| out@[k] as int) =~= Seq::<int>::empty());
    while p < total
        invariant
            p <= total == low@.len(),
            needle@.len() > 0,
            words@.len() == low@.len(),
            org@.len() == low@.len(),
            ov == Seq::new(org@.len(), |k: int| org@[k] as int),
            Seq::new(out@.len(), |k: int| out@[k] as int) == uses_before(
                low@,
                words@,
                ov,
                needle@,
                whole_word,
                p as int,
            ),
            forall|k: int| 0 <= k < out@.len() ==> org@.contains(#[trigger] out@[k]),
        decreases total - p,
    {
        if reads(low, p, needle) {
            let end: usize = p + needle.len();
            let whole = !whole_word || ((p == 0 || !words[p - 1]) && (end >= low.len()
                || !words[end]));
            if whole {
                let ghost before = Seq::new(out@.len(), |k: int| out@[k] as int);
                out.push(org[p]);
                proof {
                    assert(org@.contains(org@[p as int]));
                    assert(Seq::new(out@.len(), |k: int| out@[k] as int) =~= before.push(
                        ov[p as int],
                    ));
                }
            }
        }
        p += 1;
    }
    out
}

// ---- sentences --------------------------------------------------------------------------

/// The first place at or behind `i` that `b` bytes or more stand before; the end of the
/// text where there is none.
pub open spec fn ceil_from(s: Seq<char>, b: int, i: int) -> int
    decreases s.len() - i,
{
    if i >= s.len() {
        s.len() as int
    } else if offset(s, i) >= b {
        i
    } else {
        ceil_from(s, b, i + 1)
    }
}

/// The last place up to `i` that `b` bytes or fewer stand before.
pub open spec fn floor_upto(s: Seq<char>, b: int, i: int) -> int
    decreases i,
{
    if i <= 0 {
        0
    } else if offset(s, i) <= b {
        i
    } else {
        floor_upto(s, b, i - 1)
    }
}

/// Is the character white space of ASCII?
pub open spec fn ascii_white(c: char) -> bool {
    c == ' ' || c == '\t' || c == '\n' || c == '\r' || c == '\x0c'
}

/// Does the mark at place `i` end a sentence: is it one of `.`, `!` and `?`, before white
/// space or the end of the text?
pub open spec fn full_stop(s: Seq<char>, i: int) -> bool {
    &&& s[i] == '.' || s[i] == '!' || s[i] == '?'
    &&& i + 1 >= s.len() || ascii_white(s[i + 1])
}

/// Where the sentence that holds place `i` begins.
pub open spec fn sentence_start(s: Seq<char>, i: int) -> int
    decreases i,
{
    if i <= 0 {
        0
    } else if s[i - 1] == '\n' || full_stop(s, i - 1) {
        i
    } else {
        sentence_start(s, i - 1)
    }
}

/// Where the sentence ends that goes on at place `j`.
pub open spec fn sentence_end(s: Seq<char>, j: int) -> int
    decreases s.len() - j,
{
    if j >= s.len() {
        s.len() as int
    } else if s[j] == '\n' {
        j
    } else if full_stop(s, j) {
        j + 1
    } else {
        sentence_end(s, j + 1)
    }
}

/// The text between two places, the sentence where the term of `len` bytes at place `at`
/// stands.
pub open spec fn sentence_span(s: Seq<char>, at: int, len: nat) -> (int, int) {
    (sentence_start(s, at), sentence_end(s, ceil_from(s, (offset(s, at) + len) as int, 0)))
}

/// The sentence around the term of `len` bytes at place `at`: as it stands or, where it
/// is too long, the part that goes 200 bytes beyond the term on each side.
pub open spec fn sentence_of(s: Seq<char>, at: int, len: nat) -> Seq<char> {
    let (from, to) = sentence_span(s, at, len);
    let whole = s.subrange(from, to);
    if trimmed(whole).len() <= SENTENCE_LIMIT {
        trimmed(whole)
    } else {
        let rel = offset(s, at) - offset(s, from);
        let lo = floor_upto(whole, rel - 200, whole.len() as int);
        let hi = ceil_from(whole, rel + len + 200, 0);
        "…"@ + trimmed(whole.subrange(lo, hi)) + "…"@
    }
}

proof fn lemma_ceil(s: Seq<char>, b: int, i: int, k: int)
    requires
        0 <= i <= k <= s.len(),
        i < k ==> offset(s, k - 1) < b,
    ensures
        k <= ceil_from(s, b, i) <= s.len(),
    decreases s.len() - i,
{
    if i < s.len() {
        if i < k {
            lemma_offset_grows(s, i, k - 1);
            lemma_ceil(s, b, i + 1, k);
        } else if offset(s, i) < b {
            lemma_ceil(s, b, i + 1, i + 1);
        }
    }
}

proof fn lemma_floor(s: Seq<char>, b: int, i: int)
    requires
        0 <= i,
    ensures
        0 <= floor_upto(s, b, i) <= i,
        floor_upto(s, b, i) > 0 ==> offset(s, floor_upto(s, b, i)) <= b,
    decreases i,
{
    if i > 0 && offset(s, i) > b {
        lemma_floor(s, b, i - 1);
    }
}

proof fn lemma_sentence_start(s: Seq<char>, i: int)
    requires
        0 <= i,
    ensures
        0 <= sentence_start(s, i) <= i,
    decreases i,
{
    if i > 0 {
        lemma_sentence_start(s, i - 1);
    }
}

proof fn lemma_sentence_end(s: Seq<char>, j: int)
    requires
        0 <= j <= s.len(),
    ensures
        j <= sentence_end(s, j) <= s.len(),
    decreases s.len() - j,
{
    if j < s.len() {
        lemma_sentence_end(s, j + 1);
    }
}

/// A sentence holds the term that it was found for.
proof fn lemma_span(s: Seq<char>, at: int, len: nat)
    requires
        0 <= at <= s.len(),
    ensures
        0 <= sentence_span(s, at, len).0 <= at <= sentence_span(s, at, len).1 <= s.len(),
{
    let b = (offset(s, at) + len) as int;
    lemma_sentence_start(s, at);
    if at > 0 {
        lemma_offset_grows(s, at - 1, at);
    }
    lemma_ceil(s, b, 0, at);
    lemma_sentence_end(s, ceil_from(s, b, 0));
}

fn ceil_char(v: &Vec<char>, b: u128) -> (r: usize)
    ensures
        r == ceil_from(v@, b as int, 0),
        r <= v@.len(),
{
    let mut i: usize = 0;
    let mut n: u128 = 0;
    while i < v.len() && n < b
        invariant
            i <= v@.len(),
            n as nat == offset(v@, i as int),
            ceil_from(v@, b as int, 0) == ceil_from(v@, b as int, i as int),
        decreases v@.len() - i,
    {
        proof {
            lemma_offset_bound(v@, i as int);
        }
        n = n + byte_width(v[i]);
        i += 1;
    }
    i
}

fn floor_char(v: &Vec<char>, b: u128) -> (r: usize)
    ensures
        r == floor_upto(v@, b as int, v@.len() as int),
        r <= v@.len(),
{
    let mut i: usize = v.len();
    let mut n: u128 = bytes_before(v, i);
    while i > 0 && n > b
        invariant
            i <= v@.len(),
            n as nat == offset(v@, i as int),
            floor_upto(v@, b as int, v@.len() as int) == floor_upto(v@, b as int, i as int),
        decreases i,
    {
        i -= 1;
        n = n - byte_width(v[i]);
    }
    i
}

fn is_full_stop(v: &Vec<char>, i: usize) -> (r: bool)
    requires
        i < v@.len(),
    ensures
        r == full_stop(v@, i as int),
{
    let c = v[i];
    if !(c == '.' || c == '!' || c == '?') {
        return false;
    }
    if v.len() - i <= 1 {
        return true;
    }
    let d = v[i + 1];
    d == ' ' || d == '\t' || d == '\n' || d == '\r' || d == '\x0c'
}

fn trimmed_part(v: &Vec<char>, from: usize, to: usize) -> (r: Vec<char>)
    requires
        from <= to <= v@.len(),
    ensures
        r@ == trimmed(v@.subrange(from as int, to as int)),
{
    let part = text_of(v, from, to);
    chars_of(trim(part.as_str()))
}

/// The sentence around the term of `len` bytes at place `at`: as it stands or, where it
/// is too long to read at a glance, windowed around the term.
pub fn sentence_around(text: &str, at: usize, len: u128) -> (r: String)
    requires
        at <= text@.len(),
        len <= u128::MAX / 4,
    ensures
        r@ == sentence_of(text@, at as int, len as nat),
{
    let v = chars_of(text);
    let ghost s = text@;
    let mut from: usize = at;
    while from > 0 && !(v[from - 1] == '\n' || is_full_stop(&v, from - 1))
        invariant
            from <= at <= v@.len(),
            v@ == s,
            sentence_start(s, at as int) == sentence_start(s, from as int),
        decreases from,
    {
        from -= 1;
    }
    proof {
        lemma_offset_bound(s, at as int);
        lemma_span(s, at as int, len as nat);
    }
    let before: u128 = bytes_before(&v, at);
    let mut to: usize = ceil_char(&v, before + len);
    let mut found = false;
    while to < v.len() && !found
        invariant
            to <= v@.len(),
            v@ == s,
            !found ==> sentence_end(s, to as int) == sentence_span(s, at as int, len as nat).1,
            found ==> to == sentence_span(s, at as int, len as nat).1,
        decreases v@.len() - to + if found { 0int } else { 1int },
    {
        if v[to] == '\n' {
            found = true;
        } else if is_full_stop(&v, to) {
            to += 1;
            found = true;
        } else {
            to += 1;
        }
    }
    assert(to == sentence_span(s, at as int, len as nat).1);
    let ghost whole = s.subrange(from as int, to as int);
    let short = trimmed_part(&v, from, to);
    if short.len() <= SENTENCE_LIMIT {
        let r = text_of(&short, 0, short.len());
        assert(r@ =~= short@);
        return r;
    }
    let sub = chars_of(text_of(&v, from, to).as_str());
    let rel: u128 = before - bytes_before_checked(&v, from, at);
    let back: u128 = if rel > 200 {
        rel - 200
    } else {
        0
    };
    proof {
        lemma_offset_bound(s, at as int);
        if rel <= 200 {
            lemma_floor_zero(whole, rel as int - 200, whole.len() as int);
            lemma_floor_zero(whole, 0, whole.len() as int);
        }
    }
    let lo: usize = floor_char(&sub, back);
    let hi: usize = ceil_char(&sub, rel + len + 200);
    proof {
        lemma_floor(whole, back as int, whole.len() as int);
        if lo > 0 {
            lemma_offset_grows(whole, lo - 1, lo as int);
        }
        lemma_ceil(whole, (rel + len + 200) as int, 0, lo as int);
    }
    let part = trimmed_part(&sub, lo, hi);
    cat3("…", text_of_all(&part).as_str(), "…")
}

fn text_of_all(v: &Vec<char>) -> (r: String)
    ensures
        r@ == v@,
{
    let r = text_of(v, 0, v.len());
    assert(r@ =~= v@);
    r
}

fn bytes_before_checked(v: &Vec<char>, i: usize, at: usize) -> (r: u128)
    requires
        i <= at <= v@.len(),
    ensures
        r as nat == offset(v@, i as int),
        r as nat <= offset(v@, at as int),
{
    proof {
        lemma_offset_grows(v@, i as int, at as int);
    }
    bytes_before(v, i)
}

proof fn lemma_floor_zero(s: Seq<char>, b: int, i: int)
    requires
        b <= 0,
        0 <= i,
    ensures
        floor_upto(s, b, i) == 0,
    decreases i,
{
    if i > 0 {
        lemma_offset_grows(s, 0, i);
        lemma_floor_zero(s, b, i - 1);
    }
}

// ---- places -----------------------------------------------------------------------------

/// The names met on the way up from a node, at most `left` of them.
pub open spec fn names_up(ns: Seq<NodeView>, at: Option<Seq<char>>, left: nat) -> Seq<Seq<char>>
    decreases left,
{
    if left == 0 || at is None || last_node(ns, at->0) is None {
        Seq::empty()
    } else {
        let n = last_node(ns, at->0)->0;
        seq![n.name] + names_up(ns, n.parent_id, (left - 1) as nat)
    }
}

/// A list from its end to its beginning.
pub open spec fn backwards(s: Seq<Seq<char>>) -> Seq<Seq<char>> {
    Seq::new(s.len(), |i: int| s[s.len() - 1 - i])
}

/// A node's place by names, from the root down; of a chain longer than 65 the lowest 65.
/// Nothing for an id that names no node.
pub open spec fn place_named(ns: Seq<NodeView>, id: Seq<char>) -> Option<Seq<char>> {
    if last_node(ns, id) is None {
        None
    } else {
        Some(joined(backwards(names_up(ns, Some(id), 65)), " / "@))
    }
}

fn breadcrumb(model: &ScryModel, node_id: &str) -> (r: Option<String>)
    ensures
        r.deep_view() == place_named(model.deep_view().nodes, node_id@),
{
    let ghost ns = model.nodes.deep_view();
    if find_last_node(&model.nodes, node_id).is_none() {
        return None;
    }
    let mut names: Vec<String> = fresh();
    let mut cur: Option<String> = Some(node_id.to_owned());
    let mut left: u32 = 65;
    let ghost want = names_up(ns, Some(node_id@), 65);
    assert(names.deep_view() + want =~= want);
    while left > 0
        invariant
            ns == model.nodes.deep_view(),
            want == names.deep_view() + names_up(ns, cur.deep_view(), left as nat),
        ensures
            names_up(ns, cur.deep_view(), left as nat).len() == 0,
            want == names.deep_view() + names_up(ns, cur.deep_view(), left as nat),
        decreases left,
    {
        let ghost had = names.deep_view();
        let next: Option<String> = match &cur {
            None => {
                break;
            },
            Some(id) => match find_last_node(&model.nodes, id.as_str()) {
                None => {
                    break;
                },
                Some(i) => {
                    let n = at(&model.nodes, i);
                    put(&mut names, n.name.dup());
                    proof {
                        let rest = names_up(ns, n.parent_id.deep_view(), (left - 1) as nat);
                        assert(had + (seq![n.name@] + rest) =~= had.push(n.name@) + rest);
                    }
                    n.parent_id.dup()
                },
            },
        };
        cur = next;
        left -= 1;
    }
    assert(names.deep_view() =~= want);
    let turned = reversed(&names);
    Some(join(&turned, " / "))
}

fn reversed(v: &Vec<String>) -> (r: Vec<String>)
    ensures
        r.deep_view() == backwards(v.deep_view()),
{
    let ghost s = v.deep_view();
    let mut out: Vec<String> = fresh();
    let n: usize = v.len();
    let mut i: usize = 0;
    assert(backwards(s).take(0) =~= Seq::<Seq<char>>::empty());
    while i < n
        invariant
            i <= n == v@.len(),
            s == v.deep_view(),
            out.deep_view() == backwards(s).take(i as int),
        decreases n - i,
    {
        put(&mut out, at(v, n - 1 - i).clone());
        assert(backwards(s).take(i + 1) =~= backwards(s).take(i as int).push(
            backwards(s)[i as int],
        ));
        i += 1;
    }
    assert(backwards(s).take(n as int) =~= backwards(s));
    out
}

// ---- prose ------------------------------------------------------------------------------

/// The uses in one text, each as `like` says with the sentence around it.
pub open spec fn uses_in(
    text: Seq<char>,
    needle: Seq<char>,
    whole: bool,
    like: OccurrenceView,
) -> Seq<OccurrenceView> {
    let us = uses(text, needle, whole);
    Seq::new(
        us.len(),
        |i: int|
            OccurrenceView {
                sentence: sentence_of(text, us[i], byte_len(needle)),
                ..like
            },
    )
}

/// What the uses in an element have in common.
pub open spec fn as_found(
    kind: Seq<char>,
    layer: Seq<char>,
    id: Seq<char>,
    host: Option<Seq<char>>,
    path: Option<Seq<char>>,
    field: Seq<char>,
) -> OccurrenceView {
    OccurrenceView { kind, layer, id, host_id: host, path, field, sentence: Seq::empty() }
}

/// The uses in a list of directives, in order. Only their words are read, never what
/// they cite.
pub open spec fn in_directives(
    ds: Seq<DirectiveView>,
    needle: Seq<char>,
    whole: bool,
    layer: Seq<char>,
    id: Seq<char>,
    host: Option<Seq<char>>,
    path: Option<Seq<char>>,
) -> Seq<OccurrenceView>
    decreases ds.len(),
{
    if ds.len() == 0 {
        Seq::empty()
    } else {
        in_directives(ds.drop_last(), needle, whole, layer, id, host, path) + uses_in(
            ds.last().text,
            needle,
            whole,
            as_found("directive"@, layer, id, host, path, "directive "@ + decimal(ds.len())),
        )
    }
}

/// The uses in the descriptions of a list of properties, in order.
pub open spec fn in_properties(
    ps: Seq<SchemaPropertyView>,
    needle: Seq<char>,
    whole: bool,
    layer: Seq<char>,
    owner: Seq<char>,
    path: Option<Seq<char>>,
) -> Seq<OccurrenceView>
    decreases ps.len(),
{
    if ps.len() == 0 {
        Seq::empty()
    } else {
        in_properties(ps.drop_last(), needle, whole, layer, owner, path) + uses_in(
            ps.last().description,
            needle,
            whole,
            as_found(
                "description"@,
                layer,
                owner + ":"@ + ps.last().label,
                Some(owner),
                path,
                "description"@,
            ),
        )
    }
}

/// The uses in a list of claims, in order: in each its statement, then its directives.
pub open spec fn in_claims(
    rs: Seq<ResponsibilityView>,
    needle: Seq<char>,
    whole: bool,
    layer: Seq<char>,
    host: Seq<char>,
    path: Option<Seq<char>>,
) -> Seq<OccurrenceView>
    decreases rs.len(),
{
    if rs.len() == 0 {
        Seq::empty()
    } else {
        let r = rs.last();
        in_claims(rs.drop_last(), needle, whole, layer, host, path) + uses_in(
            r.statement,
            needle,
            whole,
            as_found("claim"@, layer, r.id, Some(host), path, "statement"@),
        ) + in_directives(r.directives, needle, whole, layer, r.id, Some(host), path)
    }
}

/// The uses in a description.
pub open spec fn in_description(
    d: Option<Seq<char>>,
    needle: Seq<char>,
    whole: bool,
    layer: Seq<char>,
    id: Seq<char>,
    path: Option<Seq<char>>,
) -> Seq<OccurrenceView> {
    match d {
        Some(text) => uses_in(
            text,
            needle,
            whole,
            as_found("description"@, layer, id, None, path, "description"@),
        ),
        None => Seq::empty(),
    }
}

/// The uses in one node.
pub open spec fn in_node(
    n: NodeView,
    needle: Seq<char>,
    whole: bool,
    layer: Seq<char>,
    path: Option<Seq<char>>,
) -> Seq<OccurrenceView> {
    in_description(n.description, needle, whole, layer, n.id, path) + in_directives(
        n.directives,
        needle,
        whole,
        layer,
        n.id,
        None,
        path,
    ) + in_properties(n.properties, needle, whole, layer, n.id, path) + in_claims(
        n.responsibilities,
        needle,
        whole,
        layer,
        n.id,
        path,
    )
}

/// The uses in one group.
pub open spec fn in_group(
    g: GroupView,
    needle: Seq<char>,
    whole: bool,
    layer: Seq<char>,
    path: Option<Seq<char>>,
) -> Seq<OccurrenceView> {
    in_description(g.description, needle, whole, layer, g.id, path) + in_claims(
        g.responsibilities,
        needle,
        whole,
        layer,
        g.id,
        path,
    )
}

/// The place of a group: that of its parent node.
pub open spec fn group_place(ns: Seq<NodeView>, g: GroupView) -> Option<Seq<char>> {
    match g.parent_node_id {
        Some(p) => place_named(ns, p),
        None => None,
    }
}

/// The uses in the nodes, in order.
pub open spec fn in_all_nodes(
    all: Seq<NodeView>,
    ns: Seq<NodeView>,
    needle: Seq<char>,
    whole: bool,
    layer: Seq<char>,
) -> Seq<OccurrenceView>
    decreases ns.len(),
{
    if ns.len() == 0 {
        Seq::empty()
    } else {
        in_all_nodes(all, ns.drop_last(), needle, whole, layer) + in_node(
            ns.last(),
            needle,
            whole,
            layer,
            place_named(all, ns.last().id),
        )
    }
}

/// The uses in the groups, in order.
pub open spec fn in_all_groups(
    all: Seq<NodeView>,
    gs: Seq<GroupView>,
    needle: Seq<char>,
    whole: bool,
    layer: Seq<char>,
) -> Seq<OccurrenceView>
    decreases gs.len(),
{
    if gs.len() == 0 {
        Seq::empty()
    } else {
        in_all_groups(all, gs.drop_last(), needle, whole, layer) + in_group(
            gs.last(),
            needle,
            whole,
            layer,
            group_place(all, gs.last()),
        )
    }
}

/// The uses in one layer: in its nodes, then in its groups.
#[verifier::opaque]
pub open spec fn in_layer(
    layer: Seq<char>,
    m: ScryModelView,
    needle: Seq<char>,
    whole: bool,
) -> Seq<OccurrenceView> {
    in_all_nodes(m.nodes, m.nodes, needle, whole, layer) + in_all_groups(
        m.nodes,
        m.groups,
        needle,
        whole,
        layer,
    )
}

/// The uses in the layers, in order.
pub open spec fn in_layers(
    layers: Seq<(Seq<char>, ScryModelView)>,
    needle: Seq<char>,
    whole: bool,
) -> Seq<OccurrenceView>
    decreases layers.len(),
{
    if layers.len() == 0 {
        Seq::empty()
    } else {
        let (layer, m) = layers.last();
        in_layers(layers.drop_last(), needle, whole) + in_layer(layer, m, needle, whole)
    }
}

/// The layers, modelled.
pub open spec fn layers_view(
    layers: Seq<(&'static str, &ScryModel)>,
) -> Seq<(Seq<char>, ScryModelView)> {
    Seq::new(layers.len(), |i: int| (layers[i].0@, layers[i].1.deep_view()))
}

/// Every use of the term: none for a blank one.
pub open spec fn occurrences(
    layers: Seq<(Seq<char>, ScryModelView)>,
    term: Seq<char>,
    whole: bool,
) -> Seq<OccurrenceView> {
    let needle = lowered_chars(trimmed(term));
    if needle.len() == 0 {
        Seq::empty()
    } else {
        in_layers(layers, needle, whole)
    }
}

fn push_all(out: &mut Vec<Occurrence>, needle: &str, whole_word: bool, text: &str, like: &Occurrence)
    requires
        needle@.len() > 0,
    ensures
        final(out).deep_view() == old(out).deep_view() + uses_in(
            text@,
            needle@,
            whole_word,
            like.deep_view(),
        ),
{
    let ghost o = out.deep_view();
    let found = matches(text, needle, whole_word);
    let ghost want = uses_in(text@, needle@, whole_word, like.deep_view());
    let len: u128 = bytes_in(needle);
    let mut i: usize = 0;
    assert(o + want.take(0) =~= o);
    while i < found.len()
        invariant
            i <= found@.len(),
            Seq::new(found@.len(), |k: int| found@[k] as int) == uses(text@, needle@, whole_word),
            forall|k: int| 0 <= k < found@.len() ==> #[trigger] found@[k] < text@.len(),
            want == uses_in(text@, needle@, whole_word, like.deep_view()),
            len as nat == byte_len(needle@),
            len <= u128::MAX / 4,
            out.deep_view() == o + want.take(i as int),
        decreases found@.len() - i,
    {
        let mut x = like.dup();
        x.sentence = sentence_around(text, found[i], len);
        proof {
            assert(uses(text@, needle@, whole_word)[i as int] == found@[i as int]);
            assert(x.deep_view() == want[i as int]);
            assert(o + want.take(i + 1) =~= (o + want.take(i as int)).push(want[i as int]));
        }
        put(out, x);
        i += 1;
    }
    assert(want.take(want.len() as int) =~= want);
}

fn found_as(
    kind: &'static str,
    layer: &'static str,
    id: String,
    host: &Option<String>,
    path: &Option<String>,
    field: String,
) -> (r: Occurrence)
    ensures
        r.deep_view() == as_found(
            kind@,
            layer@,
            id@,
            host.deep_view(),
            path.deep_view(),
            field@,
        ),
{
    let r = Occurrence {
        kind,
        layer,
        id,
        host_id: host.dup(),
        path: path.dup(),
        field,
        sentence: String::new(),
    };
    assert(r.sentence@ =~= Seq::<char>::empty());
    r
}

fn directives_prose(
    out: &mut Vec<Occurrence>,
    ds: &Vec<Directive>,
    needle: &str,
    whole_word: bool,
    layer: &'static str,
    id: &String,
    host: &Option<String>,
    path: &Option<String>,
)
    requires
        needle@.len() > 0,
    ensures
        final(out).deep_view() == old(out).deep_view() + in_directives(
            ds.deep_view(),
            needle@,
            whole_word,
            layer@,
            id@,
            host.deep_view(),
            path.deep_view(),
        ),
{
    let ghost o = out.deep_view();
    let ghost v = ds.deep_view();
    let mut i: usize = 0;
    assert(v.take(0) =~= Seq::<DirectiveView>::empty());
    assert(out.deep_view() =~= o + in_directives(
        v.take(0),
        needle@,
        whole_word,
        layer@,
        id@,
        host.deep_view(),
        path.deep_view(),
    ));
    while i < ds.len()
        invariant
            i <= ds@.len(),
            v == ds.deep_view(),
            needle@.len() > 0,
            out.deep_view() == o + in_directives(
                v.take(i as int),
                needle@,
                whole_word,
                layer@,
                id@,
                host.deep_view(),
                path.deep_view(),
            ),
        decreases ds@.len() - i,
    {
        let d = at(ds, i);
        let ghost before = in_directives(
            v.take(i as int),
            needle@,
            whole_word,
            layer@,
            id@,
            host.deep_view(),
            path.deep_view(),
        );
        assert(v.take(i + 1).drop_last() =~= v.take(i as int));
        let n: u64 = i as u64;
        let field = cat2("directive ", dec(n + 1).as_str());
        let like = found_as("directive", layer, id.clone(), host, path, field);
        push_all(out, needle, whole_word, d.text.as_str(), &like);
        proof {
            let mine = uses_in(d.text@, needle@, whole_word, like.deep_view());
            assert(o + before + mine =~= o + (before + mine));
        }
        i += 1;
    }
    assert(v.take(v.len() as int) =~= v);
}

fn properties_prose(
    out: &mut Vec<Occurrence>,
    ps: &Vec<SchemaProperty>,
    needle: &str,
    whole_word: bool,
    layer: &'static str,
    owner: &String,
    path: &Option<String>,
)
    requires
        needle@.len() > 0,
    ensures
        final(out).deep_view() == old(out).deep_view() + in_properties(
            ps.deep_view(),
            needle@,
            whole_word,
            layer@,
            owner@,
            path.deep_view(),
        ),
{
    let ghost o = out.deep_view();
    let ghost v = ps.deep_view();
    let host: Option<String> = Some(owner.clone());
    let mut i: usize = 0;
    assert(v.take(0) =~= Seq::<SchemaPropertyView>::empty());
    assert(out.deep_view() =~= o + in_properties(
        v.take(0),
        needle@,
        whole_word,
        layer@,
        owner@,
        path.deep_view(),
    ));
    while i < ps.len()
        invariant
            i <= ps@.len(),
            v == ps.deep_view(),
            needle@.len() > 0,
            host.deep_view() == Some(owner@),
            out.deep_view() == o + in_properties(
                v.take(i as int),
                needle@,
                whole_word,
                layer@,
                owner@,
                path.deep_view(),
            ),
        decreases ps@.len() - i,
    {
        let p = at(ps, i);
        let ghost before = in_properties(
            v.take(i as int),
            needle@,
            whole_word,
            layer@,
            owner@,
            path.deep_view(),
        );
        assert(v.take(i + 1).drop_last() =~= v.take(i as int));
        let id = cat3(owner.as_str(), ":", p.label.as_str());
        let like = found_as("description", layer, id, &host, path, "description".to_owned());
        push_all(out, needle, whole_word, p.description.as_str(), &like);
        proof {
            let mine = uses_in(p.description@, needle@, whole_word, like.deep_view());
            assert(o + before + mine =~= o + (before + mine));
        }
        i += 1;
    }
    assert(v.take(v.len() as int) =~= v);
}

fn claims_prose(
    out: &mut Vec<Occurrence>,
    claims: &Vec<Responsibility>,
    needle: &str,
    whole_word: bool,
    layer: &'static str,
    host: &String,
    path: &Option<String>,
)
    requires
        needle@.len() > 0,
    ensures
        final(out).deep_view() == old(out).deep_view() + in_claims(
            claims.deep_view(),
            needle@,
            whole_word,
            layer@,
            host@,
            path.deep_view(),
        ),
{
    let ghost o = out.deep_view();
    let ghost v = claims.deep_view();
    let at_host: Option<String> = Some(host.clone());
    let mut i: usize = 0;
    assert(v.take(0) =~= Seq::<ResponsibilityView>::empty());
    assert(out.deep_view() =~= o + in_claims(
        v.take(0),
        needle@,
        whole_word,
        layer@,
        host@,
        path.deep_view(),
    ));
    while i < claims.len()
        invariant
            i <= claims@.len(),
            v == claims.deep_view(),
            needle@.len() > 0,
            at_host.deep_view() == Some(host@),
            out.deep_view() == o + in_claims(
                v.take(i as int),
                needle@,
                whole_word,
                layer@,
                host@,
                path.deep_view(),
            ),
        decreases claims@.len() - i,
    {
        let r = at(claims, i);
        let ghost before = in_claims(
            v.take(i as int),
            needle@,
            whole_word,
            layer@,
            host@,
            path.deep_view(),
        );
        assert(v.take(i + 1).drop_last() =~= v.take(i as int));
        let like = found_as("claim", layer, r.id.clone(), &at_host, path, "statement".to_owned());
        push_all(out, needle, whole_word, r.statement.as_str(), &like);
        directives_prose(out, &r.directives, needle, whole_word, layer, &r.id, &at_host, path);
        proof {
            let a = uses_in(r.statement@, needle@, whole_word, like.deep_view());
            let b = in_directives(
                r.directives.deep_view(),
                needle@,
                whole_word,
                layer@,
                r.id@,
                Some(host@),
                path.deep_view(),
            );
            assert(o + before + a + b =~= o + (before + a + b));
        }
        i += 1;
    }
    assert(v.take(v.len() as int) =~= v);
}

fn description_prose(
    out: &mut Vec<Occurrence>,
    d: &Option<String>,
    needle: &str,
    whole_word: bool,
    layer: &'static str,
    id: &String,
    path: &Option<String>,
)
    requires
        needle@.len() > 0,
    ensures
        final(out).deep_view() == old(out).deep_view() + in_description(
            d.deep_view(),
            needle@,
            whole_word,
            layer@,
            id@,
            path.deep_view(),
        ),
{
    let ghost o = out.deep_view();
    match d {
        Some(text) => {
            let like = found_as(
                "description",
                layer,
                id.clone(),
                &None,
                path,
                "description".to_owned(),
            );
            push_all(out, needle, whole_word, text.as_str(), &like);
        },
        None => {
            assert(o =~= o + Seq::<OccurrenceView>::empty());
        },
    }
}

fn node_prose(
    out: &mut Vec<Occurrence>,
    n: &Node,
    needle: &str,
    whole_word: bool,
    layer: &'static str,
    path: &Option<String>,
)
    requires
        needle@.len() > 0,
    ensures
        final(out).deep_view() == old(out).deep_view() + in_node(
            n.deep_view(),
            needle@,
            whole_word,
            layer@,
            path.deep_view(),
        ),
{
    let ghost o = out.deep_view();
    let ghost nv = n.deep_view();
    description_prose(out, &n.description, needle, whole_word, layer, &n.id, path);
    directives_prose(out, &n.directives, needle, whole_word, layer, &n.id, &None, path);
    properties_prose(out, &n.properties, needle, whole_word, layer, &n.id, path);
    claims_prose(out, &n.responsibilities, needle, whole_word, layer, &n.id, path);
    assert(out.deep_view() =~= o + in_node(nv, needle@, whole_word, layer@, path.deep_view()));
}

fn group_prose(
    out: &mut Vec<Occurrence>,
    g: &Group,
    needle: &str,
    whole_word: bool,
    layer: &'static str,
    path: &Option<String>,
)
    requires
        needle@.len() > 0,
    ensures
        final(out).deep_view() == old(out).deep_view() + in_group(
            g.deep_view(),
            needle@,
            whole_word,
            layer@,
            path.deep_view(),
        ),
{
    let ghost o = out.deep_view();
    let ghost gv = g.deep_view();
    description_prose(out, &g.description, needle, whole_word, layer, &g.id, path);
    claims_prose(out, &g.responsibilities, needle, whole_word, layer, &g.id, path);
    assert(out.deep_view() =~= o + in_group(gv, needle@, whole_word, layer@, path.deep_view()));
}

fn layer_prose(
    out: &mut Vec<Occurrence>,
    layer: &'static str,
    model: &ScryModel,
    needle: &str,
    whole_word: bool,
)
    requires
        needle@.len() > 0,
    ensures
        final(out).deep_view() == old(out).deep_view() + in_layer(
            layer@,
            model.deep_view(),
            needle@,
            whole_word,
        ),
{
    let ghost o = out.deep_view();
    let ghost ns = model.deep_view().nodes;
    let ghost gs = model.deep_view().groups;
    let mut i: usize = 0;
    assert(ns.take(0) =~= Seq::<NodeView>::empty());
    assert(out.deep_view() =~= o + in_all_nodes(ns, ns.take(0), needle@, whole_word, layer@));
    while i < model.nodes.len()
        invariant
            i <= model.nodes@.len(),
            ns == model.deep_view().nodes,
            needle@.len() > 0,
            out.deep_view() == o + in_all_nodes(
                ns,
                ns.take(i as int),
                needle@,
                whole_word,
                layer@,
            ),
        decreases model.nodes@.len() - i,
    {
        let n = at(&model.nodes, i);
        assert(ns.take(i + 1).drop_last() =~= ns.take(i as int));
        let path = breadcrumb(model, n.id.as_str());
        node_prose(out, n, needle, whole_word, layer, &path);
        proof {
            let before = in_all_nodes(ns, ns.take(i as int), needle@, whole_word, layer@);
            let mine = in_node(n.deep_view(), needle@, whole_word, layer@, path.deep_view());
            assert(o + before + mine =~= o + (before + mine));
        }
        i += 1;
    }
    assert(ns.take(ns.len() as int) =~= ns);
    let ghost o2 = out.deep_view();
    i = 0;
    assert(gs.take(0) =~= Seq::<GroupView>::empty());
    assert(out.deep_view() =~= o2 + in_all_groups(ns, gs.take(0), needle@, whole_word, layer@));
    while i < model.groups.len()
        invariant
            i <= model.groups@.len(),
            ns == model.deep_view().nodes,
            gs == model.deep_view().groups,
            needle@.len() > 0,
            out.deep_view() == o2 + in_all_groups(
                ns,
                gs.take(i as int),
                needle@,
                whole_word,
                layer@,
            ),
        decreases model.groups@.len() - i,
    {
        let g = at(&model.groups, i);
        assert(gs.take(i + 1).drop_last() =~= gs.take(i as int));
        let path = match &g.parent_node_id {
            Some(p) => breadcrumb(model, p.as_str()),
            None => None,
        };
        group_prose(out, g, needle, whole_word, layer, &path);
        proof {
            let before = in_all_groups(ns, gs.take(i as int), needle@, whole_word, layer@);
            let mine = in_group(g.deep_view(), needle@, whole_word, layer@, path.deep_view());
            assert(o2 + before + mine =~= o2 + (before + mine));
        }
        i += 1;
    }
    assert(gs.take(gs.len() as int) =~= gs);
    proof {
        reveal(in_layer);
        assert(out.deep_view() =~= o + in_layer(layer@, model.deep_view(), needle@, whole_word));
    }
}

/// Every use of `needle`, which is in lower case already and not empty, in the prose of
/// the layers.
pub fn find_lowered(
    layers: &[(&'static str, &ScryModel)],
    needle: &str,
    whole_word: bool,
) -> (r: Vec<Occurrence>)
    requires
        needle@.len() > 0,
    ensures
        r.deep_view() == in_layers(layers_view(layers@), needle@, whole_word),
{
    let ghost lv = layers_view(layers@);
    let mut out: Vec<Occurrence> = fresh();
    let mut i: usize = 0;
    assert(lv.take(0) =~= Seq::<(Seq<char>, ScryModelView)>::empty());
    while i < layers.len()
        invariant
            i <= layers@.len(),
            lv == layers_view(layers@),
            needle@.len() > 0,
            out.deep_view() == in_layers(lv.take(i as int), needle@, whole_word),
        decreases layers@.len() - i,
    {
        let (layer, model) = layers[i];
        assert(lv.take(i + 1).drop_last() =~= lv.take(i as int));
        assert(lv.take(i + 1).last() == (layer@, model.deep_view()));
        layer_prose(&mut out, layer, model, needle, whole_word);
        i += 1;
    }
    assert(lv.take(lv.len() as int) =~= lv);
    out
}

/// Every use of `term` in the prose of the layers given: layer by layer, then node by
/// node as the model stores them, then field by field, then place by place. Upper and
/// lower case are the same. `whole_word` asks for a character that is not of a word on
/// each side, so that `fold` does not report `folded`; a term of several words is
/// bounded at its two ends.
pub fn find(
    layers: &[(&'static str, &ScryModel)],
    term: &str,
    whole_word: bool,
) -> (r: Vec<Occurrence>)
    ensures
        r.deep_view() == occurrences(layers_view(layers@), term@, whole_word),
{
    let needle = lowered_term(trim(term));
    if needle.as_str().unicode_len() == 0 {
        return fresh();
    }
    find_lowered(layers, needle.as_str(), whole_word)
}

// ---- laws -------------------------------------------------------------------------------

proof fn lemma_trimmed_len(s: Seq<char>)
    ensures
        trimmed_start(s).len() <= s.len(),
        trimmed_end(s).len() <= s.len(),
    decreases s.len(),
{
    if s.len() > 0 {
        lemma_trimmed_len(s.drop_first());
        lemma_trimmed_len(s.drop_last());
    }
}

proof fn lemma_ceil_tight(s: Seq<char>, b: int, i: int)
    requires
        0 <= i <= s.len(),
    ensures
        ceil_from(s, b, i) > i ==> offset(s, ceil_from(s, b, i) - 1) < b,
    decreases s.len() - i,
{
    if i < s.len() && offset(s, i) < b {
        lemma_ceil_tight(s, b, i + 1);
        lemma_ceil(s, b, i + 1, i + 1);
    }
}

proof fn lemma_floor_tight(s: Seq<char>, b: int, i: int)
    requires
        0 <= i,
    ensures
        floor_upto(s, b, i) < i ==> offset(s, floor_upto(s, b, i) + 1) > b,
    decreases i,
{
    if i > 0 && offset(s, i) > b {
        lemma_floor_tight(s, b, i - 1);
        lemma_floor(s, b, i - 1);
    }
}

/// A use carries a sentence that stands around the term, and no more of it than can be
/// read at a glance: at most 400 characters or, windowed, fewer than 404 and the term.
pub proof fn law_a_sentence_is_read_at_a_glance(s: Seq<char>, at: int, len: nat)
    requires
        0 <= at <= s.len(),
    ensures
        0 <= sentence_span(s, at, len).0 <= at <= sentence_span(s, at, len).1 <= s.len(),
        sentence_of(s, at, len).len() < 404 + len,
{
    lemma_span(s, at, len);
    let (from, to) = sentence_span(s, at, len);
    let whole = s.subrange(from, to);
    let rel = offset(s, at) - offset(s, from);
    let lo = floor_upto(whole, rel - 200, whole.len() as int);
    let hi = ceil_from(whole, rel + len + 200, 0);
    lemma_floor(whole, rel - 200, whole.len() as int);
    lemma_floor_tight(whole, rel - 200, whole.len() as int);
    lemma_ceil(whole, rel + len + 200, 0, 0);
    lemma_ceil_tight(whole, rel + len + 200, 0);
    lemma_offset_grows(s, from, at);
    if lo < hi {
        let part = whole.subrange(lo, hi);
        lemma_trimmed_len(part);
        lemma_trimmed_len(trimmed_start(part));
        if lo + 1 <= hi - 1 {
            lemma_offset_apart(whole, lo + 1, hi - 1);
        }
        reveal_strlit("…");
    } else {
        if lo > 0 {
            lemma_offset_grows(whole, lo - 1, lo);
            lemma_ceil(whole, rel + len + 200, 0, lo);
        }
        let part = whole.subrange(lo, hi);
        lemma_trimmed_len(part);
        lemma_trimmed_len(trimmed_start(part));
        reveal_strlit("…");
    }
}

/// A use of the word itself is also found where parts of words are asked for.
pub proof fn law_whole_words_are_found_either_way(
    low: Seq<char>,
    words: Seq<bool>,
    needle: Seq<char>,
    p: int,
)
    requires
        used_at(low, words, needle, true, p),
    ensures
        used_at(low, words, needle, false, p),
{
}

/// A directive without what it cites.
pub open spec fn uncited_directive(d: DirectiveView) -> DirectiveView {
    DirectiveView { cites: Seq::empty(), ..d }
}

/// Directives without what they cite.
pub open spec fn uncited_directives(ds: Seq<DirectiveView>) -> Seq<DirectiveView> {
    Seq::new(ds.len(), |i: int| uncited_directive(ds[i]))
}

/// A claim without what it cites.
pub open spec fn uncited_claim(r: ResponsibilityView) -> ResponsibilityView {
    ResponsibilityView {
        cites: Seq::empty(),
        directives: uncited_directives(r.directives),
        ..r
    }
}

/// Claims without what they cite.
pub open spec fn uncited_claims(rs: Seq<ResponsibilityView>) -> Seq<ResponsibilityView> {
    Seq::new(rs.len(), |i: int| uncited_claim(rs[i]))
}

/// A node without what it cites.
pub open spec fn uncited_node(n: NodeView) -> NodeView {
    NodeView {
        directives: uncited_directives(n.directives),
        responsibilities: uncited_claims(n.responsibilities),
        ..n
    }
}

/// A group without what it cites.
pub open spec fn uncited_group(g: GroupView) -> GroupView {
    GroupView { responsibilities: uncited_claims(g.responsibilities), ..g }
}

/// A model without what it cites.
pub open spec fn uncited(m: ScryModelView) -> ScryModelView {
    ScryModelView {
        nodes: Seq::new(m.nodes.len(), |i: int| uncited_node(m.nodes[i])),
        groups: Seq::new(m.groups.len(), |i: int| uncited_group(m.groups[i])),
        ..m
    }
}

proof fn lemma_uncited_directives(
    ds: Seq<DirectiveView>,
    needle: Seq<char>,
    whole: bool,
    layer: Seq<char>,
    id: Seq<char>,
    host: Option<Seq<char>>,
    path: Option<Seq<char>>,
)
    ensures
        in_directives(uncited_directives(ds), needle, whole, layer, id, host, path)
            == in_directives(ds, needle, whole, layer, id, host, path),
    decreases ds.len(),
{
    if ds.len() > 0 {
        lemma_uncited_directives(ds.drop_last(), needle, whole, layer, id, host, path);
        assert(uncited_directives(ds).drop_last() =~= uncited_directives(ds.drop_last()));
    }
}

proof fn lemma_uncited_claims(
    rs: Seq<ResponsibilityView>,
    needle: Seq<char>,
    whole: bool,
    layer: Seq<char>,
    host: Seq<char>,
    path: Option<Seq<char>>,
)
    ensures
        in_claims(uncited_claims(rs), needle, whole, layer, host, path) == in_claims(
            rs,
            needle,
            whole,
            layer,
            host,
            path,
        ),
    decreases rs.len(),
{
    if rs.len() > 0 {
        let r = rs.last();
        lemma_uncited_claims(rs.drop_last(), needle, whole, layer, host, path);
        assert(uncited_claims(rs).drop_last() =~= uncited_claims(rs.drop_last()));
        lemma_uncited_directives(r.directives, needle, whole, layer, r.id, Some(host), path);
    }
}

spec fn uncited_nodes(ns: Seq<NodeView>) -> Seq<NodeView> {
    Seq::new(ns.len(), |i: int| uncited_node(ns[i]))
}

spec fn uncited_groups(gs: Seq<GroupView>) -> Seq<GroupView> {
    Seq::new(gs.len(), |i: int| uncited_group(gs[i]))
}

proof fn lemma_uncited_lookup(ns: Seq<NodeView>, id: Seq<char>)
    ensures
        last_node(uncited_nodes(ns), id) == match last_node(ns, id) {
            Some(n) => Some(uncited_node(n)),
            None => None,
        },
    decreases ns.len(),
{
    if ns.len() > 0 {
        lemma_uncited_lookup(ns.drop_last(), id);
        assert(uncited_nodes(ns).drop_last() =~= uncited_nodes(ns.drop_last()));
    }
}

proof fn lemma_uncited_names(ns: Seq<NodeView>, at: Option<Seq<char>>, left: nat)
    ensures
        names_up(uncited_nodes(ns), at, left) == names_up(ns, at, left),
    decreases left,
{
    if left > 0 && at is Some {
        lemma_uncited_lookup(ns, at->0);
        if last_node(ns, at->0) is Some {
            lemma_uncited_names(ns, last_node(ns, at->0)->0.parent_id, (left - 1) as nat);
        }
    }
}

proof fn lemma_uncited_place(ns: Seq<NodeView>, id: Seq<char>)
    ensures
        place_named(uncited_nodes(ns), id) == place_named(ns, id),
{
    lemma_uncited_lookup(ns, id);
    lemma_uncited_names(ns, Some(id), 65);
}

proof fn lemma_uncited_nodes(
    all: Seq<NodeView>,
    ns: Seq<NodeView>,
    needle: Seq<char>,
    whole: bool,
    layer: Seq<char>,
)
    ensures
        in_all_nodes(uncited_nodes(all), uncited_nodes(ns), needle, whole, layer)
            == in_all_nodes(all, ns, needle, whole, layer),
    decreases ns.len(),
{
    if ns.len() > 0 {
        let n = ns.last();
        let path = place_named(all, n.id);
        lemma_uncited_nodes(all, ns.drop_last(), needle, whole, layer);
        assert(uncited_nodes(ns).drop_last() =~= uncited_nodes(ns.drop_last()));
        lemma_uncited_place(all, n.id);
        lemma_uncited_directives(n.directives, needle, whole, layer, n.id, None, path);
        lemma_uncited_claims(n.responsibilities, needle, whole, layer, n.id, path);
    }
}

proof fn lemma_uncited_groups(
    all: Seq<NodeView>,
    gs: Seq<GroupView>,
    needle: Seq<char>,
    whole: bool,
    layer: Seq<char>,
)
    ensures
        in_all_groups(uncited_nodes(all), uncited_groups(gs), needle, whole, layer)
            == in_all_groups(all, gs, needle, whole, layer),
    decreases gs.len(),
{
    if gs.len() > 0 {
        let g = gs.last();
        lemma_uncited_groups(all, gs.drop_last(), needle, whole, layer);
        assert(uncited_groups(gs).drop_last() =~= uncited_groups(gs.drop_last()));
        if g.parent_node_id is Some {
            lemma_uncited_place(all, g.parent_node_id->0);
        }
        lemma_uncited_claims(
            g.responsibilities,
            needle,
            whole,
            layer,
            g.id,
            group_place(all, g),
        );
    }
}

/// A word search never reaches into a citation: what it finds in a layer does not
/// depend on what is cited there.
pub proof fn law_citations_are_not_prose(
    layer: Seq<char>,
    m: ScryModelView,
    needle: Seq<char>,
    whole: bool,
)
    ensures
        in_layer(layer, uncited(m), needle, whole) == in_layer(layer, m, needle, whole),
{
    reveal(in_layer);
    assert(uncited(m).nodes =~= uncited_nodes(m.nodes));
    assert(uncited(m).groups =~= uncited_groups(m.groups));
    lemma_uncited_nodes(m.nodes, m.nodes, needle, whole, layer);
    lemma_uncited_groups(m.nodes, m.groups, needle, whole, layer);
}

/// The layers are answered one after the other, each as it is answered alone.
pub proof fn law_layers_are_told_apart(
    a: Seq<(Seq<char>, ScryModelView)>,
    b: Seq<(Seq<char>, ScryModelView)>,
    needle: Seq<char>,
    whole: bool,
)
    ensures
        in_layers(a + b, needle, whole) == in_layers(a, needle, whole) + in_layers(
            b,
            needle,
            whole,
        ),
    decreases b.len(),
{
    if b.len() == 0 {
        assert(a + b =~= a);
        assert(in_layers(a, needle, whole) + in_layers(b, needle, whole) =~= in_layers(
            a,
            needle,
            whole,
        ));
    } else {
        law_layers_are_told_apart(a, b.drop_last(), needle, whole);
        assert((a + b).drop_last() =~= a + b.drop_last());
        let (layer, m) = b.last();
        let mine = in_layer(layer, m, needle, whole);
        let x = in_layers(a, needle, whole);
        let y = in_layers(b.drop_last(), needle, whole);
        assert(x + y + mine =~= x + (y + mine));
    }
}

// ---- every use ----------------------------------------------------------------------------

proof fn lemma_lowered_sum(a: Seq<char>, b: Seq<char>)
    ensures
        lowered_chars(a + b) == lowered_chars(a) + lowered_chars(b),
        forall|i: int|
            0 <= i < lowered_chars(b).len() ==> #[trigger] origins(a + b)[lowered_chars(a).len()
                + i] == a.len() + origins(b)[i],
    decreases b.len(),
{
    lemma_origins(a);
    lemma_origins(b);
    lemma_origins(a + b);
    if b.len() == 0 {
        assert(a + b =~= a);
        assert(lowered_chars(a) + lowered_chars(b) =~= lowered_chars(a));
    } else {
        let d = b.drop_last();
        lemma_lowered_sum(a, d);
        lemma_origins(d);
        lemma_origins(a + d);
        assert((a + b).drop_last() =~= a + d);
        assert((a + b).last() == b.last());
        assert(lowered_chars(a + b) =~= lowered_chars(a) + lowered_chars(b));
        let n = lowered_chars(a).len();
        assert forall|i: int| 0 <= i < lowered_chars(b).len() implies #[trigger] origins(
            a + b,
        )[n + i] == a.len() + origins(b)[i] by {
            if i < lowered_chars(d).len() {
                assert(origins(a + d)[n + i] == a.len() + origins(d)[i]);
                assert(origins(a + b)[n + i] == origins(a + d)[n + i]);
                assert(origins(b)[i] == origins(d)[i]);
            }
        }
    }
}

proof fn lemma_used(
    low: Seq<char>,
    words: Seq<bool>,
    org: Seq<int>,
    needle: Seq<char>,
    whole: bool,
    p: int,
    q: int,
)
    requires
        0 <= q < p,
        used_at(low, words, needle, whole, q),
    ensures
        uses_before(low, words, org, needle, whole, p).contains(org[q]),
    decreases p,
{
    let earlier = uses_before(low, words, org, needle, whole, p - 1);
    let now = uses_before(low, words, org, needle, whole, p);
    if q == p - 1 {
        assert(now[earlier.len() as int] == org[q]);
    } else {
        lemma_used(low, words, org, needle, whole, p - 1, q);
        let k = choose|k: int| 0 <= k < earlier.len() && earlier[k] == org[q];
        assert(now[k] == org[q]);
    }
}

/// Does the text end in a word?
pub open spec fn ends_in_word(s: Seq<char>) -> bool {
    lowered_chars(s).len() > 0 && is_word(lowered_chars(s).last())
}

/// Does the text begin with a word?
pub open spec fn begins_in_word(s: Seq<char>) -> bool {
    lowered_chars(s).len() > 0 && is_word(lowered_chars(s)[0])
}

/// A term that stands in a text is used there, in whatever case the two are written: a use
/// is reported at one of its characters. Where whole words are asked for, no word may run
/// on beyond either end of it.
pub proof fn law_a_term_in_a_text_is_used(
    before: Seq<char>,
    here: Seq<char>,
    behind: Seq<char>,
    needle: Seq<char>,
    whole: bool,
) -> (p: int)
    requires
        needle == lowered_chars(here),
        needle.len() > 0,
        whole ==> !ends_in_word(before) && !begins_in_word(behind),
    ensures
        before.len() <= p < before.len() + here.len(),
        uses(before + here + behind, needle, whole).contains(p),
{
    let s = before + here + behind;
    let low = lowered_chars(s);
    let words = words_in(low);
    let q = lowered_chars(before).len() as int;
    lemma_lowered_sum(before, here);
    lemma_lowered_sum(before + here, behind);
    lemma_origins(here);
    lemma_origins(before);
    lemma_origins(before + here);
    lemma_origins(s);
    assert(low =~= lowered_chars(before) + needle + lowered_chars(behind));
    assert(low.subrange(q, q + needle.len()) =~= needle);
    assert(reads_at(low, q, needle));
    if whole {
        let end = q + needle.len();
        if q > 0 {
            assert(low[q - 1] == lowered_chars(before).last());
        }
        if end < low.len() {
            assert(low[end] == lowered_chars(behind)[0]);
        }
    }
    assert(used_at(low, words, needle, whole, q));
    lemma_used(low, words, origins(s), needle, whole, low.len() as int, q);
    lemma_origins_prefix(before + here, behind, q);
    assert(origins(before + here)[q + 0] == before.len() + origins(here)[0]);
    origins(s)[q]
}

proof fn lemma_origins_prefix(a: Seq<char>, b: Seq<char>, i: int)
    requires
        0 <= i < origins(a).len(),
    ensures
        origins(a + b)[i] == origins(a)[i],
    decreases b.len(),
{
    if b.len() == 0 {
        assert(a + b =~= a);
    } else {
        lemma_origins_prefix(a, b.drop_last(), i);
        assert((a + b).drop_last() =~= a + b.drop_last());
        lemma_origins(a);
        lemma_origins(a + b.drop_last());
        lemma_lowered_sum(a, b.drop_last());
    }
}

/// Is the text one of the directives, found as `like` says?
pub open spec fn directive_prose_of(
    ds: Seq<DirectiveView>,
    layer: Seq<char>,
    id: Seq<char>,
    host: Option<Seq<char>>,
    path: Option<Seq<char>>,
    text: Seq<char>,
    like: OccurrenceView,
) -> bool {
    exists|j: int|
        0 <= j < ds.len() && (#[trigger] ds[j]).text == text && like == as_found(
            "directive"@,
            layer,
            id,
            host,
            path,
            "directive "@ + decimal((j + 1) as nat),
        )
}

/// Is the text the description of one of the properties, found as `like` says?
pub open spec fn property_prose_of(
    ps: Seq<SchemaPropertyView>,
    layer: Seq<char>,
    owner: Seq<char>,
    path: Option<Seq<char>>,
    text: Seq<char>,
    like: OccurrenceView,
) -> bool {
    exists|j: int|
        0 <= j < ps.len() && (#[trigger] ps[j]).description == text && like == as_found(
            "description"@,
            layer,
            owner + ":"@ + ps[j].label,
            Some(owner),
            path,
            "description"@,
        )
}

/// Is the text the statement or a directive of one of the claims, found as `like` says?
pub open spec fn claim_prose_of(
    rs: Seq<ResponsibilityView>,
    layer: Seq<char>,
    host: Seq<char>,
    path: Option<Seq<char>>,
    text: Seq<char>,
    like: OccurrenceView,
) -> bool {
    exists|j: int|
        0 <= j < rs.len() && ((#[trigger] rs[j]).statement == text && like == as_found(
            "claim"@,
            layer,
            rs[j].id,
            Some(host),
            path,
            "statement"@,
        ) || directive_prose_of(rs[j].directives, layer, rs[j].id, Some(host), path, text, like))
}

/// Is the text a description, found as `like` says?
pub open spec fn description_prose_of(
    d: Option<Seq<char>>,
    layer: Seq<char>,
    id: Seq<char>,
    path: Option<Seq<char>>,
    text: Seq<char>,
    like: OccurrenceView,
) -> bool {
    d == Some(text) && like == as_found("description"@, layer, id, None, path, "description"@)
}

/// Is the text part of the prose of a model, found as `like` says?
pub open spec fn prose(
    layer: Seq<char>,
    m: ScryModelView,
    text: Seq<char>,
    like: OccurrenceView,
) -> bool {
    ||| exists|i: int|
        0 <= i < m.nodes.len() && node_prose_of(
            #[trigger] m.nodes[i],
            layer,
            place_named(m.nodes, m.nodes[i].id),
            text,
            like,
        )
    ||| exists|i: int|
        0 <= i < m.groups.len() && group_prose_of(
            #[trigger] m.groups[i],
            layer,
            group_place(m.nodes, m.groups[i]),
            text,
            like,
        )
}

/// Is the text part of the prose of a node, found as `like` says?
pub open spec fn node_prose_of(
    n: NodeView,
    layer: Seq<char>,
    path: Option<Seq<char>>,
    text: Seq<char>,
    like: OccurrenceView,
) -> bool {
    ||| description_prose_of(n.description, layer, n.id, path, text, like)
    ||| directive_prose_of(n.directives, layer, n.id, None, path, text, like)
    ||| property_prose_of(n.properties, layer, n.id, path, text, like)
    ||| claim_prose_of(n.responsibilities, layer, n.id, path, text, like)
}

/// Is the text part of the prose of a group, found as `like` says?
pub open spec fn group_prose_of(
    g: GroupView,
    layer: Seq<char>,
    path: Option<Seq<char>>,
    text: Seq<char>,
    like: OccurrenceView,
) -> bool {
    ||| description_prose_of(g.description, layer, g.id, path, text, like)
    ||| claim_prose_of(g.responsibilities, layer, g.id, path, text, like)
}

spec fn within(a: Seq<OccurrenceView>, b: Seq<OccurrenceView>) -> bool {
    forall|x: OccurrenceView| #[trigger] a.contains(x) ==> b.contains(x)
}

proof fn lemma_parts(a: Seq<OccurrenceView>, b: Seq<OccurrenceView>)
    ensures
        within(a, a + b),
        within(b, a + b),
{
    let s = a + b;
    assert forall|x: OccurrenceView| #[trigger] a.contains(x) implies s.contains(x) by {
        let k = choose|k: int| 0 <= k < a.len() && a[k] == x;
        assert(s[k] == x);
    }
    assert forall|x: OccurrenceView| #[trigger] b.contains(x) implies s.contains(x) by {
        let k = choose|k: int| 0 <= k < b.len() && b[k] == x;
        assert(s[a.len() + k] == x);
    }
}

proof fn lemma_directives_within(
    ds: Seq<DirectiveView>,
    needle: Seq<char>,
    whole: bool,
    layer: Seq<char>,
    id: Seq<char>,
    host: Option<Seq<char>>,
    path: Option<Seq<char>>,
    text: Seq<char>,
    like: OccurrenceView,
)
    requires
        directive_prose_of(ds, layer, id, host, path, text, like),
    ensures
        within(
            uses_in(text, needle, whole, like),
            in_directives(ds, needle, whole, layer, id, host, path),
        ),
    decreases ds.len(),
{
    let j = choose|j: int|
        0 <= j < ds.len() && (#[trigger] ds[j]).text == text && like == as_found(
            "directive"@,
            layer,
            id,
            host,
            path,
            "directive "@ + decimal((j + 1) as nat),
        );
    let d = ds.drop_last();
    lemma_parts(
        in_directives(d, needle, whole, layer, id, host, path),
        uses_in(
            ds.last().text,
            needle,
            whole,
            as_found("directive"@, layer, id, host, path, "directive "@ + decimal(ds.len())),
        ),
    );
    if j < d.len() {
        assert(d[j].text == text);
        lemma_directives_within(d, needle, whole, layer, id, host, path, text, like);
    }
}

proof fn lemma_properties_within(
    ps: Seq<SchemaPropertyView>,
    needle: Seq<char>,
    whole: bool,
    layer: Seq<char>,
    owner: Seq<char>,
    path: Option<Seq<char>>,
    text: Seq<char>,
    like: OccurrenceView,
)
    requires
        property_prose_of(ps, layer, owner, path, text, like),
    ensures
        within(
            uses_in(text, needle, whole, like),
            in_properties(ps, needle, whole, layer, owner, path),
        ),
    decreases ps.len(),
{
    let j = choose|j: int|
        0 <= j < ps.len() && (#[trigger] ps[j]).description == text && like == as_found(
            "description"@,
            layer,
            owner + ":"@ + ps[j].label,
            Some(owner),
            path,
            "description"@,
        );
    let d = ps.drop_last();
    lemma_parts(
        in_properties(d, needle, whole, layer, owner, path),
        uses_in(
            ps.last().description,
            needle,
            whole,
            as_found(
                "description"@,
                layer,
                owner + ":"@ + ps.last().label,
                Some(owner),
                path,
                "description"@,
            ),
        ),
    );
    if j < d.len() {
        assert(d[j].description == text);
        lemma_properties_within(d, needle, whole, layer, owner, path, text, like);
    }
}

proof fn lemma_claims_within(
    rs: Seq<ResponsibilityView>,
    needle: Seq<char>,
    whole: bool,
    layer: Seq<char>,
    host: Seq<char>,
    path: Option<Seq<char>>,
    text: Seq<char>,
    like: OccurrenceView,
)
    requires
        claim_prose_of(rs, layer, host, path, text, like),
    ensures
        within(
            uses_in(text, needle, whole, like),
            in_claims(rs, needle, whole, layer, host, path),
        ),
    decreases rs.len(),
{
    let j = choose|j: int|
        0 <= j < rs.len() && ((#[trigger] rs[j]).statement == text && like == as_found(
            "claim"@,
            layer,
            rs[j].id,
            Some(host),
            path,
            "statement"@,
        ) || directive_prose_of(rs[j].directives, layer, rs[j].id, Some(host), path, text, like));
    let d = rs.drop_last();
    let r = rs.last();
    let a = in_claims(d, needle, whole, layer, host, path);
    let b = uses_in(
        r.statement,
        needle,
        whole,
        as_found("claim"@, layer, r.id, Some(host), path, "statement"@),
    );
    let c = in_directives(r.directives, needle, whole, layer, r.id, Some(host), path);
    lemma_parts(a, b);
    lemma_parts(a + b, c);
    if j < d.len() {
        assert(d[j] == rs[j]);
        lemma_claims_within(d, needle, whole, layer, host, path, text, like);
    } else if !(r.statement == text && like == as_found(
        "claim"@,
        layer,
        r.id,
        Some(host),
        path,
        "statement"@,
    )) {
        lemma_directives_within(
            r.directives,
            needle,
            whole,
            layer,
            r.id,
            Some(host),
            path,
            text,
            like,
        );
    }
}

proof fn lemma_node_within(
    n: NodeView,
    needle: Seq<char>,
    whole: bool,
    layer: Seq<char>,
    path: Option<Seq<char>>,
    text: Seq<char>,
    like: OccurrenceView,
)
    requires
        node_prose_of(n, layer, path, text, like),
    ensures
        within(uses_in(text, needle, whole, like), in_node(n, needle, whole, layer, path)),
{
    let a = in_description(n.description, needle, whole, layer, n.id, path);
    let b = in_directives(n.directives, needle, whole, layer, n.id, None, path);
    let c = in_properties(n.properties, needle, whole, layer, n.id, path);
    let d = in_claims(n.responsibilities, needle, whole, layer, n.id, path);
    lemma_parts(a, b);
    lemma_parts(a + b, c);
    lemma_parts(a + b + c, d);
    if directive_prose_of(n.directives, layer, n.id, None, path, text, like) {
        lemma_directives_within(
            n.directives,
            needle,
            whole,
            layer,
            n.id,
            None,
            path,
            text,
            like,
        );
    } else if property_prose_of(n.properties, layer, n.id, path, text, like) {
        lemma_properties_within(n.properties, needle, whole, layer, n.id, path, text, like);
    } else if claim_prose_of(n.responsibilities, layer, n.id, path, text, like) {
        lemma_claims_within(n.responsibilities, needle, whole, layer, n.id, path, text, like);
    }
}

proof fn lemma_group_within(
    g: GroupView,
    needle: Seq<char>,
    whole: bool,
    layer: Seq<char>,
    path: Option<Seq<char>>,
    text: Seq<char>,
    like: OccurrenceView,
)
    requires
        group_prose_of(g, layer, path, text, like),
    ensures
        within(uses_in(text, needle, whole, like), in_group(g, needle, whole, layer, path)),
{
    let a = in_description(g.description, needle, whole, layer, g.id, path);
    let b = in_claims(g.responsibilities, needle, whole, layer, g.id, path);
    lemma_parts(a, b);
    if claim_prose_of(g.responsibilities, layer, g.id, path, text, like) {
        lemma_claims_within(g.responsibilities, needle, whole, layer, g.id, path, text, like);
    }
}

proof fn lemma_nodes_within(
    all: Seq<NodeView>,
    ns: Seq<NodeView>,
    i: int,
    needle: Seq<char>,
    whole: bool,
    layer: Seq<char>,
)
    requires
        0 <= i < ns.len(),
    ensures
        within(
            in_node(ns[i], needle, whole, layer, place_named(all, ns[i].id)),
            in_all_nodes(all, ns, needle, whole, layer),
        ),
    decreases ns.len(),
{
    let d = ns.drop_last();
    lemma_parts(
        in_all_nodes(all, d, needle, whole, layer),
        in_node(ns.last(), needle, whole, layer, place_named(all, ns.last().id)),
    );
    if i < d.len() {
        lemma_nodes_within(all, d, i, needle, whole, layer);
    }
}

proof fn lemma_groups_within(
    all: Seq<NodeView>,
    gs: Seq<GroupView>,
    i: int,
    needle: Seq<char>,
    whole: bool,
    layer: Seq<char>,
)
    requires
        0 <= i < gs.len(),
    ensures
        within(
            in_group(gs[i], needle, whole, layer, group_place(all, gs[i])),
            in_all_groups(all, gs, needle, whole, layer),
        ),
    decreases gs.len(),
{
    let d = gs.drop_last();
    lemma_parts(
        in_all_groups(all, d, needle, whole, layer),
        in_group(gs.last(), needle, whole, layer, group_place(all, gs.last())),
    );
    if i < d.len() {
        lemma_groups_within(all, d, i, needle, whole, layer);
    }
}

proof fn lemma_layer_within(
    layer: Seq<char>,
    m: ScryModelView,
    needle: Seq<char>,
    whole: bool,
    text: Seq<char>,
    like: OccurrenceView,
)
    requires
        prose(layer, m, text, like),
    ensures
        within(uses_in(text, needle, whole, like), in_layer(layer, m, needle, whole)),
{
    reveal(in_layer);
    lemma_parts(
        in_all_nodes(m.nodes, m.nodes, needle, whole, layer),
        in_all_groups(m.nodes, m.groups, needle, whole, layer),
    );
    if exists|i: int|
        0 <= i < m.nodes.len() && node_prose_of(
            #[trigger] m.nodes[i],
            layer,
            place_named(m.nodes, m.nodes[i].id),
            text,
            like,
        ) {
        let i = choose|i: int|
            0 <= i < m.nodes.len() && node_prose_of(
                #[trigger] m.nodes[i],
                layer,
                place_named(m.nodes, m.nodes[i].id),
                text,
                like,
            );
        let path = place_named(m.nodes, m.nodes[i].id);
        lemma_node_within(m.nodes[i], needle, whole, layer, path, text, like);
        lemma_nodes_within(m.nodes, m.nodes, i, needle, whole, layer);
    } else {
        let i = choose|i: int|
            0 <= i < m.groups.len() && group_prose_of(
                #[trigger] m.groups[i],
                layer,
                group_place(m.nodes, m.groups[i]),
                text,
                like,
            );
        let path = group_place(m.nodes, m.groups[i]);
        lemma_group_within(m.groups[i], needle, whole, layer, path, text, like);
        lemma_groups_within(m.nodes, m.groups, i, needle, whole, layer);
    }
}

proof fn lemma_layers_within(
    layers: Seq<(Seq<char>, ScryModelView)>,
    l: int,
    needle: Seq<char>,
    whole: bool,
)
    requires
        0 <= l < layers.len(),
    ensures
        within(
            in_layer(layers[l].0, layers[l].1, needle, whole),
            in_layers(layers, needle, whole),
        ),
    decreases layers.len(),
{
    let d = layers.drop_last();
    let (name, m) = layers.last();
    lemma_parts(in_layers(d, needle, whole), in_layer(name, m, needle, whole));
    if l < d.len() {
        lemma_layers_within(d, l, needle, whole);
    }
}

/// Every use is reported: a term that stands in a text of the prose of a layer, in whatever
/// case the two are written, has an entry for that text with the sentence around one of its
/// characters. Where whole words are asked for, no word may run on beyond its ends.
pub proof fn law_every_use_is_reported(
    layers: Seq<(Seq<char>, ScryModelView)>,
    l: int,
    term: Seq<char>,
    whole: bool,
    before: Seq<char>,
    here: Seq<char>,
    behind: Seq<char>,
    like: OccurrenceView,
) -> (p: int)
    requires
        0 <= l < layers.len(),
        prose(layers[l].0, layers[l].1, before + here + behind, like),
        lowered_chars(here) == lowered_chars(trimmed(term)),
        lowered_chars(here).len() > 0,
        whole ==> !ends_in_word(before) && !begins_in_word(behind),
    ensures
        before.len() <= p < before.len() + here.len(),
        occurrences(layers, term, whole).contains(
            (OccurrenceView {
                sentence: sentence_of(before + here + behind, p, byte_len(lowered_chars(here))),
                ..like
            }),
        ),
{
    let text = before + here + behind;
    let needle = lowered_chars(here);
    let p = law_a_term_in_a_text_is_used(before, here, behind, needle, whole);
    let us = uses(text, needle, whole);
    let k = choose|k: int| 0 <= k < us.len() && us[k] == p;
    let found = uses_in(text, needle, whole, like);
    assert(found.contains(found[k]));
    lemma_layer_within(layers[l].0, layers[l].1, needle, whole, text, like);
    lemma_layers_within(layers, l, needle, whole);
    assert(in_layer(layers[l].0, layers[l].1, needle, whole).contains(found[k]));
    p
}

} // verus!
