//! What a topic finds, and how rules are told.

use crate::bytes::byte_len;
use crate::letters::{is_alnum, lower_text};
use crate::rules::{
    all_but, any_curated, cited, counts, found_from, full_text, has_text, hits_some, index_text,
    is_stopword, law_the_best_come_first, not_empty, pieces_of, pieces_state, pulled_text,
    ranked_in, ranking, rules_on, score_of, scores_of, surface_of, surfaces_of, tags_in,
    terms_among, terms_of, title_words, topical, unhyphened, unhyphened_end, unhyphened_start,
    word_hit, worth, RuleView,
};
use crate::text::{joined, reads_at, trimmed};
use vstd::prelude::*;
use vstd::string::*;

verus! {

// ---- the words of a topic ---------------------------------------------------------------

/// Does the character belong to a word: a letter, a digit or a hyphen?
pub open spec fn of_a_word(c: char) -> bool {
    is_alnum(c) || c == '-'
}

proof fn lemma_same_keep(s: Seq<char>, k: Seq<bool>, l: Seq<bool>)
    requires
        forall|i: int| 0 <= i < s.len() ==> k[i] == #[trigger] l[i],
    ensures
        pieces_state(s, k) == pieces_state(s, l),
    decreases s.len(),
{
    if s.len() > 0 {
        lemma_same_keep(s.drop_last(), k, l);
        assert(k[s.len() - 1] == l[s.len() - 1]);
    }
}

/// The pieces of a text that is followed by a separator and another text.
proof fn lemma_pieces_parted(
    a: Seq<char>,
    x: char,
    b: Seq<char>,
    ka: Seq<bool>,
    kb: Seq<bool>,
    k: Seq<bool>,
)
    requires
        forall|i: int| 0 <= i < a.len() ==> ka[i] == #[trigger] k[i],
        !k[a.len() as int],
        forall|i: int| 0 <= i < b.len() ==> #[trigger] kb[i] == k[a.len() + 1 + i],
    ensures
        pieces_of(a + seq![x] + b, k) == pieces_of(a, ka) + pieces_of(b, kb),
        pieces_state(a + seq![x] + b, k).1 == pieces_state(b, kb).1,
        pieces_state(a + seq![x] + b, k).0 == pieces_of(a, ka) + pieces_state(b, kb).0,
    decreases b.len(),
{
    let s = a + seq![x] + b;
    if b.len() == 0 {
        assert(s.drop_last() =~= a);
        lemma_same_keep(a, ka, k);
        assert(pieces_state(s, k).0 =~= pieces_of(a, ka) + pieces_state(b, kb).0);
    } else {
        let d = b.drop_last();
        assert(s.drop_last() =~= a + seq![x] + d);
        lemma_pieces_parted(a, x, d, ka, kb, k);
        assert(s.last() == b.last());
        assert(kb[b.len() - 1] == k[s.len() - 1]);
        assert(pieces_state(s, k).0 =~= pieces_of(a, ka) + pieces_state(b, kb).0);
    }
    assert(pieces_of(s, k) =~= pieces_of(a, ka) + pieces_of(b, kb));
}

proof fn lemma_one_piece(s: Seq<char>, k: Seq<bool>)
    requires
        forall|i: int| 0 <= i < s.len() ==> #[trigger] k[i],
    ensures
        pieces_state(s, k) == (Seq::<Seq<char>>::empty(), s),
    decreases s.len(),
{
    if s.len() > 0 {
        lemma_one_piece(s.drop_last(), k);
        assert(k[s.len() - 1]);
        assert(s.drop_last().push(s.last()) =~= s);
    }
}

proof fn lemma_terms_added(a: Seq<Seq<char>>, b: Seq<Seq<char>>)
    ensures
        terms_among(a + b) == terms_among(a) + terms_among(b),
    decreases b.len(),
{
    if b.len() == 0 {
        assert(a + b =~= a);
        assert(terms_among(a) + terms_among(b) =~= terms_among(a));
    } else {
        assert((a + b).drop_last() =~= a + b.drop_last());
        lemma_terms_added(a, b.drop_last());
        assert(terms_among(a + b) =~= terms_among(a) + terms_among(b));
    }
}

/// The terms of a topic are those of what stands before a character that belongs to no word, and
/// those of what stands behind it.
pub proof fn law_a_topic_is_read_word_by_word(a: Seq<char>, x: char, b: Seq<char>)
    requires
        !of_a_word(x),
    ensures
        terms_of(a + seq![x] + b) == terms_of(a) + terms_of(b),
{
    let s = a + seq![x] + b;
    assert(topical(s)[a.len() as int] == of_a_word(s[a.len() as int]));
    assert(s[a.len() as int] == x);
    lemma_pieces_parted(a, x, b, topical(a), topical(b), topical(s));
    lemma_terms_added(pieces_of(a, topical(a)), pieces_of(b, topical(b)));
}

/// A word is a term, in lower case and without the hyphens around it, where that is of three
/// bytes or more and no stopword.
pub proof fn law_which_words_are_terms(w: Seq<char>)
    requires
        forall|i: int| 0 <= i < w.len() ==> of_a_word(#[trigger] w[i]),
    ensures
        ({
            let t = lower_text(unhyphened(w));
            terms_of(w) == if byte_len(t) >= 3 && !is_stopword(t) {
                seq![t]
            } else {
                Seq::empty()
            }
        }),
{
    let k = topical(w);
    assert forall|i: int| 0 <= i < w.len() implies #[trigger] k[i] by {
        assert(of_a_word(w[i]));
    }
    lemma_one_piece(w, k);
    let ps = pieces_of(w, k);
    assert(ps =~= seq![w]);
    assert(ps.drop_last() =~= Seq::<Seq<char>>::empty());
    assert(terms_among(ps.drop_last()) == Seq::<Seq<char>>::empty());
}

/// A word without the hyphens around it: what is cut off is hyphens, and none is left at either
/// end.
pub proof fn law_hyphens_are_cut_off(w: Seq<char>) -> (r: (int, int))
    ensures
        0 <= r.0 <= r.1 <= w.len(),
        unhyphened(w) == w.subrange(r.0, r.1),
        forall|i: int| 0 <= i < r.0 || r.1 <= i < w.len() ==> #[trigger] w[i] == '-',
        r.0 < r.1 ==> w[r.0] != '-' && w[r.1 - 1] != '-',
{
    let a = lemma_start_cut(w);
    let s = unhyphened_start(w);
    let b = lemma_end_cut(s);
    assert(unhyphened(w) =~= w.subrange(a, a + b));
    assert forall|i: int| a + b <= i < w.len() implies #[trigger] w[i] == '-' by {
        assert(s[i - a] == w[i]);
    }
    if b > 0 {
        assert(s[b - 1] == w[a + b - 1]);
        assert(s[0] == w[a]);
    }
    (a, a + b)
}

proof fn lemma_start_cut(s: Seq<char>) -> (a: int)
    ensures
        0 <= a <= s.len(),
        unhyphened_start(s) == s.skip(a),
        forall|i: int| 0 <= i < a ==> #[trigger] s[i] == '-',
        a < s.len() ==> s[a] != '-',
    decreases s.len(),
{
    if s.len() > 0 && s[0] == '-' {
        let b = lemma_start_cut(s.drop_first());
        assert(s.drop_first().skip(b) =~= s.skip(b + 1));
        assert forall|i: int| 0 <= i < b + 1 implies #[trigger] s[i] == '-' by {
            if i > 0 {
                assert(s.drop_first()[i - 1] == s[i]);
            }
        }
        b + 1
    } else {
        assert(s.skip(0) =~= s);
        0
    }
}

proof fn lemma_end_cut(s: Seq<char>) -> (b: int)
    ensures
        0 <= b <= s.len(),
        unhyphened_end(s) == s.take(b),
        forall|i: int| b <= i < s.len() ==> #[trigger] s[i] == '-',
        b > 0 ==> s[b - 1] != '-',
    decreases s.len(),
{
    if s.len() > 0 && s.last() == '-' {
        let d = s.drop_last();
        let b = lemma_end_cut(d);
        assert(d.take(b) =~= s.take(b));
        assert forall|i: int| b <= i < s.len() implies #[trigger] s[i] == '-' by {
            if i < d.len() {
                assert(d[i] == s[i]);
            }
        }
        if b > 0 {
            assert(d[b - 1] == s[b - 1]);
        }
        b
    } else {
        assert(s.take(s.len() as int) =~= s);
        s.len() as int
    }
}

// ---- hits -------------------------------------------------------------------------------

/// Are the two words alike: the same, or one of four bytes or more begins the other?
pub open spec fn alike(t: Seq<char>, w: Seq<char>) -> bool {
    ||| t == w
    ||| byte_len(t) >= 4 && t.len() <= w.len() && w.take(t.len() as int) == t
    ||| byte_len(w) >= 4 && w.len() <= t.len() && t.take(w.len() as int) == w
}

proof fn lemma_alike(t: Seq<char>, w: Seq<char>)
    ensures
        word_hit(t, w) == alike(t, w),
{
    if t.is_prefix_of(w) {
        assert(w.take(t.len() as int) =~= t);
    }
    if w.is_prefix_of(t) {
        assert(t.take(w.len() as int) =~= w);
    }
    if t.len() <= w.len() && w.take(t.len() as int) == t {
        assert(t.is_prefix_of(w));
    }
    if w.len() <= t.len() && t.take(w.len() as int) == w {
        assert(w.is_prefix_of(t));
    }
}

/// Does the text hold the other somewhere?
pub open spec fn holds_text(s: Seq<char>, n: Seq<char>) -> bool {
    exists|p: int| 0 <= p && p + n.len() <= s.len() && #[trigger] s.subrange(p, p + n.len()) == n
}

proof fn lemma_found(s: Seq<char>, n: Seq<char>, p: int)
    requires
        0 <= p,
        n.len() > 0,
    ensures
        found_from(s, n, p) is Some <==> exists|q: int| p <= q && #[trigger] reads_at(s, q, n),
        found_from(s, n, p) is Some ==> p <= found_from(s, n, p)->0 && reads_at(
            s,
            found_from(s, n, p)->0,
            n,
        ) && forall|q: int| p <= q < found_from(s, n, p)->0 ==> !#[trigger] reads_at(s, q, n),
    decreases s.len() - p,
{
    if p < s.len() && !reads_at(s, p, n) {
        lemma_found(s, n, p + 1);
        if exists|q: int| p <= q && #[trigger] reads_at(s, q, n) {
            let q = choose|q: int| p <= q && #[trigger] reads_at(s, q, n);
            assert(q != p);
        }
    }
}

proof fn lemma_held(s: Seq<char>, n: Seq<char>)
    requires
        n.len() > 0,
    ensures
        has_text(s, n) == holds_text(s, n),
{
    lemma_found(s, n, 0);
    if holds_text(s, n) {
        let p = choose|p: int|
            0 <= p && p + n.len() <= s.len() && #[trigger] s.subrange(p, p + n.len()) == n;
        assert(reads_at(s, p, n));
    }
    if has_text(s, n) {
        let q = found_from(s, n, 0)->0;
        assert(s.subrange(q, q + n.len()) == n);
    }
}

/// A word of a rule's surface: of its title, in lower case; one of its tags; or of its slug,
/// between hyphens.
pub open spec fn is_word_of(r: RuleView, w: Seq<char>) -> bool {
    ||| w.len() > 0 && pieces_of(lower_text(r.title), topical(lower_text(r.title))).contains(w)
    ||| r.tags.contains(w)
    ||| pieces_of(r.slug, all_but(r.slug, '-')).contains(w)
}

/// Does a term hit one of the words of a rule?
pub open spec fn hits_rule(r: RuleView, t: Seq<char>) -> bool {
    exists|w: Seq<char>| is_word_of(r, w) && #[trigger] alike(t, w)
}

proof fn lemma_not_empty(s: Seq<Seq<char>>, w: Seq<char>)
    ensures
        not_empty(s).contains(w) <==> s.contains(w) && w.len() > 0,
    decreases s.len(),
{
    if s.len() > 0 {
        let d = s.drop_last();
        lemma_not_empty(d, w);
        lemma_among(d, s.last(), w);
        assert(s =~= d.push(s.last()));
        lemma_among(not_empty(d), s.last(), w);
    }
}

proof fn lemma_among(s: Seq<Seq<char>>, x: Seq<char>, w: Seq<char>)
    ensures
        s.push(x).contains(w) <==> s.contains(w) || x == w,
{
    let t = s.push(x);
    assert(t[s.len() as int] == x);
    if s.contains(w) {
        let k = choose|k: int| 0 <= k < s.len() && s[k] == w;
        assert(t[k] == w);
    }
    if t.contains(w) && x != w {
        let k = choose|k: int| 0 <= k < t.len() && t[k] == w;
        assert(s[k] == w);
    }
}

proof fn lemma_in_sum(a: Seq<Seq<char>>, b: Seq<Seq<char>>, w: Seq<char>)
    ensures
        (a + b).contains(w) <==> a.contains(w) || b.contains(w),
{
    let s = a + b;
    if a.contains(w) {
        let k = choose|k: int| 0 <= k < a.len() && a[k] == w;
        assert(s[k] == w);
    }
    if b.contains(w) {
        let k = choose|k: int| 0 <= k < b.len() && b[k] == w;
        assert(s[a.len() + k] == w);
    }
    if s.contains(w) {
        let k = choose|k: int| 0 <= k < s.len() && s[k] == w;
        if k < a.len() {
            assert(a[k] == w);
        } else {
            assert(b[k - a.len()] == w);
        }
    }
}

proof fn lemma_hits(r: RuleView, t: Seq<char>)
    ensures
        hits_some(t, surface_of(r).words) == hits_rule(r, t),
{
    let low = lower_text(r.title);
    let ws = surface_of(r).words;
    let tw = title_words(r.title);
    let sw = pieces_of(r.slug, all_but(r.slug, '-'));
    assert forall|w: Seq<char>| #[trigger] ws.contains(w) <==> is_word_of(r, w) by {
        lemma_in_sum(tw + r.tags, sw, w);
        lemma_in_sum(tw, r.tags, w);
        lemma_not_empty(pieces_of(low, topical(low)), w);
    }
    if hits_some(t, ws) {
        let i = choose|i: int| 0 <= i < ws.len() && word_hit(t, #[trigger] ws[i]);
        lemma_alike(t, ws[i]);
        assert(ws.contains(ws[i]));
        assert(alike(t, ws[i]));
    }
    if hits_rule(r, t) {
        let w = choose|w: Seq<char>| is_word_of(r, w) && #[trigger] alike(t, w);
        assert(ws.contains(w));
        let i = choose|i: int| 0 <= i < ws.len() && ws[i] == w;
        lemma_alike(t, ws[i]);
    }
}

/// A rule scores once for each term that hits one of its words, and beside that once for each
/// other term that its body holds.
pub proof fn law_a_score_counts_the_hits(r: RuleView, terms: Seq<Seq<char>>)
    requires
        forall|i: int| 0 <= i < terms.len() ==> (#[trigger] terms[i]).len() > 0,
    ensures
        score_of(terms, surface_of(r)).0 == terms.filter(|t: Seq<char>| hits_rule(r, t)).len(),
        score_of(terms, surface_of(r)).1 == terms.filter(
            |t: Seq<char>| !hits_rule(r, t) && holds_text(lower_text(r.body), t),
        ).len(),
    decreases terms.len(),
{
    reveal(Seq::filter);
    if terms.len() > 0 {
        let d = terms.drop_last();
        assert forall|i: int| 0 <= i < d.len() implies (#[trigger] d[i]).len() > 0 by {
            assert(terms[i].len() > 0);
        }
        law_a_score_counts_the_hits(r, d);
        let t = terms.last();
        assert(terms[terms.len() - 1].len() > 0);
        lemma_hits(r, t);
        lemma_held(lower_text(r.body), t);
    }
}

proof fn lemma_terms_long(ps: Seq<Seq<char>>)
    ensures
        forall|i: int| 0 <= i < terms_among(ps).len() ==> (#[trigger] terms_among(ps)[i]).len() > 0,
    decreases ps.len(),
{
    if ps.len() > 0 {
        lemma_terms_long(ps.drop_last());
        let before = terms_among(ps.drop_last());
        let all = terms_among(ps);
        let t = lower_text(unhyphened(ps.last()));
        assert(all == before || (all == before.push(t) && byte_len(t) >= 3));
        assert forall|i: int| 0 <= i < all.len() implies (#[trigger] all[i]).len() > 0 by {
            if i < before.len() {
                assert(all[i] == before[i]);
            } else if t.len() == 0 {
                assert(byte_len(t) == 0);
            }
        }
    }
}

/// Does a term of the topic hit a word of the rule?
pub open spec fn names_rule(r: RuleView, topic: Seq<char>) -> bool {
    exists|i: int| 0 <= i < terms_of(topic).len() && hits_rule(r, #[trigger] terms_of(topic)[i])
}

/// Does the body of the rule hold a term of the topic?
pub open spec fn speaks_of(r: RuleView, topic: Seq<char>) -> bool {
    exists|i: int|
        0 <= i < terms_of(topic).len() && holds_text(
            lower_text(r.body),
            #[trigger] terms_of(topic)[i],
        )
}

proof fn lemma_some_kept(s: Seq<Seq<char>>, f: spec_fn(Seq<char>) -> bool)
    ensures
        s.filter(f).len() > 0 <==> exists|i: int| 0 <= i < s.len() && f(#[trigger] s[i]),
    decreases s.len(),
{
    reveal(Seq::filter);
    if s.len() > 0 {
        let d = s.drop_last();
        lemma_some_kept(d, f);
        if exists|i: int| 0 <= i < d.len() && f(#[trigger] d[i]) {
            let i = choose|i: int| 0 <= i < d.len() && f(#[trigger] d[i]);
            assert(f(s[i]));
        }
        if exists|i: int| 0 <= i < s.len() && f(#[trigger] s[i]) {
            let i = choose|i: int| 0 <= i < s.len() && f(#[trigger] s[i]);
            if i < d.len() {
                assert(f(d[i]));
            }
        }
        if f(s.last()) {
            assert(f(s[s.len() - 1]));
        }
    }
}

/// A topic finds the rules that one of its terms names by a word of theirs; and where it names
/// none, those whose bodies speak of it.
pub proof fn law_what_a_topic_finds(rs: Seq<RuleView>, topic: Seq<char>, r: RuleView)
    ensures
        rules_on(rs, topic).contains(r) <==> rs.contains(r) && (names_rule(r, topic) || ((forall|
            i: int,
        |
            0 <= i < rs.len() ==> !names_rule(#[trigger] rs[i], topic)) && speaks_of(r, topic))),
{
    let terms = terms_of(topic);
    let scores = scores_of(terms, surfaces_of(rs));
    let n = rs.len() as int;
    let order = ranking(scores, n);
    let found = rules_on(rs, topic);
    lemma_terms_long(pieces_of(topic, topical(topic)));
    law_the_best_come_first(scores, n);
    assert forall|i: int| 0 <= i < n implies ((#[trigger] scores[i]).0 > 0) == names_rule(
        rs[i],
        topic,
    ) by {
        lemma_scored(rs[i], topic);
    }
    assert forall|i: int| 0 <= i < n && scores[i].0 == 0 implies ((#[trigger] scores[i]).1 > 0)
        == speaks_of(rs[i], topic) by {
        lemma_scored(rs[i], topic);
    }
    assert(any_curated(scores) <==> exists|i: int|
        0 <= i < rs.len() && names_rule(#[trigger] rs[i], topic)) by {
        if any_curated(scores) {
            let i = choose|i: int| 0 <= i < scores.len() && (#[trigger] scores[i]).0 > 0;
            assert(names_rule(rs[i], topic));
        }
        if exists|i: int| 0 <= i < rs.len() && names_rule(#[trigger] rs[i], topic) {
            let i = choose|i: int| 0 <= i < rs.len() && names_rule(#[trigger] rs[i], topic);
            assert(scores[i].0 > 0);
        }
    }
    if found.contains(r) {
        let k = choose|k: int| 0 <= k < found.len() && found[k] == r;
        assert(order.contains(order[k]));
        let i = order[k];
        assert(counts(scores, i));
        assert(rs[i] == r);
    }
    if rs.contains(r) && (names_rule(r, topic) || ((forall|i: int|
        0 <= i < rs.len() ==> !names_rule(#[trigger] rs[i], topic)) && speaks_of(r, topic))) {
        let i = choose|i: int| 0 <= i < rs.len() && rs[i] == r;
        assert((scores[i].0 > 0) == names_rule(rs[i], topic));
        assert(counts(scores, i));
        assert(order.contains(i));
        let k = choose|k: int| 0 <= k < order.len() && order[k] == i;
        assert(terms.len() > 0);
        assert(found[k] == r);
    }
}

proof fn lemma_scored(r: RuleView, topic: Seq<char>)
    ensures
        ({
            let s = score_of(terms_of(topic), surface_of(r));
            &&& (s.0 > 0) == names_rule(r, topic)
            &&& s.0 == 0 ==> (s.1 > 0) == speaks_of(r, topic)
        }),
{
    let terms = terms_of(topic);
    lemma_terms_long(pieces_of(topic, topical(topic)));
    law_a_score_counts_the_hits(r, terms);
    let f = |t: Seq<char>| hits_rule(r, t);
    let g = |t: Seq<char>| !hits_rule(r, t) && holds_text(lower_text(r.body), t);
    lemma_some_kept(terms, f);
    lemma_some_kept(terms, g);
    if names_rule(r, topic) {
        let i = choose|i: int| 0 <= i < terms.len() && hits_rule(r, #[trigger] terms[i]);
        assert(f(terms[i]));
    }
    if terms.filter(f).len() == 0 {
        assert forall|i: int| 0 <= i < terms.len() implies !hits_rule(r, #[trigger] terms[i]) by {
            if hits_rule(r, terms[i]) {
                assert(f(terms[i]));
            }
        }
        if speaks_of(r, topic) {
            let i = choose|i: int|
                0 <= i < terms.len() && holds_text(lower_text(r.body), #[trigger] terms[i]);
            assert(g(terms[i]));
        }
    }
}

/// What is ranked: the more terms hit the words of a rule the better, twice as good as one that
/// its body holds; and of two that are as good the earlier comes first.
pub proof fn law_how_rules_are_ranked(scores: Seq<(nat, nat)>, n: int)
    requires
        0 <= n <= scores.len(),
    ensures
        forall|k: int| 0 <= k < ranking(scores, n).len() ==> 0 <= #[trigger] ranking(scores, n)[k] < n,
        forall|a: int, b: int|
            0 <= a < b < ranking(scores, n).len() ==> {
                let s = scores[#[trigger] ranking(scores, n)[a]];
                let t = scores[#[trigger] ranking(scores, n)[b]];
                ||| 2 * s.0 + s.1 > 2 * t.0 + t.1
                ||| 2 * s.0 + s.1 == 2 * t.0 + t.1 && ranking(scores, n)[a] < ranking(scores, n)[b]
            },
    decreases n,
{
    if n > 0 {
        law_how_rules_are_ranked(scores, n - 1);
        if counts(scores, n - 1) {
            lemma_ranked(scores, ranking(scores, n - 1), n - 1);
        }
    }
}

/// Is the ranking in order: the better first, and of equals the earlier?
spec fn in_order(scores: Seq<(nat, nat)>, r: Seq<int>) -> bool {
    forall|a: int, b: int|
        0 <= a < b < r.len() ==> {
            let s = scores[#[trigger] r[a]];
            let t = scores[#[trigger] r[b]];
            ||| 2 * s.0 + s.1 > 2 * t.0 + t.1
            ||| 2 * s.0 + s.1 == 2 * t.0 + t.1 && r[a] < r[b]
        }
}

proof fn lemma_ranked(scores: Seq<(nat, nat)>, r: Seq<int>, i: int)
    requires
        in_order(scores, r),
        forall|k: int| 0 <= k < r.len() ==> 0 <= #[trigger] r[k] < i,
        0 <= i,
    ensures
        in_order(scores, ranked_in(scores, r, i)),
        forall|k: int|
            0 <= k < ranked_in(scores, r, i).len() ==> {
                let x = #[trigger] ranked_in(scores, r, i)[k];
                x == i || (0 <= x < i && r.contains(x))
            },
    decreases r.len(),
{
    let q = ranked_in(scores, r, i);
    if r.len() > 0 && worth(scores[r.last()]) < worth(scores[i]) {
        let d = r.drop_last();
        assert(in_order(scores, d)) by {
            assert forall|a: int, b: int| 0 <= a < b < d.len() implies {
                let s = scores[#[trigger] d[a]];
                let t = scores[#[trigger] d[b]];
                ||| 2 * s.0 + s.1 > 2 * t.0 + t.1
                ||| 2 * s.0 + s.1 == 2 * t.0 + t.1 && d[a] < d[b]
            } by {
                assert(d[a] == r[a] && d[b] == r[b]);
            }
        }
        lemma_ranked(scores, d, i);
        let p = ranked_in(scores, d, i);
        assert(q == p.push(r.last()));
        let last = r.len() - 1;
        assert forall|k: int| 0 <= k < q.len() implies {
            let x = #[trigger] q[k];
            x == i || (0 <= x < i && r.contains(x))
        } by {
            if k < p.len() {
                assert(q[k] == p[k]);
                if p[k] != i {
                    let m = choose|m: int| 0 <= m < d.len() && d[m] == p[k];
                    assert(r[m] == p[k]);
                }
            } else {
                assert(r[last] == r.last());
            }
        }
        assert forall|a: int, b: int| 0 <= a < b < q.len() implies {
            let s = scores[#[trigger] q[a]];
            let t = scores[#[trigger] q[b]];
            ||| 2 * s.0 + s.1 > 2 * t.0 + t.1
            ||| 2 * s.0 + s.1 == 2 * t.0 + t.1 && q[a] < q[b]
        } by {
            assert(q[a] == p[a]);
            if b < p.len() {
                assert(q[b] == p[b]);
            } else if p[a] != i {
                let m = choose|m: int| 0 <= m < d.len() && d[m] == p[a];
                assert(r[m] == p[a]);
                assert(r[last] == q[b]);
            }
        }
    } else {
        assert(q == r.push(i));
        assert forall|k: int| 0 <= k < q.len() implies {
            let x = #[trigger] q[k];
            x == i || (0 <= x < i && r.contains(x))
        } by {
            if k < r.len() {
                assert(q[k] == r[k]);
            }
        }
        assert forall|a: int, b: int| 0 <= a < b < q.len() implies {
            let s = scores[#[trigger] q[a]];
            let t = scores[#[trigger] q[b]];
            ||| 2 * s.0 + s.1 > 2 * t.0 + t.1
            ||| 2 * s.0 + s.1 == 2 * t.0 + t.1 && q[a] < q[b]
        } by {
            assert(q[a] == r[a]);
            if b < r.len() {
                assert(q[b] == r[b]);
            } else {
                let last = r.len() - 1;
                assert(r[last] == r.last());
                if a < last {
                    assert(r[a] < i);
                }
            }
        }
    }
}

// ---- how rules are told -----------------------------------------------------------------

/// Rules are told one after another, each by its slug and title: in full with its body, in the
/// index with its tags.
pub proof fn law_rules_are_told_in_turn(rs: Seq<RuleView>, r: RuleView)
    ensures
        full_text(Seq::empty()) == Seq::<char>::empty(),
        index_text(Seq::empty()) == Seq::<char>::empty(),
        pulled_text(Seq::empty()) == Seq::<char>::empty(),
        full_text(rs.push(r)) == full_text(rs) + (r.slug + " — "@ + r.title + ". "@ + r.body
            + "\n"@),
        index_text(rs.push(r)) == index_text(rs) + (r.slug + " — "@ + r.title + " ["@ + joined(
            r.tags,
            ", "@,
        ) + "]\n"@),
        pulled_text(rs.push(r)) == pulled_text(rs) + (r.slug + " — "@ + r.title + "\n"@ + r.body
            + "\n\n"@),
{
    assert(rs.push(r).drop_last() =~= rs);
}

/// What stands between the first `[[` and the next `]]` is cited, and then what is cited behind
/// it. A text without `[[` cites nothing.
pub proof fn law_what_a_text_cites(a: Seq<char>, x: Seq<char>, b: Seq<char>)
    requires
        !holds_text(a.push('['), "[["@),
        !holds_text(x.push(']'), "]]"@),
    ensures
        cited(a) == Seq::<Seq<char>>::empty(),
        cited(a + "[["@ + x + "]]"@ + b) == seq![x] + cited(b),
{
    reveal_strlit("[[");
    reveal_strlit("]]");
    assert("[["@ =~= seq!['[', '[']);
    assert("]]"@ =~= seq![']', ']']);
    lemma_held(a, "[["@);
    if holds_text(a, "[["@) {
        let p = choose|p: int| 0 <= p && p + 2 <= a.len() && #[trigger] a.subrange(p, p + 2) == "[["@;
        assert(a.push('[').subrange(p, p + 2) =~= a.subrange(p, p + 2));
    }
    let s = a + "[["@ + x + "]]"@ + b;
    let rest = x + "]]"@ + b;
    lemma_first_found(a, "[["@, '[', rest);
    assert(s =~= a + "[["@ + rest);
    assert(s.skip((a.len() + 2) as int) =~= rest);
    lemma_first_found(x, "]]"@, ']', b);
    assert(rest.take(x.len() as int) =~= x);
    assert(rest.skip((x.len() + 2) as int) =~= b);
}

proof fn lemma_first_found(a: Seq<char>, n: Seq<char>, c: char, b: Seq<char>)
    requires
        n.len() == 2,
        n[0] == c,
        n[1] == c,
        !holds_text(a.push(c), n),
    ensures
        found_from(a + n + b, n, 0) == Some(a.len() as int),
{
    let s = a + n + b;
    let e = a.push(c);
    let k = a.len() as int;
    lemma_found(s, n, 0);
    assert(s.subrange(k, k + 2) =~= n);
    assert(reads_at(s, k, n));
    let f = found_from(s, n, 0)->0;
    assert(f <= k);
    if f < k {
        assert(reads_at(s, f, n));
        assert(e.subrange(f, f + 2) =~= s.subrange(f, f + 2));
        assert(e.subrange(f, f + n.len()) == n);
        assert(f + n.len() <= e.len());
    }
}

/// Tags are read between commas, without the white space around them.
pub proof fn law_tags_are_read_between_commas(a: Seq<char>, b: Seq<char>)
    ensures
        tags_in(a + seq![','] + b) == tags_in(a) + tags_in(b),
        !a.contains(',') ==> tags_in(a) == seq![trimmed(a)],
{
    let s = a + seq![','] + b;
    assert(s[a.len() as int] == ',');
    lemma_pieces_parted(a, ',', b, all_but(a, ','), all_but(b, ','), all_but(s, ','));
    assert(tags_in(s) =~= tags_in(a) + tags_in(b));
    if !a.contains(',') {
        let k = all_but(a, ',');
        assert forall|i: int| 0 <= i < a.len() implies #[trigger] k[i] by {
            assert(a.contains(a[i]));
        }
        lemma_one_piece(a, k);
        assert(tags_in(a) =~= seq![trimmed(a)]);
    }
}

/// The words of a slug are what stands between its hyphens.
pub proof fn law_slugs_are_read_between_hyphens(a: Seq<char>, b: Seq<char>)
    ensures
        pieces_of(a + seq!['-'] + b, all_but(a + seq!['-'] + b, '-')) == pieces_of(
            a,
            all_but(a, '-'),
        ) + pieces_of(b, all_but(b, '-')),
        !a.contains('-') ==> pieces_of(a, all_but(a, '-')) == seq![a],
{
    let s = a + seq!['-'] + b;
    assert(s[a.len() as int] == '-');
    lemma_pieces_parted(a, '-', b, all_but(a, '-'), all_but(b, '-'), all_but(s, '-'));
    if !a.contains('-') {
        let k = all_but(a, '-');
        assert forall|i: int| 0 <= i < a.len() implies #[trigger] k[i] by {
            assert(a.contains(a[i]));
        }
        lemma_one_piece(a, k);
        assert(pieces_of(a, k) =~= seq![a]);
    }
}

} // verus!
