//! Text as sequences of characters: ordering, searching, trimming, joining.
//!
//! A `String` or `&str` is modelled by its sequence of characters, `s@`.

use vstd::prelude::*;
use vstd::string::*;

verus! {

// ---- building ---------------------------------------------------------------

/// `String::push`: the character goes to the end.
pub assume_specification[ String::push ](s: &mut String, c: char)
    ensures
        final(s)@ == old(s)@.push(c),
;

/// The characters of `s`, in order.
pub fn chars_of(s: &str) -> (r: Vec<char>)
    ensures
        r@ == s@,
{
    let mut out: Vec<char> = Vec::new();
    for c in it: s.chars()
        invariant
            out@ == it.seq().take(it.index()),
            it.seq() == s@,
    {
        proof {
            assert(it.seq().take(it.index() + 1) =~= it.seq().take(it.index()).push(c));
        }
        out.push(c);
    }
    assert(out@ =~= s@);
    out
}

/// The text made of `v[from..to]`.
pub fn text_of(v: &Vec<char>, from: usize, to: usize) -> (r: String)
    requires
        from <= to <= v@.len(),
    ensures
        r@ == v@.subrange(from as int, to as int),
{
    let mut out = String::new();
    let mut i: usize = from;
    while i < to
        invariant
            from <= i <= to <= v@.len(),
            out@ == v@.subrange(from as int, i as int),
        decreases to - i,
    {
        out.push(v[i]);
        proof {
            assert(v@.subrange(from as int, i + 1) =~= v@.subrange(from as int, i as int).push(
                v@[i as int],
            ));
        }
        i += 1;
    }
    out
}

/// `a` followed by `b`.
pub fn cat2(a: &str, b: &str) -> (r: String)
    ensures
        r@ == a@ + b@,
{
    let mut out = a.to_owned();
    out.append(b);
    out
}

/// `a`, `b` and `c` in a row.
pub fn cat3(a: &str, b: &str, c: &str) -> (r: String)
    ensures
        r@ == a@ + b@ + c@,
{
    let mut out = a.to_owned();
    out.append(b);
    out.append(c);
    out
}

/// The texts of `parts` with `sep` between neighbours.
pub open spec fn joined(parts: Seq<Seq<char>>, sep: Seq<char>) -> Seq<char>
    decreases parts.len(),
{
    if parts.len() == 0 {
        Seq::empty()
    } else if parts.len() == 1 {
        parts[0]
    } else {
        joined(parts.drop_last(), sep) + sep + parts.last()
    }
}

/// `parts` joined by `sep`.
pub fn join(parts: &Vec<String>, sep: &str) -> (r: String)
    ensures
        r@ == joined(parts.deep_view(), sep@),
{
    let mut out = String::new();
    let mut i: usize = 0;
    while i < parts.len()
        invariant
            i <= parts@.len(),
            out@ == joined(parts.deep_view().take(i as int), sep@),
        decreases parts@.len() - i,
    {
        proof {
            let t = parts.deep_view().take(i + 1);
            assert(t.drop_last() =~= parts.deep_view().take(i as int));
            assert(t.last() == parts.deep_view()[i as int]);
        }
        if i > 0 {
            out.append(sep);
        }
        out.append(parts[i].as_str());
        i += 1;
        proof {
            if i == 1 {
                assert(out@ =~= parts.deep_view()[0]);
            }
        }
    }
    proof {
        assert(parts.deep_view().take(parts@.len() as int) =~= parts.deep_view());
    }
    out
}

// ---- prefixes -----------------------------------------------------------------

/// Does `v` read `p` at position `at`?
pub open spec fn reads_at(v: Seq<char>, at: int, p: Seq<char>) -> bool {
    0 <= at && at + p.len() <= v.len() && v.subrange(at, at + p.len()) == p
}

/// Does `v` read `p` at position `at`?
pub fn reads(v: &Vec<char>, at: usize, p: &Vec<char>) -> (r: bool)
    requires
        at <= v@.len(),
    ensures
        r == reads_at(v@, at as int, p@),
{
    let n: usize = v.len();
    if n - at < p.len() {
        return false;
    }
    let mut i: usize = 0;
    while i < p.len()
        invariant
            i <= p@.len(),
            n == v@.len(),
            at + p@.len() <= v@.len(),
            forall|j: int| 0 <= j < i ==> #[trigger] p@[j] == v@[at + j],
        decreases p@.len() - i,
    {
        if v[at + i] != p[i] {
            assert(v@.subrange(at as int, at + p@.len())[i as int] != p@[i as int]);
            return false;
        }
        i += 1;
    }
    assert(v@.subrange(at as int, at + p@.len()) =~= p@);
    true
}

/// What is left of `s` after the prefix `p`, if it starts with it.
pub fn strip_prefix<'a>(s: &'a str, p: &str) -> (r: Option<&'a str>)
    ensures
        match r {
            Some(rest) => s@ == p@ + rest@,
            None => !p@.is_prefix_of(s@),
        },
{
    let v = chars_of(s);
    let q = chars_of(p);
    if reads(&v, 0, &q) {
        let rest = s.substring_char(q.len(), v.len());
        assert(s@ =~= p@ + rest@);
        Some(rest)
    } else {
        None
    }
}

// ---- splitting ----------------------------------------------------------------

/// Where `c` first stands in `s`.
#[verifier::opaque]
pub open spec fn first_place(s: Seq<char>, c: char) -> int {
    choose|i: int| 0 <= i < s.len() && #[trigger] s[i] == c && !s.take(i).contains(c)
}

/// The first place of `c` is the only one with no `c` before it.
pub proof fn lemma_first_place(s: Seq<char>, c: char, i: int)
    requires
        0 <= i < s.len(),
        s[i] == c,
        !s.take(i).contains(c),
    ensures
        first_place(s, c) == i,
{
    reveal(first_place);
    let p = first_place(s, c);
    assert(0 <= p < s.len() && s[p] == c && !s.take(p).contains(c));
    if p < i {
        assert(s.take(i)[p] == c);
    }
    if i < p {
        assert(s.take(p)[i] == c);
    }
}

/// What stands before and after the first `c`.
pub fn split_once<'a>(s: &'a str, c: char) -> (r: Option<(&'a str, &'a str)>)
    ensures
        match r {
            Some((a, b)) => {
                &&& s@.contains(c)
                &&& 0 <= first_place(s@, c) < s@.len()
                &&& a@ == s@.take(first_place(s@, c))
                &&& b@ == s@.skip(first_place(s@, c) + 1)
            },
            None => !s@.contains(c),
        },
{
    let v = chars_of(s);
    let mut i: usize = 0;
    while i < v.len()
        invariant
            i <= v@.len(),
            v@ == s@,
            forall|j: int| 0 <= j < i ==> s@[j] != c,
        decreases v@.len() - i,
    {
        if v[i] == c {
            proof {
                assert(!s@.take(i as int).contains(c));
                lemma_first_place(s@, c, i as int);
            }
            let a = s.substring_char(0, i);
            let b = s.substring_char(i + 1, v.len());
            assert(a@ =~= s@.take(i as int));
            assert(b@ =~= s@.skip(i + 1));
            return Some((a, b));
        }
        i += 1;
    }
    None
}

// ---- white space --------------------------------------------------------------

/// The characters with the Unicode property White_Space.
pub open spec fn is_white(c: char) -> bool {
    let n = c as u32;
    ||| 0x9 <= n <= 0xd
    ||| n == 0x20
    ||| n == 0x85
    ||| n == 0xa0
    ||| n == 0x1680
    ||| 0x2000 <= n <= 0x200a
    ||| n == 0x2028
    ||| n == 0x2029
    ||| n == 0x202f
    ||| n == 0x205f
    ||| n == 0x3000
}

/// Is `c` white space?
pub fn white(c: char) -> (r: bool)
    ensures
        r == is_white(c),
{
    let n: u32 = c as u32;
    (0x9 <= n && n <= 0xd) || n == 0x20 || n == 0x85 || n == 0xa0 || n == 0x1680 || (0x2000 <= n
        && n <= 0x200a) || n == 0x2028 || n == 0x2029 || n == 0x202f || n == 0x205f || n == 0x3000
}

/// `s` without the white space at its start.
pub open spec fn trimmed_start(s: Seq<char>) -> Seq<char>
    decreases s.len(),
{
    if s.len() > 0 && is_white(s[0]) {
        trimmed_start(s.drop_first())
    } else {
        s
    }
}

/// `s` without the white space at its end.
pub open spec fn trimmed_end(s: Seq<char>) -> Seq<char>
    decreases s.len(),
{
    if s.len() > 0 && is_white(s.last()) {
        trimmed_end(s.drop_last())
    } else {
        s
    }
}

/// `s` without the white space at its two ends.
pub open spec fn trimmed(s: Seq<char>) -> Seq<char> {
    trimmed_end(trimmed_start(s))
}

/// Where the text begins after white space.
pub fn start_of(v: &Vec<char>) -> (i: usize)
    ensures
        i <= v@.len(),
        v@.skip(i as int) == trimmed_start(v@),
        i < v@.len() ==> !is_white(v@[i as int]),
{
    let mut i: usize = 0;
    assert(v@.skip(0) =~= v@);
    while i < v.len() && white(v[i])
        invariant
            i <= v@.len(),
            trimmed_start(v@.skip(i as int)) == trimmed_start(v@),
        decreases v@.len() - i,
    {
        assert(v@.skip(i as int).drop_first() =~= v@.skip(i + 1));
        i += 1;
    }
    i
}

/// Where the text `v[from..to]` ends before white space.
pub fn end_of(v: &Vec<char>, from: usize, to: usize) -> (j: usize)
    requires
        from <= to <= v@.len(),
    ensures
        from <= j <= to,
        v@.subrange(from as int, j as int) == trimmed_end(v@.subrange(from as int, to as int)),
        from < j ==> !is_white(v@[j - 1]),
{
    let mut j: usize = to;
    while j > from && white(v[j - 1])
        invariant
            from <= j <= to <= v@.len(),
            trimmed_end(v@.subrange(from as int, j as int)) == trimmed_end(
                v@.subrange(from as int, to as int),
            ),
        decreases j,
    {
        assert(v@.subrange(from as int, j as int).drop_last() =~= v@.subrange(
            from as int,
            j - 1,
        ));
        j -= 1;
    }
    j
}

/// `s` without the white space at its two ends.
pub fn trim(s: &str) -> (r: &str)
    ensures
        r@ == trimmed(s@),
{
    let v = chars_of(s);
    let i = start_of(&v);
    let j = end_of(&v, i, v.len());
    assert(v@.subrange(i as int, v@.len() as int) =~= v@.skip(i as int));
    s.substring_char(i, j)
}

// ---- numbers ------------------------------------------------------------------

/// The digit for `d`, in lower case.
pub open spec fn digit_char(d: int) -> char {
    if d == 0 { '0' } else if d == 1 { '1' } else if d == 2 { '2' } else if d == 3 { '3' }
    else if d == 4 { '4' } else if d == 5 { '5' } else if d == 6 { '6' } else if d == 7 { '7' }
    else if d == 8 { '8' } else if d == 9 { '9' } else if d == 10 { 'a' } else if d == 11 { 'b' }
    else if d == 12 { 'c' } else if d == 13 { 'd' } else if d == 14 { 'e' } else { 'f' }
}

fn digit(d: u64) -> (r: char)
    requires
        d < 16,
    ensures
        r == digit_char(d as int),
{
    if d == 0 { '0' } else if d == 1 { '1' } else if d == 2 { '2' } else if d == 3 { '3' }
    else if d == 4 { '4' } else if d == 5 { '5' } else if d == 6 { '6' } else if d == 7 { '7' }
    else if d == 8 { '8' } else if d == 9 { '9' } else if d == 10 { 'a' } else if d == 11 { 'b' }
    else if d == 12 { 'c' } else if d == 13 { 'd' } else if d == 14 { 'e' } else { 'f' }
}

/// `n` in decimal.
pub open spec fn decimal(n: nat) -> Seq<char>
    decreases n,
{
    if n < 10 {
        seq![digit_char(n as int)]
    } else {
        decimal(n / 10).push(digit_char((n % 10) as int))
    }
}

/// `n` in decimal.
pub fn dec(n: u64) -> (r: String)
    ensures
        r@ == decimal(n as nat),
    decreases n,
{
    let mut s = if n < 10 {
        String::new()
    } else {
        dec(n / 10)
    };
    let ghost before = s@;
    s.push(digit(n % 10));
    assert(n < 10 ==> s@ =~= seq![digit_char(n as int)]);
    s
}

/// The last `width` hexadecimal digits of `n`.
pub open spec fn hex_digits(n: nat, width: nat) -> Seq<char>
    decreases width,
{
    if width == 0 {
        Seq::empty()
    } else {
        hex_digits(n / 16, (width - 1) as nat).push(digit_char((n % 16) as int))
    }
}

/// The last `width` hexadecimal digits of `n`.
pub fn hex(n: u64, width: u32) -> (r: String)
    ensures
        r@ == hex_digits(n as nat, width as nat),
    decreases width,
{
    if width == 0 {
        String::new()
    } else {
        let mut s = hex(n / 16, width - 1);
        s.push(digit(n % 16));
        s
    }
}

// ---- equality and order -----------------------------------------------------

/// Are the two texts the same?
pub fn same_text(a: &str, b: &str) -> (r: bool)
    ensures
        r == (a@ == b@),
{
    a.to_owned() == b.to_owned()
}

/// Does the list of texts hold `s`?
pub fn holds(list: &Vec<String>, s: &str) -> (r: bool)
    ensures
        r == list.deep_view().contains(s@),
{
    let ghost vs = list.deep_view();
    let mut i: usize = 0;
    while i < list.len()
        invariant
            i <= list@.len(),
            vs == list.deep_view(),
            forall|j: int| 0 <= j < i ==> #[trigger] vs[j] != s@,
        decreases list@.len() - i,
    {
        assert(vs[i as int] == list@[i as int]@);
        if same_text(list[i].as_str(), s) {
            return true;
        }
        i += 1;
    }
    false
}

/// Strict lexicographic order by code point, the order in which `str` sorts.
pub open spec fn lex_lt(a: Seq<char>, b: Seq<char>) -> bool
    decreases a.len(),
{
    if b.len() == 0 {
        false
    } else if a.len() == 0 {
        true
    } else if a[0] != b[0] {
        (a[0] as int) < (b[0] as int)
    } else {
        lex_lt(a.drop_first(), b.drop_first())
    }
}

/// Nothing comes before itself.
pub proof fn lemma_lex_irreflexive(a: Seq<char>)
    ensures
        !lex_lt(a, a),
    decreases a.len(),
{
    if a.len() > 0 {
        lemma_lex_irreflexive(a.drop_first());
    }
}

/// The order is transitive.
pub proof fn lemma_lex_transitive(a: Seq<char>, b: Seq<char>, c: Seq<char>)
    requires
        lex_lt(a, b),
        lex_lt(b, c),
    ensures
        lex_lt(a, c),
    decreases a.len(),
{
    if a.len() > 0 && a[0] == b[0] && b[0] == c[0] {
        lemma_lex_transitive(a.drop_first(), b.drop_first(), c.drop_first());
    }
}

/// Two texts are equal, or one comes before the other.
pub proof fn lemma_lex_total(a: Seq<char>, b: Seq<char>)
    ensures
        a == b || lex_lt(a, b) || lex_lt(b, a),
    decreases a.len(),
{
    if a.len() == 0 || b.len() == 0 {
        if a.len() == 0 && b.len() == 0 {
            assert(a =~= b);
        }
    } else if a[0] == b[0] {
        lemma_lex_total(a.drop_first(), b.drop_first());
        if a.drop_first() == b.drop_first() {
            assert(a =~= seq![a[0]] + a.drop_first());
            assert(b =~= seq![b[0]] + b.drop_first());
        }
    } else {
        assert(a[0] as int != b[0] as int);
    }
}

/// Does `a` come strictly before `b`?
pub fn before(a: &str, b: &str) -> (r: bool)
    ensures
        r == lex_lt(a@, b@),
{
    let x: Vec<char> = chars_of(a);
    let y: Vec<char> = chars_of(b);
    let mut i: usize = 0;
    proof {
        assert(a@.skip(0) =~= a@);
        assert(b@.skip(0) =~= b@);
    }
    while i < x.len() && i < y.len()
        invariant
            x@ == a@,
            y@ == b@,
            i <= x@.len(),
            i <= y@.len(),
            lex_lt(a@, b@) == lex_lt(a@.skip(i as int), b@.skip(i as int)),
        decreases x@.len() - i,
    {
        if x[i] != y[i] {
            return x[i] < y[i];
        }
        proof {
            assert(a@.skip(i as int).drop_first() =~= a@.skip(i + 1));
            assert(b@.skip(i as int).drop_first() =~= b@.skip(i + 1));
        }
        i += 1;
    }
    i < y.len()
}

/// Strictly ascending: sorted, with nothing twice.
pub open spec fn ascends(s: Seq<Seq<char>>) -> bool {
    forall|i: int, j: int| 0 <= i < j < s.len() ==> lex_lt(#[trigger] s[i], #[trigger] s[j])
}

/// The members of `d` in ascending order.
pub open spec fn ascending(d: Set<Seq<char>>) -> Seq<Seq<char>> {
    choose|s: Seq<Seq<char>>| ascends(s) && #[trigger] s.to_set() == d
}

proof fn lemma_ascends_unique(s: Seq<Seq<char>>, t: Seq<Seq<char>>)
    requires
        ascends(s),
        ascends(t),
        s.to_set() == t.to_set(),
    ensures
        s == t,
    decreases s.len(),
{
    if s.len() == 0 {
        if t.len() > 0 {
            assert(t.to_set().contains(t[0]));
            assert(s.to_set().contains(t[0]));
        }
        assert(s =~= t);
    } else {
        assert(s.to_set().contains(s[0]));
        assert(t.to_set().contains(s[0]));
        let j = choose|j: int| 0 <= j < t.len() && t[j] == s[0];
        assert(t.to_set().contains(t[0]));
        assert(s.to_set().contains(t[0]));
        let k = choose|k: int| 0 <= k < s.len() && s[k] == t[0];
        if j > 0 {
            assert(lex_lt(t[0], t[j]));
            if k > 0 {
                assert(lex_lt(s[0], s[k]));
                lemma_lex_transitive(s[0], t[0], s[0]);
            }
            lemma_lex_irreflexive(s[0]);
        }
        assert(s[0] == t[0]);
        let s1 = s.drop_first();
        let t1 = t.drop_first();
        assert forall|x: Seq<char>| s1.to_set().contains(x) == t1.to_set().contains(x) by {
            if s1.contains(x) {
                let i = choose|i: int| 0 <= i < s1.len() && s1[i] == x;
                assert(s[i + 1] == x);
                assert(s.to_set().contains(x));
                assert(t.to_set().contains(x));
                let m = choose|m: int| 0 <= m < t.len() && t[m] == x;
                if m == 0 {
                    assert(lex_lt(s[0], s[i + 1]));
                    lemma_lex_irreflexive(s[0]);
                }
                assert(t1[m - 1] == x);
            }
            if t1.contains(x) {
                let i = choose|i: int| 0 <= i < t1.len() && t1[i] == x;
                assert(t[i + 1] == x);
                assert(t.to_set().contains(x));
                assert(s.to_set().contains(x));
                let m = choose|m: int| 0 <= m < s.len() && s[m] == x;
                if m == 0 {
                    assert(lex_lt(t[0], t[i + 1]));
                    lemma_lex_irreflexive(t[0]);
                }
                assert(s1[m - 1] == x);
            }
        }
        assert(s1.to_set() =~= t1.to_set());
        lemma_ascends_unique(s1, t1);
        assert(s =~= seq![s[0]] + s1);
        assert(t =~= seq![t[0]] + t1);
    }
}

/// A strictly ascending sequence is the ascending order of its own members.
pub proof fn lemma_ascending(s: Seq<Seq<char>>, d: Set<Seq<char>>)
    requires
        ascends(s),
        s.to_set() == d,
    ensures
        ascending(d) == s,
{
    lemma_ascends_unique(s, ascending(d));
}

// ---- sorting ------------------------------------------------------------------

/// `x` put into the sorted list `t`, behind its equals.
pub open spec fn placed(t: Seq<Seq<char>>, x: Seq<char>) -> Seq<Seq<char>>
    decreases t.len(),
{
    if t.len() > 0 && lex_lt(x, t.last()) {
        placed(t.drop_last(), x).push(t.last())
    } else {
        t.push(x)
    }
}

/// The texts of `s` in ascending order, duplicates kept.
pub open spec fn sorted_list(s: Seq<Seq<char>>) -> Seq<Seq<char>>
    decreases s.len(),
{
    if s.len() == 0 {
        Seq::empty()
    } else {
        placed(sorted_list(s.drop_last()), s.last())
    }
}

/// Sorted: nothing comes before what stands ahead of it.
pub open spec fn in_order(s: Seq<Seq<char>>) -> bool {
    forall|i: int, j: int| 0 <= i < j < s.len() ==> !lex_lt(#[trigger] s[j], #[trigger] s[i])
}

proof fn lemma_placed(t: Seq<Seq<char>>, x: Seq<char>)
    requires
        in_order(t),
    ensures
        in_order(placed(t, x)),
        placed(t, x).to_multiset() == t.to_multiset().insert(x),
    decreases t.len(),
{
    broadcast use vstd::seq_lib::group_to_multiset_ensures;

    if t.len() > 0 && lex_lt(x, t.last()) {
        let d = t.drop_last();
        let l = t.last();
        lemma_placed(d, x);
        let p = placed(d, x);
        assert(t =~= d.push(l));
        assert forall|i: int, j: int| 0 <= i < j < p.push(l).len() implies !lex_lt(
            #[trigger] p.push(l)[j],
            #[trigger] p.push(l)[i],
        ) by {
            if j == p.len() {
                assert(p.to_multiset().contains(p[i]));
                if lex_lt(l, p[i]) {
                    if p[i] == x {
                        lemma_lex_transitive(l, x, l);
                        lemma_lex_irreflexive(l);
                    } else {
                        assert(d.to_multiset().contains(p[i]));
                        assert(d.contains(p[i]));
                        let k = choose|k: int| 0 <= k < d.len() && d[k] == p[i];
                        assert(!lex_lt(t[t.len() - 1], t[k]));
                    }
                }
            }
        }
        assert(p.push(l).to_multiset() =~= t.to_multiset().insert(x));
    } else {
        let r = t.push(x);
        assert forall|i: int, j: int| 0 <= i < j < r.len() implies !lex_lt(
            #[trigger] r[j],
            #[trigger] r[i],
        ) by {
            if j == t.len() && lex_lt(x, t[i]) {
                let l = t.last();
                if i < t.len() - 1 {
                    assert(!lex_lt(t[t.len() - 1], t[i]));
                    lemma_lex_total(t[i], l);
                    if t[i] != l {
                        lemma_lex_transitive(x, t[i], l);
                    }
                }
            }
        }
    }
}

/// Sorting yields the same texts, in order.
pub proof fn lemma_sorted_list(s: Seq<Seq<char>>)
    ensures
        in_order(sorted_list(s)),
        sorted_list(s).to_multiset() == s.to_multiset(),
    decreases s.len(),
{
    broadcast use vstd::seq_lib::group_to_multiset_ensures;

    if s.len() > 0 {
        lemma_sorted_list(s.drop_last());
        lemma_placed(sorted_list(s.drop_last()), s.last());
        assert(s =~= s.drop_last().push(s.last()));
    } else {
        assert(s =~= Seq::<Seq<char>>::empty());
    }
}

proof fn lemma_placed_at(t: Seq<Seq<char>>, x: Seq<char>, p: int)
    requires
        0 <= p <= t.len(),
        forall|j: int| p <= j < t.len() ==> lex_lt(x, #[trigger] t[j]),
        p > 0 ==> !lex_lt(x, t[p - 1]),
    ensures
        placed(t, x) == t.insert(p, x),
    decreases t.len(),
{
    if p < t.len() {
        let d = t.drop_last();
        assert(lex_lt(x, t[t.len() - 1]));
        assert forall|j: int| p <= j < d.len() implies lex_lt(x, #[trigger] d[j]) by {
            assert(lex_lt(x, t[j]));
        }
        lemma_placed_at(d, x, p);
        assert(d.insert(p, x).push(t.last()) =~= t.insert(p, x));
    } else {
        assert(t.insert(p, x) =~= t.push(x));
    }
}

/// The texts in ascending order, duplicates kept.
pub fn sort(v: &Vec<String>) -> (r: Vec<String>)
    ensures
        r.deep_view() == sorted_list(v.deep_view()),
{
    let ghost vs = v.deep_view();
    let mut out: Vec<String> = Vec::new();
    let mut i: usize = 0;
    assert(vs.take(0) =~= Seq::<Seq<char>>::empty());
    assert(out.deep_view() =~= Seq::<Seq<char>>::empty());
    while i < v.len()
        invariant
            i <= v@.len(),
            vs == v.deep_view(),
            out.deep_view() == sorted_list(vs.take(i as int)),
        decreases v@.len() - i,
    {
        let ghost t = out.deep_view();
        let x = v[i].clone();
        proof {
            assert(vs.take(i + 1).drop_last() =~= vs.take(i as int));
            assert(vs.take(i + 1).last() == x@);
        }
        let mut p: usize = out.len();
        while p > 0 && before(x.as_str(), out[p - 1].as_str())
            invariant
                p <= out@.len(),
                t == out.deep_view(),
                forall|j: int| p <= j < t.len() ==> lex_lt(x@, #[trigger] t[j]),
            decreases p,
        {
            p -= 1;
        }
        proof {
            lemma_placed_at(t, x@, p as int);
        }
        out.insert(p, x);
        assert(out.deep_view() =~= t.insert(p as int, x@));
        i += 1;
    }
    assert(vs.take(vs.len() as int) =~= vs);
    out
}

/// What is left after trimming the start is empty or begins with a mark.
pub proof fn lemma_trimmed_start(s: Seq<char>)
    ensures
        trimmed_start(s).len() > 0 ==> !is_white(trimmed_start(s)[0]),
    decreases s.len(),
{
    if s.len() > 0 && is_white(s[0]) {
        lemma_trimmed_start(s.drop_first());
    }
}

/// A text that begins with a mark keeps it when its end is trimmed.
pub proof fn lemma_trimmed_end_keeps(s: Seq<char>)
    requires
        s.len() > 0,
        !is_white(s[0]),
    ensures
        trimmed_end(s).len() > 0,
    decreases s.len(),
{
    if is_white(s.last()) {
        assert(s.len() > 1);
        lemma_trimmed_end_keeps(s.drop_last());
    }
}

/// Where something stands there is a first place.
pub proof fn lemma_first_exists(s: Seq<char>, c: char)
    requires
        s.contains(c),
    ensures
        0 <= first_place(s, c) < s.len(),
        s[first_place(s, c)] == c,
        !s.take(first_place(s, c)).contains(c),
    decreases s.len(),
{
    let i = choose|i: int| 0 <= i < s.len() && s[i] == c;
    if s.take(i).contains(c) {
        let t = s.take(i);
        lemma_first_exists(t, c);
        let p = first_place(t, c);
        assert(t.take(p) =~= s.take(p));
        lemma_first_place(s, c, p);
    } else {
        lemma_first_place(s, c, i);
    }
}

/// Trimming twice trims no more.
pub proof fn lemma_trimmed_twice(s: Seq<char>)
    ensures
        trimmed(trimmed(s)) == trimmed(s),
{
    let t = trimmed_start(s);
    lemma_trimmed_start(s);
    lemma_trimmed_end_last(t);
    let e = trimmed_end(t);
    if t.len() > 0 {
        lemma_trimmed_end_keeps(t);
        lemma_trimmed_end_first(t);
    } else {
        assert(e =~= t);
    }
}

/// What is left after trimming the end is empty or ends with a mark.
pub proof fn lemma_trimmed_end_last(s: Seq<char>)
    ensures
        trimmed_end(s).len() > 0 ==> !is_white(trimmed_end(s).last()),
    decreases s.len(),
{
    if s.len() > 0 && is_white(s.last()) {
        lemma_trimmed_end_last(s.drop_last());
    }
}

proof fn lemma_trimmed_end_first(s: Seq<char>)
    ensures
        trimmed_end(s).len() > 0 ==> s.len() > 0 && trimmed_end(s)[0] == s[0],
    decreases s.len(),
{
    if s.len() > 0 && is_white(s.last()) {
        lemma_trimmed_end_first(s.drop_last());
    }
}

proof fn lemma_into_ascending(s: Seq<Seq<char>>, x: Seq<char>) -> (t: Seq<Seq<char>>)
    requires
        ascends(s),
        !s.contains(x),
    ensures
        ascends(t),
        t.to_set() == s.to_set().insert(x),
    decreases s.len(),
{
    if s.len() == 0 {
        let t = seq![x];
        assert(t[0] == x);
        assert(t.to_set() =~= s.to_set().insert(x));
        t
    } else {
        let l = s.last();
        assert(s[s.len() - 1] == l);
        lemma_lex_total(x, l);
        if lex_lt(l, x) {
            let t = s.push(x);
            assert forall|i: int, j: int| 0 <= i < j < t.len() implies lex_lt(
                #[trigger] t[i],
                #[trigger] t[j],
            ) by {
                if j == s.len() && i < s.len() - 1 {
                    assert(lex_lt(s[i], s[s.len() - 1]));
                    lemma_lex_transitive(s[i], l, x);
                }
            }
            assert forall|q: Seq<char>| t.to_set().contains(q) == s.to_set().insert(x).contains(
                q,
            ) by {
                if s.contains(q) {
                    let i = choose|i: int| 0 <= i < s.len() && s[i] == q;
                    assert(t[i] == q);
                }
                assert(t[s.len() as int] == x);
            }
            assert(t.to_set() =~= s.to_set().insert(x));
            t
        } else {
            assert(lex_lt(x, l));
            let d = s.drop_last();
            assert forall|i: int, j: int| 0 <= i < j < d.len() implies lex_lt(
                #[trigger] d[i],
                #[trigger] d[j],
            ) by {
                assert(lex_lt(s[i], s[j]));
            }
            if d.contains(x) {
                let i = choose|i: int| 0 <= i < d.len() && d[i] == x;
                assert(s[i] == x);
            }
            let u = lemma_into_ascending(d, x);
            let t = u.push(l);
            assert forall|i: int, j: int| 0 <= i < j < t.len() implies lex_lt(
                #[trigger] t[i],
                #[trigger] t[j],
            ) by {
                if j < u.len() {
                    assert(lex_lt(u[i], u[j]));
                } else {
                    assert(u.to_set().contains(u[i]));
                    if u[i] != x {
                        assert(d.to_set().contains(u[i]));
                        let k = choose|k: int| 0 <= k < d.len() && d[k] == u[i];
                        assert(lex_lt(s[k], s[s.len() - 1]));
                    }
                }
            }
            assert forall|q: Seq<char>| t.to_set().contains(q) == s.to_set().insert(x).contains(
                q,
            ) by {
                assert(t[u.len() as int] == l);
                if u.contains(q) {
                    let i = choose|i: int| 0 <= i < u.len() && u[i] == q;
                    assert(t[i] == q);
                    assert(u.to_set().contains(q));
                    if q != x {
                        assert(d.to_set().contains(q));
                        let k = choose|k: int| 0 <= k < d.len() && d[k] == q;
                        assert(s[k] == q);
                    }
                }
                if t.contains(q) && q != l {
                    let i = choose|i: int| 0 <= i < t.len() && t[i] == q;
                    assert(u[i] == q);
                }
                if s.contains(q) && q != l {
                    let k = choose|k: int| 0 <= k < s.len() && s[k] == q;
                    assert(d[k] == q);
                    assert(u.to_set().contains(q));
                }
                if q == x {
                    assert(u.to_set().contains(q));
                }
            }
            assert(t.to_set() =~= s.to_set().insert(x));
            t
        }
    }
}

proof fn lemma_ascending_exists(d: Set<Seq<char>>) -> (t: Seq<Seq<char>>)
    requires
        d.finite(),
    ensures
        ascends(t),
        t.to_set() == d,
    decreases d.len(),
{
    if d.len() == 0 {
        let t = Seq::<Seq<char>>::empty();
        assert(t.to_set() =~= d);
        t
    } else {
        let x = d.choose();
        let s = lemma_ascending_exists(d.remove(x));
        assert(!s.to_set().contains(x));
        let t = lemma_into_ascending(s, x);
        assert(t.to_set() =~= d);
        t
    }
}

/// Every finite set of texts has an ascending order.
pub proof fn lemma_ascending_of(d: Set<Seq<char>>)
    requires
        d.finite(),
    ensures
        ascends(ascending(d)),
        ascending(d).to_set() == d,
{
    let t = lemma_ascending_exists(d);
    assert(ascends(t) && t.to_set() == d);
}

} // verus!
