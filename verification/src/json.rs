//! Texts in JSON.

use crate::modelled::{at, fresh, put};
use crate::text::{cat3, hex_digits, join, joined};
use vstd::prelude::*;
use vstd::string::*;

verus! {

// ---- writing --------------------------------------------------------------------------

/// A character as it stands in a JSON string.
pub open spec fn escaped(c: char) -> Seq<char> {
    if c == '"' {
        seq!['\\', '"']
    } else if c == '\\' {
        seq!['\\', '\\']
    } else if c == '\x08' {
        seq!['\\', 'b']
    } else if c == '\t' {
        seq!['\\', 't']
    } else if c == '\n' {
        seq!['\\', 'n']
    } else if c == '\x0c' {
        seq!['\\', 'f']
    } else if c == '\r' {
        seq!['\\', 'r']
    } else if (c as u32) < 0x20 {
        seq!['\\', 'u', '0', '0'] + hex_digits(c as nat, 2)
    } else {
        seq![c]
    }
}

/// The characters of a text as they stand in a JSON string.
pub open spec fn all_escaped(s: Seq<char>) -> Seq<char>
    decreases s.len(),
{
    if s.len() == 0 {
        Seq::empty()
    } else {
        all_escaped(s.drop_last()) + escaped(s.last())
    }
}

/// A text as a JSON string.
pub open spec fn json_text(s: Seq<char>) -> Seq<char> {
    seq!['"'] + all_escaped(s) + seq!['"']
}

/// `serde_json::to_string` on a text: a JSON string. The two quotes, the backslash and
/// the control characters are escaped, those with a short escape by it and the others by
/// their number; every other character stands as it is.
#[verifier::external_body]
pub(crate) fn quoted(s: &str) -> (r: String)
    ensures
        r@ == json_text(s@),
{
    serde_json::to_string(s).unwrap_or_default()
}

/// Texts as JSON strings.
pub open spec fn json_texts(xs: Seq<Seq<char>>) -> Seq<Seq<char>> {
    Seq::new(xs.len(), |i: int| json_text(xs[i]))
}

/// A list of texts in JSON.
pub open spec fn json_list(xs: Seq<Seq<char>>) -> Seq<char> {
    "["@ + joined(json_texts(xs), ","@) + "]"@
}

/// A list of texts in JSON.
pub fn list_quoted(xs: &Vec<String>) -> (r: String)
    ensures
        r@ == json_list(xs.deep_view()),
{
    let ghost v = xs.deep_view();
    let mut out: Vec<String> = fresh();
    let mut i: usize = 0;
    assert(json_texts(v).take(0) =~= Seq::<Seq<char>>::empty());
    while i < xs.len()
        invariant
            i <= xs@.len(),
            v == xs.deep_view(),
            out.deep_view() == json_texts(v).take(i as int),
        decreases xs@.len() - i,
    {
        put(&mut out, quoted(at(xs, i).as_str()));
        assert(json_texts(v).take(i + 1) =~= json_texts(v).take(i as int).push(
            json_texts(v)[i as int],
        ));
        i += 1;
    }
    assert(json_texts(v).take(v.len() as int) =~= json_texts(v));
    cat3("[", join(&out, ",").as_str(), "]")
}

/// An optional text in JSON.
pub open spec fn json_opt(o: Option<Seq<char>>) -> Seq<char> {
    match o {
        Some(s) => json_text(s),
        None => "null"@,
    }
}

/// An optional text in JSON.
pub fn opt_quoted(o: &Option<String>) -> (r: String)
    ensures
        r@ == json_opt(o.deep_view()),
{
    match o {
        Some(s) => quoted(s.as_str()),
        None => "null".to_owned(),
    }
}

} // verus!
