//! Letters: lower case, and what a word is made of.

use vstd::prelude::*;

verus! {

/// Is the character one of ASCII?
pub open spec fn is_ascii(c: char) -> bool {
    '\0' <= c && c <= '\x7f'
}

/// Is every character of the text one of ASCII?
pub open spec fn all_ascii(s: Seq<char>) -> bool {
    forall|i: int| 0 <= i < s.len() ==> is_ascii(#[trigger] s[i])
}

/// `c` in lower case, if it is an ASCII capital; else `c` itself.
pub open spec fn lowered(c: char) -> char {
    if 'A' <= c && c <= 'Z' {
        ((c as u32 + 32) as u8) as char
    } else {
        c
    }
}

/// `c` in lower case, if it is an ASCII capital; else `c` itself.
pub fn lower(c: char) -> (r: char)
    ensures
        r == lowered(c),
{
    if 'A' <= c && c <= 'Z' {
        ((c as u32 + 32) as u8) as char
    } else {
        c
    }
}

/// Is the character an ASCII letter or digit?
pub open spec fn ascii_alnum(c: char) -> bool {
    ('a' <= c && c <= 'z') || ('A' <= c && c <= 'Z') || ('0' <= c && c <= '9')
}

/// The lower case of a character: one character or several.
pub uninterp spec fn lower_chars(c: char) -> Seq<char>;

/// `char::to_lowercase`: the characters that it yields, in order. An ASCII capital yields
/// its small letter and any other ASCII character itself; what the Unicode tables have
/// for the rest is not stated.
#[verifier::external_body]
pub(crate) fn lowercase_char(c: char) -> (r: Vec<char>)
    ensures
        r@ == lower_chars(c),
        is_ascii(c) ==> r@ == seq![lowered(c)],
{
    c.to_lowercase().collect()
}

/// A text in lower case.
pub uninterp spec fn lower_text(s: Seq<char>) -> Seq<char>;

/// `str::to_lowercase`: the text in lower case. An ASCII text is lowered character by
/// character; what the Unicode tables have for the rest is not stated.
#[verifier::external_body]
pub(crate) fn lowercase(s: &str) -> (r: String)
    ensures
        r@ == lower_text(s@),
        all_ascii(s@) ==> r@ == s@.map_values(|c: char| lowered(c)),
{
    s.to_lowercase()
}

/// Is the character a letter or a digit?
pub uninterp spec fn is_alnum(c: char) -> bool;

/// `char::is_alphanumeric`: whether the character is a letter or a digit. Of ASCII these
/// are the 26 letters in both cases and the 10 digits; which ones the Unicode tables have
/// beyond it is not stated.
#[verifier::external_body]
pub(crate) fn alphanumeric(c: char) -> (r: bool)
    ensures
        r == is_alnum(c),
        is_ascii(c) ==> r == ascii_alnum(c),
{
    c.is_alphanumeric()
}

/// Are the ASCII characters what they are taken for: the letters and digits letters and
/// digits, and the capitals those of the small letters?
pub open spec fn ascii_as_usual() -> bool {
    forall|c: char|
        #![trigger is_alnum(c)]
        #![trigger lower_chars(c)]
        is_ascii(c) ==> is_alnum(c) == ascii_alnum(c) && lower_chars(c) == seq![lowered(c)]
}

/// Goes through the ASCII characters: they are what they are taken for.
pub fn learn_ascii()
    ensures
        ascii_as_usual(),
{
    let mut i: u8 = 0;
    while i < 128
        invariant
            i <= 128,
            forall|c: char|
                #![trigger is_alnum(c)]
                #![trigger lower_chars(c)]
                '\0' <= c && c < i as char ==> is_alnum(c) == ascii_alnum(c) && lower_chars(c) == seq![
                    lowered(c),
                ],
        decreases 128 - i,
    {
        let c = i as char;
        let _a = alphanumeric(c);
        let _l = lowercase_char(c);
        proof {
            let next = (i + 1) as u8;
            assert forall|d: char|
                #![trigger is_alnum(d)]
                #![trigger lower_chars(d)]
                '\0' <= d && d < next as char implies is_alnum(d) == ascii_alnum(d) && lower_chars(d) == seq![
                lowered(d),
            ] by {
                if !(d < c) {
                    assert(d == c);
                }
            }
        }
        i += 1;
    }
}

} // verus!
