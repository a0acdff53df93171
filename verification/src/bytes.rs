//! How many bytes a text takes.

use crate::text::chars_of;
use vstd::prelude::*;
use vstd::string::*;

verus! {

/// How many bytes a character takes.
pub open spec fn width(c: char) -> nat {
    let n = c as u32;
    if n < 0x80 {
        1
    } else if n < 0x800 {
        2
    } else if n < 0x10000 {
        3
    } else {
        4
    }
}

/// How many bytes a character takes.
pub fn byte_width(c: char) -> (r: u128)
    ensures
        r as nat == width(c),
        1 <= r <= 4,
{
    let n: u32 = c as u32;
    if n < 0x80 {
        1
    } else if n < 0x800 {
        2
    } else if n < 0x10000 {
        3
    } else {
        4
    }
}

/// How many bytes stand before place `i`.
pub open spec fn offset(s: Seq<char>, i: int) -> nat
    decreases i,
{
    if i <= 0 {
        0
    } else {
        offset(s, i - 1) + width(s[i - 1])
    }
}

/// More characters take more bytes.
pub proof fn lemma_offset_grows(s: Seq<char>, i: int, j: int)
    requires
        0 <= i <= j,
    ensures
        offset(s, i) <= offset(s, j),
        i < j ==> offset(s, i) < offset(s, j),
    decreases j,
{
    if i < j {
        lemma_offset_grows(s, i, j - 1);
    }
}

/// A character takes at most four bytes.
pub proof fn lemma_offset_bound(s: Seq<char>, i: int)
    requires
        0 <= i,
    ensures
        offset(s, i) <= 4 * i,
    decreases i,
{
    if i > 0 {
        lemma_offset_bound(s, i - 1);
    }
}

/// A character takes at least one byte.
pub proof fn lemma_offset_apart(s: Seq<char>, i: int, j: int)
    requires
        0 <= i <= j,
    ensures
        offset(s, j) - offset(s, i) >= j - i,
    decreases j,
{
    if i < j {
        lemma_offset_apart(s, i, j - 1);
    }
}

/// How many bytes stand before place `i`.
pub fn bytes_before(v: &Vec<char>, i: usize) -> (r: u128)
    requires
        i <= v@.len(),
    ensures
        r as nat == offset(v@, i as int),
{
    let mut n: u128 = 0;
    let mut k: usize = 0;
    while k < i
        invariant
            k <= i <= v@.len(),
            n as nat == offset(v@, k as int),
        decreases i - k,
    {
        proof {
            lemma_offset_bound(v@, k as int);
        }
        n = n + byte_width(v[k]);
        k += 1;
    }
    n
}

/// How many bytes a text takes.
pub open spec fn byte_len(s: Seq<char>) -> nat {
    offset(s, s.len() as int)
}

/// How many bytes a text takes.
pub fn bytes_in(s: &str) -> (r: u128)
    ensures
        r as nat == byte_len(s@),
        r <= u128::MAX / 4,
{
    let v = chars_of(s);
    proof {
        lemma_offset_bound(v@, v@.len() as int);
    }
    bytes_before(&v, v.len())
}

} // verus!
