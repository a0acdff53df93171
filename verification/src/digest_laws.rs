//! What a digest tells of the bytes it is taken of.

use crate::signoff::{digest, fnv};
use crate::text::{digit_char, hex_digits};
use vstd::arithmetic::div_mod::{
    lemma_mod_multiples_vanish, lemma_mul_mod_noop_left,
};
use vstd::prelude::*;
use vstd::utf8::encode_utf8;

verus! {

/// Multiplying by the prime of the digest loses nothing: it can be undone.
proof fn lemma_multiplied_apart(x: u64, y: u64)
    requires
        x.wrapping_mul(0x0000_0100_0000_01b3) == y.wrapping_mul(0x0000_0100_0000_01b3),
    ensures
        x == y,
{
    lemma_undone(x as int);
    lemma_undone(y as int);
}

proof fn lemma_undone(x: int)
    requires
        0 <= x < 0x1_0000_0000_0000_0000,
    ensures
        ((x * 0x0000_0100_0000_01b3) % 0x1_0000_0000_0000_0000) * 0xce96_5057_aff6_957b
            % 0x1_0000_0000_0000_0000 == x,
{
    let p = 0x0000_0100_0000_01b3int;
    let q = 0xce96_5057_aff6_957bint;
    let m = 0x1_0000_0000_0000_0000int;
    let k = 887285111055int;
    lemma_mul_mod_noop_left(x * p, q, m);
    assert(p * q == m * k + 1);
    assert(x * p * q == m * (x * k) + x) by (nonlinear_arith)
        requires
            p * q == m * k + 1,
    ;
    lemma_mod_multiples_vanish(x * k, x, m);
}

/// One step of the digest tells both what was digested before and the byte.
proof fn lemma_step(s: Seq<u8>, a: u8, t: Seq<u8>, b: u8)
    ensures
        a == b ==> (fnv(s.push(a)) == fnv(t.push(b)) <==> fnv(s) == fnv(t)),
        fnv(s) == fnv(t) ==> (fnv(s.push(a)) == fnv(t.push(b)) <==> a == b),
{
    assert(s.push(a).drop_last() =~= s);
    assert(t.push(b).drop_last() =~= t);
    let (h, g) = (fnv(s), fnv(t));
    let x = h ^ (a as u64);
    let y = g ^ (b as u64);
    if fnv(s.push(a)) == fnv(t.push(b)) {
        lemma_multiplied_apart(x, y);
    }
    if a == b && x == y {
        let c = a as u64;
        assert(h ^ c == g ^ c ==> h == g) by (bit_vector);
    }
    if h == g && x == y {
        let (c, d) = (a as u64, b as u64);
        assert(h ^ c == h ^ d ==> c == d) by (bit_vector);
    }
}

/// Every byte counts: where two texts differ in one byte alone, their digests differ.
pub proof fn law_each_byte_counts(s: Seq<u8>, a: u8, b: u8, t: Seq<u8>)
    ensures
        fnv(s + seq![a] + t) == fnv(s + seq![b] + t) <==> a == b,
    decreases t.len(),
{
    if t.len() == 0 {
        assert(s + seq![a] + t =~= s.push(a));
        assert(s + seq![b] + t =~= s.push(b));
        lemma_step(s, a, s, b);
    } else {
        let d = t.drop_last();
        let (x, y) = (s + seq![a] + d, s + seq![b] + d);
        law_each_byte_counts(s, a, b, d);
        assert(s + seq![a] + t =~= x.push(t.last()));
        assert(s + seq![b] + t =~= y.push(t.last()));
        lemma_step(x, t.last(), y, t.last());
    }
}

/// How many numbers there are of so many hexadecimal digits.
spec fn sixteens(width: nat) -> nat
    decreases width,
{
    if width == 0 {
        1
    } else {
        16 * sixteens((width - 1) as nat)
    }
}

proof fn lemma_digits_apart(m: nat, n: nat, width: nat)
    requires
        m < sixteens(width),
        n < sixteens(width),
        hex_digits(m, width) == hex_digits(n, width),
    ensures
        m == n,
    decreases width,
{
    if width > 0 {
        let w = (width - 1) as nat;
        let (a, b) = (hex_digits(m / 16, w), hex_digits(n / 16, w));
        let (x, y) = (hex_digits(m, width), hex_digits(n, width));
        assert(a =~= x.drop_last());
        assert(b =~= y.drop_last());
        assert(x.last() == y.last());
        assert(digit_char((m % 16) as int) == digit_char((n % 16) as int));
        lemma_digits_apart(m / 16, n / 16, w);
    }
}

/// A number is written in sixteen hexadecimal digits, and no two numbers alike.
pub proof fn law_numbers_are_told_by_their_digits(m: u64, n: u64)
    ensures
        hex_digits(m as nat, 16).len() == 16,
        hex_digits(m as nat, 16) == hex_digits(n as nat, 16) <==> m == n,
{
    lemma_digit_count(m as nat, 16);
    reveal_with_fuel(sixteens, 17);
    assert(sixteens(16) == 0x1_0000_0000_0000_0000);
    if hex_digits(m as nat, 16) == hex_digits(n as nat, 16) {
        lemma_digits_apart(m as nat, n as nat, 16);
    }
}

proof fn lemma_digit_count(n: nat, width: nat)
    ensures
        hex_digits(n, width).len() == width,
    decreases width,
{
    if width > 0 {
        lemma_digit_count(n / 16, (width - 1) as nat);
    }
}

/// The digests of two texts differ where their bytes differ in one alone.
pub proof fn law_digests_tell_a_changed_byte(
    x: Seq<char>,
    y: Seq<char>,
    s: Seq<u8>,
    a: u8,
    b: u8,
    t: Seq<u8>,
)
    requires
        encode_utf8(x) == s + seq![a] + t,
        encode_utf8(y) == s + seq![b] + t,
    ensures
        digest(x) == digest(y) <==> a == b,
{
    law_each_byte_counts(s, a, b, t);
    law_numbers_are_told_by_their_digits(fnv(encode_utf8(x)), fnv(encode_utf8(y)));
}

} // verus!
