//! Percentages, as double precision gives them.
//!
//! A share is divided, then multiplied by a hundred, then rounded. Both operations round to
//! a significand of 53 bits, so a share that lies half way between two whole numbers of
//! percent can come out as either of them. Everything is reckoned in whole numbers here.

use vstd::prelude::*;

verus! {

/// A number in double precision: `significand * up / down`, where `up` and `down` are
/// powers of two.
pub struct Double {
    pub significand: nat,
    pub up: nat,
    pub down: nat,
}

/// The whole number nearest to `n / d`; of two the even one.
pub open spec fn nearest(n: nat, d: nat) -> nat {
    let q = n / d;
    let r = n % d;
    if 2 * r > d || (2 * r == d && q % 2 == 1) {
        q + 1
    } else {
        q
    }
}

/// `n / d` in double precision: scaled by twos until the quotient has 53 bits, then rounded
/// to the nearest significand.
pub open spec fn double(n: nat, d: nat) -> Double
    decreases
            if n >= 0x20_0000_0000_0000 * d {
                n - 0x10_0000_0000_0000 * d
            } else if n < 0x10_0000_0000_0000 * d {
                0x10_0000_0000_0000 * d - n
            } else {
                0
            },
{
    if n == 0 || d == 0 {
        Double { significand: 0, up: 1, down: 1 }
    } else if n >= 0x20_0000_0000_0000 * d {
        let x = double(n, 2 * d);
        Double { up: 2 * x.up, ..x }
    } else if n < 0x10_0000_0000_0000 * d {
        let x = double(2 * n, d);
        Double { down: 2 * x.down, ..x }
    } else {
        Double { significand: nearest(n, d), up: 1, down: 1 }
    }
}

/// A number in double precision rounded to the nearest whole number, halves up.
pub open spec fn rounded(x: Double) -> nat {
    (2 * x.significand * x.up + x.down) / (2 * x.down)
}

/// A hundred times a number in double precision.
pub open spec fn hundredfold(x: Double) -> Double {
    let y = double(100 * x.significand, 1);
    Double { significand: y.significand, up: x.up * y.up, down: x.down * y.down }
}

/// `a` out of `t` in percent: divided and multiplied in double precision, then rounded.
pub open spec fn percent(a: nat, t: nat) -> nat {
    rounded(hundredfold(double(a, t)))
}

fn nearest_to(n: u128, d: u128) -> (r: u128)
    requires
        0 < d < 0x1000_0000_0000_0000_0000_0000_0000,
        n < 0x1000_0000_0000_0000_0000_0000_0000,
    ensures
        r == nearest(n as nat, d as nat),
{
    let q: u128 = n / d;
    let r: u128 = n % d;
    assert(q <= n) by (nonlinear_arith)
        requires
            q == n / d,
            0 < d,
    ;
    if 2 * r > d || (2 * r == d && q % 2 == 1) {
        q + 1
    } else {
        q
    }
}

/// How far the nearest whole number is.
proof fn lemma_nearest(n: nat, d: nat)
    requires
        0 < d,
    ensures
        2 * (nearest(n, d) * d) <= 2 * n + d,
        2 * n <= 2 * (nearest(n, d) * d) + d,
{
    let q = n / d;
    let r = n % d;
    assert(n == q * d + r && r < d) by (nonlinear_arith)
        requires
            0 < d,
            q == n / d,
            r == n % d,
    ;
    assert((q + 1) * d == q * d + d) by (nonlinear_arith);
}

/// `a` out of `t` in percent.
pub fn percent_of(a: u32, t: u32) -> (r: u32)
    requires
        0 < t,
        a <= t,
    ensures
        r == percent(a as nat, t as nat),
        r <= 100,
{
    proof {
        law_a_percentage_is_nearest(a as nat, t as nat);
        law_percentages_stay_within(a as nat, t as nat);
    }
    if a == 0 {
        return 0;
    }
    let d: u128 = t as u128;
    let mut n: u128 = a as u128;
    let mut down: u128 = 1;
    assert(1 * double(a as nat, t as nat).down == double(a as nat, t as nat).down)
        by (nonlinear_arith);
    assert(a * 1 == a);
    while n < 0x10_0000_0000_0000 * d
        invariant
            0 < t,
            0 < a <= t,
            d == t,
            0 < n,
            n == a * down,
            1 <= down <= n,
            n < 0x20_0000_0000_0000 * d,
            double(a as nat, t as nat) == (Double {
                down: down as nat * double(n as nat, d as nat).down,
                ..double(n as nat, d as nat)
            }),
        decreases 0x20_0000_0000_0000 * d - n,
    {
        let ghost x = double((2 * n) as nat, d as nat);
        assert((2 * down) * x.down == down * (2 * x.down)) by (nonlinear_arith);
        assert(a * (2 * down) == 2 * (a * down)) by (nonlinear_arith);
        n = 2 * n;
        down = 2 * down;
    }
    let m: u128 = nearest_to(n, d);
    assert(double(n as nat, d as nat) == (Double { significand: m as nat, up: 1, down: 1 }));
    assert(0x10_0000_0000_0000 <= m <= 0x20_0000_0000_0000) by {
        lemma_nearest_within(n as nat, d as nat);
    }
    let h: u128 = 100 * m;
    let mut up: u128 = 1;
    assert(1 * double(h as nat, 1).up == double(h as nat, 1).up) by (nonlinear_arith);
    while h >= 0x20_0000_0000_0000 * up
        invariant
            0x10_0000_0000_0000 * up <= h <= 200 * 0x10_0000_0000_0000,
            1 <= up <= 200,
            double(h as nat, 1) == (Double {
                up: up as nat * double(h as nat, up as nat).up,
                ..double(h as nat, up as nat)
            }),
        decreases h - 0x10_0000_0000_0000 * up,
    {
        let ghost x = double(h as nat, (2 * up) as nat);
        assert((2 * up) * x.up == up * (2 * x.up)) by (nonlinear_arith);
        up = 2 * up;
    }
    let k: u128 = nearest_to(h, up);
    proof {
        lemma_nearest_within(h as nat, up as nat);
        let x = double(a as nat, t as nat);
        assert(down as nat * 1 == down && up as nat * 1 == up && 1 * up as nat == up)
            by (nonlinear_arith);
        assert(x.significand == m && x.up == 1 && x.down == down);
        let y = double(h as nat, 1);
        assert(y.significand == k && y.up == up && y.down == 1);
        assert(2 * k * up <= 0x40_0000_0000_0000 * 200) by (nonlinear_arith)
            requires
                k <= 0x20_0000_0000_0000,
                up <= 200,
        ;
        assert(hundredfold(x) == (Double {
            significand: k as nat,
            up: up as nat,
            down: down as nat,
        }));
    }
    ((2 * k * up + down) / (2 * down)) as u32
}

/// A quotient of 53 bits rounds to a significand of 53 bits, or to the next power of two.
proof fn lemma_nearest_within(n: nat, d: nat)
    requires
        0 < d,
        0x10_0000_0000_0000 * d <= n < 0x20_0000_0000_0000 * d,
    ensures
        0x10_0000_0000_0000 <= nearest(n, d) <= 0x20_0000_0000_0000,
{
    let q = n / d;
    assert(0x10_0000_0000_0000 <= q < 0x20_0000_0000_0000) by (nonlinear_arith)
        requires
            0 < d,
            0x10_0000_0000_0000 * d <= n < 0x20_0000_0000_0000 * d,
            q == n / d,
    ;
}

/// How a quotient was scaled.
proof fn lemma_double(n: nat, d: nat)
    requires
        0 < n,
        0 < d,
    ensures
        ({
            let x = double(n, d);
            &&& 0 < x.up
            &&& 0 < x.down
            &&& 0x10_0000_0000_0000 * (d * x.up) <= n * x.down < 0x20_0000_0000_0000 * (d * x.up)
            &&& x.significand == nearest(n * x.down, d * x.up)
            &&& n >= 0x10_0000_0000_0000 * d ==> x.down == 1
            &&& n < 0x20_0000_0000_0000 * d ==> x.up == 1
        }),
    decreases
            if n >= 0x20_0000_0000_0000 * d {
                n - 0x10_0000_0000_0000 * d
            } else if n < 0x10_0000_0000_0000 * d {
                0x10_0000_0000_0000 * d - n
            } else {
                0
            },
{
    if n >= 0x20_0000_0000_0000 * d {
        lemma_double(n, 2 * d);
        let x = double(n, 2 * d);
        assert((2 * d) * x.up == d * (2 * x.up)) by (nonlinear_arith);
    } else if n < 0x10_0000_0000_0000 * d {
        lemma_double(2 * n, d);
        let x = double(2 * n, d);
        assert((2 * n) * x.down == n * (2 * x.down)) by (nonlinear_arith);
    } else {
        assert(n * 1 == n && d * 1 == d);
    }
}

/// A percentage is a whole number nearest to the share: it is off by one half at most.
pub proof fn law_a_percentage_is_nearest(a: nat, t: nat)
    requires
        0 < t <= u32::MAX,
        a <= t,
    ensures
        2 * (percent(a, t) * t) <= 200 * a + t,
        200 * a <= 2 * (percent(a, t) * t) + t,
{
    let x = double(a, t);
    let y = double(100 * x.significand, 1);
    if a == 0 {
        lemma_none(t);
    } else {
        lemma_double(a, t);
        let p = x.down;
        let m = x.significand;
        lemma_nearest(a * p, t);
        assert(0x10_0000_0000_0000 <= p) by (nonlinear_arith)
            requires
                0x10_0000_0000_0000 * t <= a * p,
                a <= t,
                0 < t,
        ;
        lemma_nearest_within(a * p, t);
        lemma_double(100 * m, 1);
        let q = y.up;
        let k = y.significand;
        lemma_nearest(100 * m, q);
        assert(1 * q == q && (100 * m) * y.down == 100 * m) by (nonlinear_arith)
            requires
                y.down == 1,
        ;
        assert(q <= 200);
        let r = percent(a, t);
        let v = k * q;
        assert(2 * k * q == 2 * v) by (nonlinear_arith)
            requires
                v == k * q,
        ;
        assert(r == (2 * v + p) / (2 * p));
        assert(2 * (r * p) <= 2 * v + p && 2 * v < 2 * (r * p) + p) by (nonlinear_arith)
            requires
                r == (2 * v + p) / (2 * p),
                0 < p,
        ;
        lemma_close(a, t, p, m, q, v, r);
    }
}

proof fn lemma_none(t: nat)
    ensures
        percent(0, t) == 0,
{
    let x = double(0, t);
    assert(x == (Double { significand: 0, up: 1, down: 1 }));
    let y = double(100 * x.significand, 1);
    assert(y == (Double { significand: 0, up: 1, down: 1 }));
    let z = hundredfold(x);
    assert(x.up * y.up == 1 && x.down * y.down == 1) by (nonlinear_arith)
        requires
            x.up == 1,
            y.up == 1,
            x.down == 1,
            y.down == 1,
    ;
    assert(2 * z.significand * z.up == 0) by (nonlinear_arith)
        requires
            z.significand == 0,
    ;
    assert(rounded(z) == (0 + z.down) / (2 * z.down));
    assert((0 + z.down) / (2 * z.down) == 0) by (nonlinear_arith)
        requires
            z.down == 1,
    ;
}

/// The two roundings together are too small to pass a whole number by.
proof fn lemma_close(a: nat, t: nat, p: nat, m: nat, q: nat, v: nat, r: nat)
    requires
        0 < t <= u32::MAX,
        0x10_0000_0000_0000 <= p,
        q <= 200,
        2 * (m * t) <= 2 * (a * p) + t,
        2 * (a * p) <= 2 * (m * t) + t,
        2 * v <= 200 * m + q,
        200 * m <= 2 * v + q,
        2 * (r * p) <= 2 * v + p,
        2 * v < 2 * (r * p) + p,
    ensures
        2 * (r * t) <= 200 * a + t,
        200 * a <= 2 * (r * t) + t,
{
    // Everything times `p`, so that nothing is divided.
    let rt = r * t;
    assert(2 * (rt * p) <= 200 * (m * t) + (q + p) * t && 200 * (m * t) <= 2 * (rt * p) + (q + p)
        * t) by (nonlinear_arith)
        requires
            rt == r * t,
            2 * (r * p) <= 200 * m + q + p,
            200 * m <= 2 * (r * p) + q + p,
            0 < t,
    ;
    assert(q * t <= 200 * t) by (nonlinear_arith)
        requires
            q <= 200,
    ;
    assert((q + p) * t == q * t + p * t) by (nonlinear_arith);
    assert(300 * t < p);
    let ap = a * p;
    let pt = p * t;
    assert(2 * (rt * p) < 200 * ap + pt + p);
    assert(200 * ap < 2 * (rt * p) + pt + p);
    assert(2 * rt < 200 * a + t + 1) by (nonlinear_arith)
        requires
            2 * (rt * p) < 200 * ap + pt + p,
            ap == a * p,
            pt == p * t,
            0 < p,
    ;
    assert(200 * a < 2 * rt + t + 1) by (nonlinear_arith)
        requires
            200 * ap < 2 * (rt * p) + pt + p,
            ap == a * p,
            pt == p * t,
            0 < p,
    ;
}

/// A percentage is at most 100; of nothing it is 0, and of everything 100.
pub proof fn law_percentages_stay_within(a: nat, t: nat)
    requires
        0 < t <= u32::MAX,
        a <= t,
    ensures
        percent(a, t) <= 100,
        percent(t, t) == 100,
        percent(0, t) == 0,
{
    law_a_percentage_is_nearest(a, t);
    law_a_percentage_is_nearest(t, t);
    lemma_none(t);
    let r = percent(a, t);
    let s = percent(t, t);
    assert(r <= 100) by (nonlinear_arith)
        requires
            2 * (r * t) <= 200 * a + t,
            a <= t,
            0 < t,
    ;
    assert(s == 100) by (nonlinear_arith)
        requires
            2 * (s * t) <= 200 * t + t,
            200 * t <= 2 * (s * t) + t,
            0 < t,
    ;
}

} // verus!
