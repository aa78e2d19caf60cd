//! Single-precision values, held as integers.
//!
//! A non-negative binary32 value `v` is held as the integer `v * 2^52`. Every value that the
//! tools compute is a whole number of these units, so sums, products and quotients are taken
//! exactly and then rounded to the 24 significant bits of the format, ties to even.

use vstd::prelude::*;

verus! {

/// The value one, in units of 2^-52.
pub const ONE: u128 = 4503599627370496;

/// The value one half, in units of 2^-52.
pub const HALF: u128 = 2251799813685248;

/// The integer nearest to `n / d`; the even one where two are equally near.
pub open spec fn half_even(n: nat, d: nat) -> nat {
    let q = n / d;
    let r = n % d;
    if 2 * r > d || (2 * r == d && q % 2 == 1) {
        q + 1
    } else {
        q
    }
}

/// The power of two by which `q` is divided to leave at most 24 bits.
pub open spec fn grain(q: nat) -> nat
    decreases q,
{
    if q < 0x100_0000 {
        1
    } else {
        2 * grain(q / 2)
    }
}

/// The value of 24 significant bits that is nearest to `n / d`, ties to even.
pub open spec fn nearest(n: nat, d: nat) -> nat {
    let g = grain(n / d);
    half_even(n, d * g) * g
}

/// Rounds `n / d` to 24 significant bits.
pub fn round_ratio(n: u128, d: u128) -> (r: u128)
    requires
        0 < d,
        n < 0x4000_0000_0000_0000_0000_0000_0000_0000,
    ensures
        r == nearest(n as nat, d as nat),
{
    let q: u128 = n / d;
    let mut t: u128 = q;
    let mut g: u128 = 1;
    proof {
        assert(g * grain(t as nat) == grain(q as nat));
    }
    while t >= 0x100_0000
        invariant
            0 < d,
            n < 0x4000_0000_0000_0000_0000_0000_0000_0000,
            q == n / d,
            1 <= g,
            t == q / g,
            q < 0x100_0000 ==> g == 1,
            q >= 0x100_0000 ==> t >= 0x80_0000,
            g * grain(t as nat) == grain(q as nat),
            g <= q || g == 1,
        decreases t,
    {
        proof {
            vstd::arithmetic::div_mod::lemma_div_denominator(q as int, g as int, 2);
            assert(g * (2 * grain((t / 2) as nat)) == (g * 2) * grain((t / 2) as nat)) by (nonlinear_arith);
            assert(g * t <= q) by (nonlinear_arith)
                requires
                    t == q / g,
                    g >= 1,
            ;
            assert(g * 0x100_0000 <= g * t) by (nonlinear_arith)
                requires
                    t >= 0x100_0000,
                    g >= 1,
            ;
        }
        t = t / 2;
        g = g * 2;
    }
    proof {
        assert(grain(t as nat) == 1);
        assert(g * 1 == g);
        assert(d * g <= n || d * g == d) by (nonlinear_arith)
            requires
                g <= q || g == 1,
                q == n / d,
                d >= 1,
        ;
        assert(d * g >= 1) by (nonlinear_arith)
            requires
                d >= 1,
                g >= 1,
        ;
    }
    let dg: u128 = d * g;
    let m: u128 = n / dg;
    let rem: u128 = n % dg;
    proof {
        assert(m * g <= q) by (nonlinear_arith)
            requires
                m == n / dg,
                dg == d * g,
                q == n / d,
                d >= 1,
                g >= 1,
        ;
        assert((m + 1) * g == m * g + g) by (nonlinear_arith);
        assert(rem < dg);
    }
    if rem > dg - rem || (rem == dg - rem && m % 2 == 1) {
        (m + 1) * g
    } else {
        m * g
    }
}

/// The integer `i` as a single-precision value, in whole numbers (not units).
pub open spec fn whole(i: nat) -> nat {
    nearest(i, 1)
}

/// The single-precision product of the integer `i` and the value `r`.
pub open spec fn scaled(i: nat, r: nat) -> nat {
    nearest(whole(i) * r, 1)
}

/// The single-precision quotient of the integers `n` and `d`.
pub open spec fn quotient(n: nat, d: nat) -> nat {
    nearest(whole(n) * ONE as nat, whole(d))
}

/// The single-precision product of the values `a` and `b`.
pub open spec fn product(a: nat, b: nat) -> nat {
    nearest(a * b, ONE as nat)
}

/// The single-precision difference of `a` and `b`, without its sign.
pub open spec fn distance(a: nat, b: nat) -> nat {
    if a >= b {
        nearest((a - b) as nat, 1)
    } else {
        nearest((b - a) as nat, 1)
    }
}

/// The single-precision value nearest to the signed number `v`.
pub open spec fn signed(v: int) -> int {
    if v >= 0 {
        nearest(v as nat, 1) as int
    } else {
        -(nearest((-v) as nat, 1) as int)
    }
}

/// The largest integer that is at most the value `v`.
pub open spec fn floor(v: nat) -> nat {
    v / (ONE as nat)
}

/// The integer nearest to the value `v`; the larger one where two are equally near.
pub open spec fn rounded(v: nat) -> nat {
    (2 * v + ONE as nat) / (2 * ONE as nat)
}

pub proof fn lemma_grain_positive(q: nat)
    ensures
        grain(q) >= 1,
        grain(q) > 1 ==> 0x80_0000 * grain(q) <= q,
        q < 0x100_0000 * grain(q),
    decreases q,
{
    if q >= 0x100_0000 {
        lemma_grain_positive(q / 2);
    }
}

/// Rounding moves `n / d` by at most half of the last of its 24 bits.
pub proof fn lemma_nearest_error(n: nat, d: nat)
    requires
        d > 0,
    ensures
        2 * (nearest(n, d) * d) <= 2 * n + d * grain(n / d),
        2 * n <= 2 * (nearest(n, d) * d) + d * grain(n / d),
{
    let g = grain(n / d);
    lemma_grain_positive(n / d);
    let dg = d * g;
    assert(dg >= 1) by (nonlinear_arith)
        requires
            d >= 1,
            g >= 1,
            dg == d * g,
    ;
    let q = n / dg;
    vstd::arithmetic::div_mod::lemma_fundamental_div_mod(n as int, dg as int);
    let m = half_even(n, dg);
    assert(nearest(n, d) * d == m * dg) by (nonlinear_arith)
        requires
            nearest(n, d) == m * g,
            dg == d * g,
    ;
    assert(dg * q == q * dg) by (nonlinear_arith);
    assert((q + 1) * dg == q * dg + dg) by (nonlinear_arith);
}

/// An integer of at most 24 bits is a single-precision value as it stands.
pub proof fn lemma_whole_exact(i: nat)
    requires
        i <= 0x100_0000,
    ensures
        whole(i) == i,
{
    assert(i / 1 == i && i % 1 == 0);
    assert(half_even(i, 1) == i);
    assert(i * 1 == i);
    if i == 0x100_0000 {
        assert(grain(0x80_0000) == 1);
        assert(grain(i) == 2);
    }
}

/// The error of a rounded value is small against the value: below one part in 2^23.
pub proof fn lemma_nearest_size(n: nat)
    ensures
        nearest(n, 1) <= n + n / 0x100_0000 + 1,
        n < 0x100_0000 ==> nearest(n, 1) == n,
{
    lemma_nearest_error(n, 1);
    lemma_grain_positive(n);
    assert(n / 1 == n);
}

/// The single-precision product of the integer `i` and the value `r`.
pub fn scale(i: u64, r: u128) -> (v: u128)
    requires
        i < 0x100_0000_0000,
        r < 0x400_0000_0000_0000,
    ensures
        v == scaled(i as nat, r as nat),
        v < 0x10_0000_0000_0000_0000_0000_0000,
{
    let w: u128 = round_ratio(i as u128, 1);
    proof {
        lemma_nearest_size(i as nat);
        assert(w * r <= 0x101_0000_0000 * 0x400_0000_0000_0000) by (nonlinear_arith)
            requires
                w <= 0x101_0000_0000,
                r <= 0x400_0000_0000_0000,
        ;
        lemma_nearest_size((w * r) as nat);
    }
    round_ratio(w * r, 1)
}

/// The single-precision quotient of two integers.
pub fn divide(n: u64, d: u64) -> (v: u128)
    requires
        0 < d,
        n < 0x1_0000_0000_0000,
        d < 0x1_0000_0000_0000,
    ensures
        v == quotient(n as nat, d as nat),
{
    let wn: u128 = round_ratio(n as u128, 1);
    let wd: u128 = round_ratio(d as u128, 1);
    proof {
        lemma_nearest_size(n as nat);
        lemma_nearest_error(d as nat, 1);
        lemma_grain_positive(d as nat);
        assert((d as nat) / 1 == d as nat);
    }
    round_ratio(wn * ONE, wd)
}

/// The single-precision product of two values.
pub fn multiply(a: u128, b: u128) -> (v: u128)
    requires
        a < 0x1000_0000_0000_0000,
        b < 0x1000_0000_0000_0000,
    ensures
        v == product(a as nat, b as nat),
{
    proof {
        assert(a * b <= 0x1000_0000_0000_0000 * 0x1000_0000_0000_0000) by (nonlinear_arith)
            requires
                a <= 0x1000_0000_0000_0000,
                b <= 0x1000_0000_0000_0000,
        ;
    }
    round_ratio(a * b, ONE)
}

/// The single-precision difference of two values, without its sign.
pub fn gap(a: u128, b: u128) -> (v: u128)
    requires
        a < 0x4000_0000_0000_0000_0000_0000_0000_0000,
        b < 0x4000_0000_0000_0000_0000_0000_0000_0000,
    ensures
        v == distance(a as nat, b as nat),
{
    if a >= b {
        round_ratio(a - b, 1)
    } else {
        round_ratio(b - a, 1)
    }
}

/// The single-precision value nearest to a signed number of units.
pub fn round_signed(v: i128) -> (r: i128)
    requires
        -0x1000_0000_0000_0000_0000_0000_0000_0000 < v < 0x1000_0000_0000_0000_0000_0000_0000_0000,
    ensures
        r == signed(v as int),
        -0x2000_0000_0000_0000_0000_0000_0000_0000 < r < 0x2000_0000_0000_0000_0000_0000_0000_0000,
{
    if v >= 0 {
        proof {
            lemma_nearest_size(v as nat);
        }
        round_ratio(v as u128, 1) as i128
    } else {
        proof {
            lemma_nearest_size((-v) as nat);
        }
        -(round_ratio((-v) as u128, 1) as i128)
    }
}

proof fn lemma_grain_divides(q: nat, k: nat, p: nat)
    requires
        p == vstd::arithmetic::power2::pow2(k),
        q < 0x100_0000 * p,
    ensures
        exists|c: nat| #[trigger] (c * grain(q)) == p,
    decreases k,
{
    vstd::arithmetic::power2::lemma2_to64();
    if q < 0x100_0000 {
        assert(grain(q) == 1);
        assert(p * 1 == p);
        assert(p * grain(q) == p);
    } else {
        assert(k > 0);
        vstd::arithmetic::power2::lemma_pow2_unfold(k);
        let half = vstd::arithmetic::power2::pow2((k - 1) as nat);
        lemma_grain_divides(q / 2, (k - 1) as nat, half);
        let c = choose|c: nat| #[trigger] (c * grain(q / 2)) == half;
        assert(c * (2 * grain(q / 2)) == 2 * (c * grain(q / 2))) by (nonlinear_arith);
        assert(c * grain(q) == p);
    }
}

/// The rounded quotient of two numbers is at most one where the exact one is, and is one where
/// they are equal.
pub proof fn lemma_quotient_at_most_one(n: nat, d: nat)
    requires
        0 < d,
        n <= d <= 0x100_0000,
    ensures
        quotient(n, d) <= ONE,
        n == d ==> quotient(n, d) == ONE,
{
    lemma_whole_exact(n);
    lemma_whole_exact(d);
    let top = n * ONE as nat;
    let q = top / d;
    assert(q <= ONE) by (nonlinear_arith)
        requires
            q == top / d,
            top == n * ONE as nat,
            n <= d,
            d > 0,
    ;
    vstd::arithmetic::power2::lemma2_to64();
    lemma_grain_divides(q, 29, 0x2000_0000);
    let g = grain(q);
    lemma_grain_positive(q);
    let c = choose|c: nat| #[trigger] (c * g) == 0x2000_0000nat;
    let m = c * 0x80_0000;
    assert(m * g == ONE) by (nonlinear_arith)
        requires
            m == c * 0x80_0000,
            c * g == 0x2000_0000,
            ONE == 4503599627370496,
    ;
    let dg = d * g;
    assert(dg > 0) by (nonlinear_arith)
        requires
            dg == d * g,
            d > 0,
            g > 0,
    ;
    assert(top <= m * dg) by (nonlinear_arith)
        requires
            top == n * ONE as nat,
            m * g == ONE,
            dg == d * g,
            n <= d,
    ;
    assert(n == d ==> top == m * dg) by (nonlinear_arith)
        requires
            top == n * ONE as nat,
            m * g == ONE,
            dg == d * g,
    ;
    vstd::arithmetic::div_mod::lemma_fundamental_div_mod(top as int, dg as int);
    let k = top / dg;
    let r = top % dg;
    assert(dg * k == k * dg) by (nonlinear_arith);
    if k >= m {
        assert(k == m && r == 0) by (nonlinear_arith)
            requires
                k >= m,
                top == k * dg + r,
                top <= m * dg,
                dg > 0,
                r >= 0,
        ;
    } else {
        assert(k * dg + r < m * dg) by (nonlinear_arith)
            requires
                k < m,
                r < dg,
        ;
    }
    let e = half_even(top, dg);
    assert(e <= m);
    assert(e * g <= m * g) by (nonlinear_arith)
        requires
            e <= m,
    ;
}

/// A share of a length of less than 24 bits is at most the length.
pub proof fn lemma_scaled_at_most(i: nat, r: nat)
    requires
        i < 0x100_0000,
        r <= ONE,
    ensures
        scaled(i, r) <= i * ONE,
        floor(scaled(i, r)) <= i,
{
    lemma_whole_exact(i);
    let n = i * r;
    let top = i * 4503599627370496;
    assert(n <= top) by (nonlinear_arith)
        requires
            n == i * r,
            r <= 4503599627370496,
            top == i * 4503599627370496,
    ;
    assert(n / 1 == n);
    vstd::arithmetic::power2::lemma2_to64();
    vstd::arithmetic::power2::lemma_pow2_adds(26, 26);
    lemma_grain_divides(n, 52, 4503599627370496);
    let g = grain(n);
    lemma_grain_positive(n);
    let c = choose|c: nat| #[trigger] (c * g) == 4503599627370496nat;
    let m = i * c;
    assert(m * g == top) by (nonlinear_arith)
        requires
            m == i * c,
            c * g == 4503599627370496,
            top == i * 4503599627370496,
    ;
    assert(1 * g == g);
    let k = n / g;
    let rem = n % g;
    vstd::arithmetic::div_mod::lemma_fundamental_div_mod(n as int, g as int);
    assert(g * k == k * g) by (nonlinear_arith);
    if k >= m {
        assert(k == m && rem == 0) by (nonlinear_arith)
            requires
                k >= m,
                n == k * g + rem,
                n <= m * g,
                g > 0,
                rem >= 0,
        ;
    }
    let e = half_even(n, g);
    assert(e <= m);
    assert(e * g <= m * g) by (nonlinear_arith)
        requires
            e <= m,
    ;
    assert(scaled(i, r) <= top);
    assert(scaled(i, r) / 4503599627370496nat <= i);
}

/// The single-precision quotient of the values `a` and `b`.
pub open spec fn ratio(a: nat, b: nat) -> nat {
    nearest(a * ONE as nat, b)
}

/// The single-precision quotient of two values.
pub fn divide_values(a: u128, b: u128) -> (v: u128)
    requires
        a < 0x1000_0000_0000_0000,
        0 < b,
    ensures
        v == ratio(a as nat, b as nat),
{
    round_ratio(a * ONE, b)
}

/// The single-precision sum of the values `a` and `b`.
pub open spec fn sum(a: nat, b: nat) -> nat {
    nearest(a + b, 1)
}

/// The single-precision sum of two values.
pub fn plus(a: u128, b: u128) -> (v: u128)
    requires
        a < 0x1000_0000_0000_0000_0000_0000_0000_0000,
        b < 0x1000_0000_0000_0000_0000_0000_0000_0000,
    ensures
        v == sum(a as nat, b as nat),
{
    round_ratio(a + b, 1)
}

/// Rounding at most doubles a quotient.
pub proof fn lemma_nearest_at_most(n: nat, d: nat)
    requires
        0 < d,
    ensures
        nearest(n, d) <= 2 * (n / d) + 1,
{
    let q = n / d;
    let g = grain(q);
    lemma_grain_positive(q);
    let dg = d * g;
    assert(dg >= 1) by (nonlinear_arith)
        requires
            d >= 1,
            g >= 1,
            dg == d * g,
    ;
    let m = n / dg;
    vstd::arithmetic::div_mod::lemma_div_denominator(n as int, d as int, g as int);
    assert(m == q / g);
    assert(m * g <= q) by (nonlinear_arith)
        requires
            m == q / g,
            g >= 1,
    ;
    let e = half_even(n, dg);
    assert(e <= m + 1);
    assert(e * g <= m * g + g) by (nonlinear_arith)
        requires
            e <= m + 1,
    ;
}

proof fn lemma_grain_doubles(a: nat, b: nat)
    requires
        a <= b,
    ensures
        grain(a) == grain(b) || 2 * grain(a) <= grain(b),
    decreases b,
{
    if b >= 0x100_0000 {
        lemma_grain_positive(b / 2);
        if a >= 0x100_0000 {
            lemma_grain_doubles(a / 2, b / 2);
        }
    }
}

/// Rounding to a multiple of `g` passes no multiple of `g`.
proof fn lemma_half_even_between(n: nat, g: nat, k: nat)
    requires
        0 < g,
    ensures
        n <= k * g ==> half_even(n, g) <= k,
        n >= k * g ==> half_even(n, g) >= k,
{
    vstd::arithmetic::div_mod::lemma_fundamental_div_mod(n as int, g as int);
    let q = n / g;
    let r = n % g;
    assert(g * q == q * g) by (nonlinear_arith);
    if n <= k * g {
        assert(q < k || (q == k && r == 0)) by (nonlinear_arith)
            requires
                n == q * g + r,
                n <= k * g,
                0 <= r < g,
        ;
    }
    if n >= k * g {
        assert(q >= k) by (nonlinear_arith)
            requires
                n == q * g + r,
                n >= k * g,
                0 <= r < g,
        ;
    }
}

proof fn lemma_half_even_order(a: nat, b: nat, g: nat)
    requires
        0 < g,
        a <= b,
    ensures
        half_even(a, g) <= half_even(b, g),
{
    vstd::arithmetic::div_mod::lemma_fundamental_div_mod(a as int, g as int);
    vstd::arithmetic::div_mod::lemma_fundamental_div_mod(b as int, g as int);
    vstd::arithmetic::div_mod::lemma_div_is_ordered(a as int, b as int, g as int);
}

/// Rounding keeps the order of quotients.
pub proof fn lemma_nearest_order(a: nat, b: nat, d: nat)
    requires
        a <= b,
        0 < d,
    ensures
        nearest(a, d) <= nearest(b, d),
{
    let qa = a / d;
    let qb = b / d;
    vstd::arithmetic::div_mod::lemma_div_is_ordered(a as int, b as int, d as int);
    let ga = grain(qa);
    let gb = grain(qb);
    lemma_grain_positive(qa);
    lemma_grain_positive(qb);
    lemma_grain_doubles(qa, qb);
    let da = d * ga;
    let db = d * gb;
    assert(da > 0 && db > 0) by (nonlinear_arith)
        requires
            da == d * ga,
            db == d * gb,
            d > 0,
            ga > 0,
            gb > 0,
    ;
    let ma = half_even(a, da);
    let mb = half_even(b, db);
    if ga == gb {
        lemma_half_even_order(a, b, da);
        assert(ma * ga <= mb * gb) by (nonlinear_arith)
            requires
                ma <= mb,
                ga == gb,
        ;
    } else {
        assert(a <= 0x100_0000 * da) by (nonlinear_arith)
            requires
                qa == a / d,
                qa < 0x100_0000 * ga,
                da == d * ga,
                d > 0,
        ;
        assert(b >= 0x80_0000 * db) by (nonlinear_arith)
            requires
                qb == b / d,
                qb >= 0x80_0000 * gb,
                db == d * gb,
                d > 0,
        ;
        lemma_half_even_between(a, da, 0x100_0000);
        lemma_half_even_between(b, db, 0x80_0000);
        assert(ma * ga <= 0x100_0000 * ga) by (nonlinear_arith)
            requires
                ma <= 0x100_0000,
        ;
        assert(mb * gb >= 0x80_0000 * gb) by (nonlinear_arith)
            requires
                mb >= 0x80_0000,
        ;
    }
}

/// A larger share of a length, and a share of a larger length, is not smaller.
pub proof fn lemma_scaled_order(i: nat, j: nat, r: nat, s: nat)
    requires
        i <= j,
        r <= s,
    ensures
        scaled(i, r) <= scaled(j, s),
{
    lemma_nearest_order(i, j, 1);
    assert(whole(i) * r <= whole(j) * s) by (nonlinear_arith)
        requires
            whole(i) <= whole(j),
            r <= s,
    ;
    lemma_nearest_order(whole(i) * r, whole(j) * s, 1);
}

/// Quotients of smaller numbers are below one.
pub proof fn lemma_quotient_below_one(n: nat, d: nat)
    requires
        n < d <= 0x100_0000,
    ensures
        quotient(n, d) < ONE,
{
    lemma_whole_exact(n);
    lemma_whole_exact(d);
    let top = n * 4503599627370496;
    // n / d is at most 1 - 2^-24, which has 24 bits.
    let edge = 4503599627370496nat - 268435456nat;
    assert(top <= d * edge) by (nonlinear_arith)
        requires
            top == n * 4503599627370496,
            edge == 4503599627370496 - 268435456,
            n + 1 <= d,
            d <= 0x100_0000,
    ;
    lemma_nearest_order(top, (d * edge) as nat, d);
    lemma_nearest_multiplied(edge as nat, 1, d);
    assert(d * 1 == d);
    assert(edge / 1 == edge);
    vstd::arithmetic::power2::lemma2_to64();
    lemma_grain_at(edge as nat);
    assert(nearest(edge as nat, 1) == edge);
}

proof fn lemma_grain_at(edge: nat)
    requires
        edge == 4503599627370496nat - 268435456nat,
    ensures
        grain(edge) == 268435456,
        nearest(edge, 1) == edge,
{
    lemma_grain_shift(28, 0xff_ffff);
    vstd::arithmetic::power2::lemma2_to64();
    assert(edge == 268435456 * 0xff_ffff);
    let g = grain(edge);
    assert(edge / 1 == edge);
    assert(1 * g == g);
    assert(edge / 268435456 == 0xff_ffff && edge % 268435456 == 0);
    assert(half_even(edge, 268435456) == 0xff_ffff);
}

proof fn lemma_grain_shift(k: nat, m: nat)
    requires
        0x80_0000 <= m < 0x100_0000,
    ensures
        grain(vstd::arithmetic::power2::pow2(k) * m) == vstd::arithmetic::power2::pow2(k),
    decreases k,
{
    let p = vstd::arithmetic::power2::pow2(k);
    if k == 0 {
        vstd::arithmetic::power2::lemma2_to64();
        assert(1 * m == m);
    } else {
        let half = vstd::arithmetic::power2::pow2((k - 1) as nat);
        vstd::arithmetic::power2::lemma_pow2_unfold(k);
        vstd::arithmetic::power2::lemma_pow2_pos((k - 1) as nat);
        lemma_grain_shift((k - 1) as nat, m);
        assert(p * m == 2 * (half * m)) by (nonlinear_arith)
            requires
                p == 2 * half,
        ;
        assert(half * m >= 0x80_0000) by (nonlinear_arith)
            requires
                half >= 1,
                m >= 0x80_0000,
        ;
        assert((p * m) / 2 == half * m);
    }
}

/// Rounding to single precision changes a value by at most one part in 2^24.
pub proof fn lemma_nearest_close(n: nat)
    ensures
        0x100_0000 * nearest(n, 1) <= 0x100_0001 * n,
        0x100_0000 * nearest(n, 1) >= 0xff_ffff * n,
{
    assert(n / 1 == n);
    lemma_nearest_error(n, 1);
    lemma_grain_positive(n);
    if n < 0x100_0000 {
        lemma_nearest_size(n);
    }
}

/// Rounding a quotient to single precision changes it by at most one part in 2^24 and half a unit.
pub proof fn lemma_ratio_close(n: nat, d: nat)
    requires
        0 < d,
    ensures
        0x100_0000 * (nearest(n, d) * d) <= 0x100_0001 * n + 0x80_0000 * d,
        0x100_0000 * (nearest(n, d) * d) + 0x80_0000 * d >= 0xff_ffff * n,
{
    let q = n / d;
    let g = grain(q);
    lemma_nearest_error(n, d);
    lemma_grain_positive(q);
    vstd::arithmetic::div_mod::lemma_fundamental_div_mod(n as int, d as int);
    assert(d * q <= n);
    if g > 1 {
        assert(d * (0x80_0000 * g) <= d * q) by (nonlinear_arith)
            requires
                0x80_0000 * g <= q,
                d > 0,
        ;
        assert(d * (0x80_0000 * g) == 0x80_0000 * (d * g)) by (nonlinear_arith);
    } else {
        assert(g == 1);
        assert(d * g == d) by (nonlinear_arith)
            requires
                g == 1,
        ;
    }
}

/// Whole multiples, at most 2^24, of a power of two are held exactly.
pub proof fn lemma_multiple_exact(k: nat, e: nat)
    requires
        k <= 0x100_0000,
    ensures
        nearest(k * vstd::arithmetic::power2::pow2(e), 1) == k * vstd::arithmetic::power2::pow2(e),
{
    let p = vstd::arithmetic::power2::pow2(e);
    let n = k * p;
    vstd::arithmetic::power2::lemma_pow2_pos(e);
    assert(n / 1 == n);
    let top = k == 0x100_0000;
    let f = if top {
        e + 1
    } else {
        e
    };
    let pf = vstd::arithmetic::power2::pow2(f);
    vstd::arithmetic::power2::lemma_pow2_unfold(e + 1);
    assert(n < 0x100_0000 * pf) by (nonlinear_arith)
        requires
            n == k * p,
            p > 0,
            k < 0x100_0000 && pf == p || k == 0x100_0000 && pf == 2 * p,
    ;
    lemma_grain_divides(n, f, pf);
    let g = grain(n);
    let c = choose|c: nat| #[trigger] (c * grain(n)) == pf;
    lemma_grain_positive(n);
    let m = if top {
        0x80_0000nat * c
    } else {
        k * c
    };
    assert(m * g == n) by {
        if top {
            assert((0x80_0000nat * c) * g == 0x80_0000nat * (c * g)) by (nonlinear_arith);
        } else {
            assert((k * c) * g == k * (c * g)) by (nonlinear_arith);
        }
    }
    vstd::arithmetic::div_mod::lemma_div_multiples_vanish(m as int, g as int);
    vstd::arithmetic::div_mod::lemma_mod_multiples_basic(m as int, g as int);
    assert(1 * g == g);
    assert(m * g == g * m) by (nonlinear_arith);
    assert(half_even(n, g) == m);
}

/// Whole numbers of at most 2^24 and their halves are held exactly.
pub proof fn lemma_whole_value(k: nat)
    requires
        k <= 0x100_0000,
    ensures
        nearest(k * 4503599627370496, 1) == k * 4503599627370496,
        nearest(k * 2251799813685248, 1) == k * 2251799813685248,
{
    vstd::arithmetic::power2::lemma2_to64();
    assert(vstd::arithmetic::power2::pow2(52) == 4503599627370496) by {
        vstd::arithmetic::power2::lemma_pow2_adds(32, 20);
    }
    assert(vstd::arithmetic::power2::pow2(51) == 2251799813685248) by {
        vstd::arithmetic::power2::lemma_pow2_adds(32, 19);
    }
    lemma_multiple_exact(k, 52);
    lemma_multiple_exact(k, 51);
}

/// Whole differences of less than 2^24 either way are held exactly.
pub proof fn lemma_signed_whole(k: int)
    requires
        -0x100_0000 <= k <= 0x100_0000,
    ensures
        signed(k * 4503599627370496) == k * 4503599627370496,
{
    if k >= 0 {
        lemma_whole_value(k as nat);
    } else {
        lemma_whole_value((-k) as nat);
        assert((-k) * 4503599627370496 == -(k * 4503599627370496));
    }
}

/// Scaling a whole number gives the exact product, but for at most one part in 2^24.
pub proof fn lemma_scaled_close(i: nat, r: nat)
    requires
        i <= 0x100_0000,
    ensures
        0x100_0000 * scaled(i, r) <= 0x100_0001 * (i * r),
        0x100_0000 * scaled(i, r) >= 0xff_ffff * (i * r),
{
    lemma_whole_exact(i);
    lemma_nearest_close(i * r);
}

/// A quotient is rounded to the same value where both of its numbers are multiplied.
pub proof fn lemma_nearest_multiplied(n: nat, d: nat, c: nat)
    requires
        0 < d,
        0 < c,
    ensures
        nearest(c * n, c * d) == nearest(n, d),
{
    vstd::arithmetic::div_mod::lemma_div_multiples_vanish_quotient(c as int, n as int, d as int);
    let g = grain(n / d);
    lemma_grain_positive(n / d);
    let dg = d * g;
    assert(dg > 0) by (nonlinear_arith)
        requires
            dg == d * g,
            d > 0,
            g > 0,
    ;
    assert((c * d) * g == c * dg) by (nonlinear_arith)
        requires
            dg == d * g,
    ;
    vstd::arithmetic::div_mod::lemma_div_multiples_vanish_quotient(c as int, n as int, dg as int);
    vstd::arithmetic::div_mod::lemma_truncate_middle(n as int, c as int, dg as int);
    let r = n % dg;
    assert((2 * (c * r) > c * dg) == (2 * r > dg) && (2 * (c * r) == c * dg) == (2 * r == dg)) by (nonlinear_arith)
        requires
            c > 0,
    ;
    assert(half_even(c * n, c * dg) == half_even(n, dg));
}

/// The quotient of a number and one that is not smaller is small: below sixteen.
pub proof fn lemma_quotient_small(n: nat, d: nat)
    requires
        0 < d < 0x8000_0000,
        n <= d,
    ensures
        quotient(n, d) < 16 * ONE,
{
    lemma_nearest_size(n);
    lemma_nearest_error(d, 1);
    lemma_grain_positive(d);
    assert(d / 1 == d);
    let a = whole(n);
    let b = whole(d);
    assert(a <= 3 * d);
    assert(2 * b >= d);
    let top = a * 4503599627370496;
    let q = top / b;
    assert(q <= 6 * 4503599627370496) by (nonlinear_arith)
        requires
            top == a * 4503599627370496,
            q == top / b,
            a <= 6 * b,
            b > 0,
    ;
    lemma_nearest_at_most(top, b);
}

/// A quotient is rounded to the nearest whole number, to the even one where two are equally near.
pub proof fn lemma_half_even(n: nat, d: nat)
    requires
        0 < d,
    ensures
        ({
            let h = half_even(n, d);
            &&& 2 * (h * d) <= 2 * n + d
            &&& 2 * n <= 2 * (h * d) + d
            &&& 2 * (h * d) == 2 * n + d || 2 * n == 2 * (h * d) + d ==> h % 2 == 0
        }),
{
    vstd::arithmetic::div_mod::lemma_fundamental_div_mod(n as int, d as int);
    let q = n / d;
    let r = n % d;
    assert(q * d == d * q) by (nonlinear_arith);
    assert((q + 1) * d == q * d + d) by (nonlinear_arith);
}

/// Rounded values have at most 24 significant bits.
pub proof fn lemma_nearest_bits(n: nat)
    ensures
        nearest(n, 1) % grain(n) == 0,
        nearest(n, 1) <= 0x100_0000 * grain(n),
{
    let g = grain(n);
    lemma_grain_positive(n);
    assert(n / 1 == n);
    assert(1 * g == g);
    lemma_half_even_between(n, g, 0x100_0000);
    let h = half_even(n, g);
    assert(h * g <= 0x100_0000 * g) by (nonlinear_arith)
        requires
            h <= 0x100_0000,
            g >= 1,
    ;
    vstd::arithmetic::div_mod::lemma_mod_multiples_basic(h as int, g as int);
}

/// Differences: the one the other way round has the other sign, distances do not depend on the order, and a value is no
/// distance from itself.
pub proof fn lemma_differences(a: nat, b: nat, v: int)
    ensures
        distance(a, b) == distance(b, a),
        distance(a, a) == 0,
        signed(-v) == -signed(v),
        signed(0) == 0,
        v > 0 ==> signed(v) > 0,
        a != b ==> distance(a, b) > 0,
{
    lemma_nearest_close(0);
    lemma_nearest_order(1, 1, 1);
    lemma_nearest_size(1);
    if v > 0 {
        lemma_nearest_order(1, v as nat, 1);
    } else if v < 0 {
        lemma_nearest_order(1, (-v) as nat, 1);
    }
    if a > b {
        lemma_nearest_order(1, (a - b) as nat, 1);
    } else if b > a {
        lemma_nearest_order(1, (b - a) as nat, 1);
    }
}

/// The whole part of a value is the greatest whole number that is not greater; a rounded value is the nearest whole
/// number, the greater of two.
pub proof fn lemma_whole_parts(v: nat)
    ensures
        floor(v) * 4503599627370496 <= v < (floor(v) + 1) * 4503599627370496,
        2 * (rounded(v) * 4503599627370496) <= 2 * v + 4503599627370496,
        2 * v < 2 * (rounded(v) * 4503599627370496) + 4503599627370496,
{
    let r = rounded(v);
    assert(r == (2 * v + 4503599627370496) / 9007199254740992nat);
}

/// Products and quotients: by one nothing changes, and both arguments of a product may be exchanged.
pub proof fn lemma_product(a: nat, b: nat)
    ensures
        product(a, b) == product(b, a),
        product(0, b) == 0,
        a < 0x100_0000 ==> product(a * 4503599627370496, 4503599627370496) == a * 4503599627370496,
{
    assert(a * b == b * a) by (nonlinear_arith);
    assert(0 * b == 0) by (nonlinear_arith);
    lemma_ratio_close(0, 4503599627370496);
    if a < 0x100_0000 {
        let n = a * 4503599627370496;
        lemma_whole_value(a);
        lemma_nearest_multiplied(n, 1, 4503599627370496);
        assert(4503599627370496 * n == n * 4503599627370496);
    }
}

} // verus!
