//! Double-precision seconds, held as integers.
//!
//! A non-negative binary64 number of seconds is held as a whole number of units of 2^-82 of a second,
//! which every time from one nanosecond on is. Sums and differences are taken exactly and then rounded
//! to the 53 significant bits of the format, ties to even.

use crate::single;
use vstd::prelude::*;

verus! {

/// The power of two by which `q` is divided to leave at most 53 bits.
pub open spec fn grain(q: nat) -> nat
    decreases q,
{
    if q < 0x20_0000_0000_0000 {
        1
    } else {
        2 * grain(q / 2)
    }
}

/// The value of 53 significant bits that is nearest to `n`, ties to even.
pub open spec fn nearest(n: nat) -> nat {
    single::half_even(n, grain(n)) * grain(n)
}

/// The double-precision sum of two times.
pub open spec fn sum(a: u128, b: u128) -> nat {
    nearest((a + b) as nat)
}

/// The double-precision difference of two times.
pub open spec fn difference(a: u128, b: u128) -> int {
    if a >= b {
        nearest((a - b) as nat) as int
    } else {
        -(nearest((b - a) as nat) as int)
    }
}

/// Rounds a time to 53 significant bits.
pub fn round(n: u128) -> (r: u128)
    requires
        n < 0x4000_0000_0000_0000_0000_0000_0000_0000,
    ensures
        r == nearest(n as nat),
        r <= 2 * n,
{
    let mut t: u128 = n;
    let mut g: u128 = 1;
    assert(g * grain(t as nat) == grain(n as nat));
    while t >= 0x20_0000_0000_0000
        invariant
            n < 0x4000_0000_0000_0000_0000_0000_0000_0000,
            1 <= g,
            t == n / g,
            g * grain(t as nat) == grain(n as nat),
            g <= n || g == 1,
        decreases t,
    {
        proof {
            vstd::arithmetic::div_mod::lemma_div_denominator(n as int, g as int, 2);
            assert(g * (2 * grain((t / 2) as nat)) == (g * 2) * grain((t / 2) as nat)) by (nonlinear_arith);
            assert(g * t <= n) by (nonlinear_arith)
                requires
                    t == n / g,
                    g >= 1,
            ;
            assert(g * 0x20_0000_0000_0000 <= g * t) by (nonlinear_arith)
                requires
                    t >= 0x20_0000_0000_0000,
                    g >= 1,
            ;
        }
        t = t / 2;
        g = g * 2;
    }
    let m: u128 = n / g;
    let rem: u128 = n % g;
    proof {
        assert(grain(t as nat) == 1);
        assert(g * 1 == g);
        assert(m * g <= n) by (nonlinear_arith)
            requires
                m == n / g,
                g >= 1,
        ;
        assert((m + 1) * g == m * g + g) by (nonlinear_arith);
        if g > n {
            assert(g == 1 && n == 0);
        }
    }
    if rem > g - rem || (rem == g - rem && m % 2 == 1) {
        (m + 1) * g
    } else {
        m * g
    }
}

pub proof fn lemma_grain(q: nat)
    ensures
        grain(q) >= 1,
        grain(q) > 1 ==> 0x10_0000_0000_0000 * grain(q) <= q,
        q < 0x20_0000_0000_0000 * grain(q),
    decreases q,
{
    if q >= 0x20_0000_0000_0000 {
        lemma_grain(q / 2);
    }
}

proof fn lemma_grain_doubles(a: nat, b: nat)
    requires
        a <= b,
    ensures
        grain(a) == grain(b) || 2 * grain(a) <= grain(b),
    decreases b,
{
    if b >= 0x20_0000_0000_0000 {
        lemma_grain(b / 2);
        if a >= 0x20_0000_0000_0000 {
            lemma_grain_doubles(a / 2, b / 2);
        }
    }
}

/// Rounding to a multiple of `g` passes no multiple of `g`.
proof fn lemma_half_even_between(n: nat, g: nat, k: nat)
    requires
        0 < g,
    ensures
        n <= k * g ==> single::half_even(n, g) <= k,
        n >= k * g ==> single::half_even(n, g) >= k,
{
    vstd::arithmetic::div_mod::lemma_fundamental_div_mod(n as int, g as int);
    let q = n / g;
    let r = n % g;
    assert(g * q == q * g) by (nonlinear_arith);
    if n <= k * g {
        assert(q < k || (q == k && r == 0)) by (nonlinear_arith)
            requires
                n == q * g + r,
                n <= k * g,
                0 <= r < g,
        ;
    }
    if n >= k * g {
        assert(q >= k) by (nonlinear_arith)
            requires
                n == q * g + r,
                n >= k * g,
                0 <= r < g,
        ;
    }
}

/// Rounding keeps the order of times, and at most doubles them.
pub proof fn lemma_nearest_order(a: nat, b: nat)
    requires
        a <= b,
    ensures
        nearest(a) <= nearest(b),
        nearest(b) <= 2 * b,
{
    let ga = grain(a);
    let gb = grain(b);
    lemma_grain(a);
    lemma_grain(b);
    lemma_grain_doubles(a, b);
    let ma = single::half_even(a, ga);
    let mb = single::half_even(b, gb);
    if ga == gb {
        lemma_half_even_between(b, gb, (b / gb) as nat);
        vstd::arithmetic::div_mod::lemma_fundamental_div_mod(a as int, ga as int);
        vstd::arithmetic::div_mod::lemma_fundamental_div_mod(b as int, gb as int);
        vstd::arithmetic::div_mod::lemma_div_is_ordered(a as int, b as int, ga as int);
        assert(ma <= mb);
        assert(ma * ga <= mb * gb) by (nonlinear_arith)
            requires
                ma <= mb,
                ga == gb,
        ;
    } else {
        lemma_half_even_between(a, ga, 0x20_0000_0000_0000);
        lemma_half_even_between(b, gb, 0x10_0000_0000_0000);
        assert(ma * ga <= 0x20_0000_0000_0000 * ga) by (nonlinear_arith)
            requires
                ma <= 0x20_0000_0000_0000,
        ;
        assert(mb * gb >= 0x10_0000_0000_0000 * gb) by (nonlinear_arith)
            requires
                mb >= 0x10_0000_0000_0000,
        ;
    }
    let q = (b / gb) as nat;
    vstd::arithmetic::div_mod::lemma_fundamental_div_mod(b as int, gb as int);
    if gb == 1 {
        assert(b % 1 == 0 && b / 1 == b);
        assert(mb == b);
        assert(mb * gb == b);
    } else {
        assert(mb * gb <= (q + 1) * gb) by (nonlinear_arith)
            requires
                mb <= q + 1,
        ;
        assert((q + 1) * gb == gb * q + gb) by (nonlinear_arith);
    }
}

/// Rounding a time to double precision changes it by at most one part in 2^53.
pub proof fn lemma_nearest_close(n: nat)
    ensures
        0x20_0000_0000_0000 * nearest(n) <= 0x20_0000_0000_0001 * n,
        0x20_0000_0000_0000 * nearest(n) >= 0x1f_ffff_ffff_ffff * n,
{
    let g = grain(n);
    lemma_grain(n);
    vstd::arithmetic::div_mod::lemma_fundamental_div_mod(n as int, g as int);
    let q = n / g;
    let r = n % g;
    assert(g * q == q * g) by (nonlinear_arith);
    assert((q + 1) * g == q * g + g) by (nonlinear_arith);
    if g == 1 {
        assert(r == 0);
    }
}

/// The order of two times does not matter for their sum; the difference the other way round has the other sign, and a
/// later time is never less after an earlier one.
pub proof fn lemma_times(a: u128, b: u128, later: u128)
    requires
        b <= later,
    ensures
        sum(a, b) == sum(b, a),
        difference(a, b) == -difference(b, a),
        difference(a, a) == 0,
        sum(a, b) <= sum(a, later),
        difference(b, a) <= difference(later, a),
{
    lemma_nearest_close(0);
    lemma_nearest_order((a + b) as nat, (a + later) as nat);
    if a <= b {
        lemma_nearest_order((b - a) as nat, (later - a) as nat);
    } else if later <= a {
        lemma_nearest_order((a - later) as nat, (a - b) as nat);
    }
}

} // verus!
