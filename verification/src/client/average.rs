//! The moving average of latencies, as double-precision arithmetic gives it.
//!
//! A double holds 53 significant bits. Its value is counted here in units of 2^-54, so that every
//! number that comes up is a whole number of units, and every operation is one on whole numbers
//! followed by a rounding to 53 bits.

use vstd::prelude::*;

verus! {

/// What 53 bits can count to, and one more.
pub const SIGNIFICANT: u128 = 9_007_199_254_740_992;

/// The units in one.
pub const UNITS: u128 = 18_014_398_509_481_984;

/// The double nearest to seven tenths, in units.
pub const SEVEN_TENTHS: u128 = 12_610_078_956_637_388;

/// The double nearest to three tenths, in units.
pub const THREE_TENTHS: u128 = 5_404_319_552_844_595;

/// How far apart doubles of the size of `n` lie: the smallest power of two of which 53 bits count
/// at least as far as `n`.
pub open spec fn grain(n: nat) -> nat
    decreases n,
{
    if n < SIGNIFICANT {
        1
    } else {
        2 * grain(n / 2)
    }
}

/// The double nearest to `n` units; of two that are equally near, the one whose last bit is zero.
pub open spec fn rounded(n: nat) -> nat {
    let (q, r) = (n / grain(n), n % grain(n));
    if 2 * r < grain(n) || (2 * r == grain(n) && q % 2 == 0) {
        q * grain(n)
    } else {
        (q + 1) * grain(n)
    }
}

/// `old * 0.7 + new * 0.3` in doubles, rounded to a whole number, halves upwards.
pub open spec fn averaged(old_value: nat, new_value: nat) -> nat {
    let sum = rounded(rounded(old_value * SEVEN_TENTHS as nat) + rounded(
        new_value * THREE_TENTHS as nat,
    ));
    (sum + SIGNIFICANT as nat) / (UNITS as nat)
}

proof fn lemma_grain(n: nat)
    ensures
        grain(n) >= 1,
        grain(n) > 1 ==> grain(n) * 0x10_0000_0000_0000 <= n,
    decreases n,
{
    if n >= SIGNIFICANT {
        lemma_grain(n / 2);
    }
}

/// Rounding moves a number by no more than the distance between doubles of its size.
proof fn lemma_rounded(n: nat)
    requires
        n < 0x400_0000_0000_0000_0000_0000,
    ensures
        1 <= grain(n) <= 0x40_0000_0000,
        n - 0x40_0000_0000 <= rounded(n) <= n + 0x40_0000_0000,
{
    lemma_grain(n);
    let u = grain(n) as int;
    vstd::arithmetic::div_mod::lemma_fundamental_div_mod(n as int, u);
    let (q, r) = (n as int / u, n as int % u);
    assert(0 <= r < u) by {
        vstd::arithmetic::div_mod::lemma_mod_bound(n as int, u);
    }
    assert(q * u == u * q && (q + 1) * u == u * q + u) by (nonlinear_arith);
}

/// The average is the whole number nearest to seven tenths of the old value and three of the new
/// one. It is no larger than the larger of the two.
pub proof fn law_the_average_is_the_nearest(old_value: u32, new_value: u32)
    ensures
        -5 <= 10 * averaged(old_value as nat, new_value as nat) - (7 * old_value + 3 * new_value)
            <= 5,
        averaged(old_value as nat, new_value as nat) <= old_value || averaged(
            old_value as nat,
            new_value as nat,
        ) <= new_value,
{
    let a = (old_value * SEVEN_TENTHS) as nat;
    let b = (new_value * THREE_TENTHS) as nat;
    lemma_rounded(a);
    lemma_rounded(b);
    lemma_rounded(rounded(a) + rounded(b));
    let sum = rounded(rounded(a) + rounded(b));
    let r = averaged(old_value as nat, new_value as nat);
    assert(r * 18_014_398_509_481_984 <= sum + SIGNIFICANT < (r + 1) * 18_014_398_509_481_984);
}

/// How far apart doubles of the size of `n` lie.
fn find_grain(n: u128) -> (r: u128)
    requires
        n < 0x400_0000_0000_0000_0000_0000,
    ensures
        r == grain(n as nat),
{
    let mut m: u128 = n;
    let mut u: u128 = 1;
    while m >= SIGNIFICANT
        invariant
            n < 0x400_0000_0000_0000_0000_0000,
            u >= 1,
            u * m <= n,
            grain(n as nat) == u * grain(m as nat),
        decreases m,
    {
        assert(u * 9_007_199_254_740_992 <= u * m) by (nonlinear_arith)
            requires
                9_007_199_254_740_992 <= m,
        ;
        assert((u * 2) * (m / 2) <= u * m) by (nonlinear_arith);
        assert(u * (2 * grain((m / 2) as nat)) == (u * 2) * grain((m / 2) as nat))
            by (nonlinear_arith);
        m = m / 2;
        u = u * 2;
    }
    assert(u * 1 == u) by (nonlinear_arith);
    u
}

/// The double nearest to `n` units.
fn round_units(n: u128) -> (r: u128)
    requires
        n < 0x400_0000_0000_0000_0000_0000,
    ensures
        r == rounded(n as nat),
        r <= n + 0x40_0000_0000,
{
    let u: u128 = find_grain(n);
    proof {
        lemma_rounded(n as nat);
        vstd::arithmetic::div_mod::lemma_fundamental_div_mod(n as int, u as int);
    }
    let q: u128 = n / u;
    let rest: u128 = n % u;
    assert(q * u == u * q && (q + 1) * u == u * q + u) by (nonlinear_arith);
    assert(q <= n) by (nonlinear_arith)
        requires
            u * q <= n,
            u >= 1,
            q >= 0,
    ;
    if 2 * rest < u || (2 * rest == u && q % 2 == 0) {
        q * u
    } else {
        (q + 1) * u
    }
}

/// `old * 0.7 + new * 0.3` in doubles, rounded to a whole number.
pub fn average(old_value: u32, new_value: u32) -> (r: u32)
    ensures
        r == averaged(old_value as nat, new_value as nat),
{
    let a: u128 = round_units(old_value as u128 * SEVEN_TENTHS);
    let b: u128 = round_units(new_value as u128 * THREE_TENTHS);
    let sum: u128 = round_units(a + b);
    proof {
        law_the_average_is_the_nearest(old_value, new_value);
    }
    ((sum + SIGNIFICANT) / UNITS) as u32
}

}
