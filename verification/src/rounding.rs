//! Rounding of natural numbers to 53 significant bits.
//!
//! A double-precision number carries a 53-bit significand. When the exact
//! result of an operation is written as an integer count of some fixed unit
//! `2^-k`, rounding it to the nearest double is rounding that integer to the
//! nearest natural number with at most 53 significant bits, ties going to the
//! neighbour whose significand is even.

use vstd::prelude::*;
use vstd::arithmetic::div_mod::{
    lemma_div_denominator,
    lemma_fundamental_div_mod,
    lemma_fundamental_div_mod_converse,
    lemma_mod_multiples_basic,
};
use vstd::arithmetic::power2::{
    pow2,
    lemma_pow2_adds,
    lemma_pow2_pos,
    lemma_pow2_strictly_increases,
    lemma_pow2_unfold,
    lemma2_to64,
    lemma2_to64_rest,
};

verus! {

/// `2^53`: every natural number below it has at most 53 significant bits.
pub const SIGNIFICAND_LIMIT: u128 = 0x20_0000_0000_0000;

/// Largest argument accepted by [`round_nearest_even`]: `2^127 - 1`.
pub const ROUND_MAX: u128 = 0x7fff_ffff_ffff_ffff_ffff_ffff_ffff_ffff;

/// The gap between neighbouring naturals of at most 53 significant bits at
/// the magnitude of `m`: `1` below `2^53`, and doubling with every further
/// bit of `m`.
pub open spec fn ulp(m: nat) -> nat
    decreases m,
{
    if m < 0x20_0000_0000_0000 {
        1
    } else {
        2 * ulp(m / 2)
    }
}

/// The multiple of `p` nearest to `m`; when `m` lies halfway between two
/// multiples, the one with the even quotient.
pub open spec fn nearest_multiple(m: nat, p: nat) -> nat {
    let q = m / p;
    let r = m % p;
    if 2 * r < p || (2 * r == p && q % 2 == 0) {
        q * p
    } else {
        (q + 1) * p
    }
}

/// `m` rounded to 53 significant bits, to nearest, ties to even.
pub open spec fn round53(m: nat) -> nat {
    nearest_multiple(m, ulp(m))
}

/// The gap is positive, the quotient of `m` by it fits 53 bits, and from
/// `2^53` on it has at least 53 bits.
pub proof fn lemma_ulp_quotient(m: nat)
    ensures
        ulp(m) >= 1,
        m / ulp(m) < 0x20_0000_0000_0000,
        m >= 0x20_0000_0000_0000 ==> m / ulp(m) >= 0x10_0000_0000_0000,
    decreases m,
{
    if m >= 0x20_0000_0000_0000 {
        let h = m / 2;
        lemma_ulp_quotient(h);
        lemma_div_denominator(m as int, 2, ulp(h) as int);
        assert(m / ulp(m) == h / ulp(h));
        if h < 0x20_0000_0000_0000 {
            assert(h / 1 == h);
        }
    } else {
        assert(m / 1 == m);
    }
}

/// Below `2^k` the gap is at most `2^(k-53)`.
pub proof fn lemma_ulp_bound(m: nat, k: nat)
    requires
        k >= 53,
        m < pow2(k),
    ensures
        ulp(m) * 0x20_0000_0000_0000 <= pow2(k),
    decreases m,
{
    lemma2_to64_rest();
    if m >= 0x20_0000_0000_0000 {
        if k == 53 {
            assert(false);
        }
        lemma_pow2_unfold(k);
        lemma_ulp_bound(m / 2, (k - 1) as nat);
    } else if k > 53 {
        lemma_pow2_strictly_increases(53, k);
    }
}

/// Rounding moves a number by at most half a gap, lands on a multiple of the
/// gap, and leaves numbers of at most 53 significant bits alone.
pub proof fn lemma_round53_nearest(m: nat)
    ensures
        round53(m) % ulp(m) == 0,
        2 * (round53(m) - m) <= ulp(m),
        2 * (m - round53(m)) <= ulp(m),
        round53(m) / ulp(m) <= 0x20_0000_0000_0000,
        m < 0x20_0000_0000_0000 ==> round53(m) == m,
{
    let p = ulp(m);
    lemma_ulp_quotient(m);
    let q = m / p;
    let r = m % p;
    lemma_fundamental_div_mod(m as int, p as int);
    assert(m == p * q + r);
    assert(q * p == p * q) by (nonlinear_arith);
    assert((q + 1) * p == p * q + p) by (nonlinear_arith);
    lemma_fundamental_div_mod_converse((q * p) as int, p as int, q as int, 0);
    lemma_fundamental_div_mod_converse(((q + 1) * p) as int, p as int, (q + 1) as int, 0);
    if m < 0x20_0000_0000_0000 {
        assert(m / 1 == m);
        assert(m % 1 == 0);
    }
}

/// Rounding never crosses a power of two from below.
pub proof fn lemma_round53_bound(m: nat, k: nat)
    requires
        k >= 53,
        m < pow2(k),
    ensures
        round53(m) <= pow2(k),
{
    let p = ulp(m);
    lemma_ulp_quotient(m);
    lemma_ulp_bound(m, k);
    let q = m / p;
    assert(q * p <= (q + 1) * p) by (nonlinear_arith)
        requires
            p >= 0,
            q >= 0,
    ;
    assert((q + 1) * p <= p * 0x20_0000_0000_0000) by (nonlinear_arith)
        requires
            q + 1 <= 0x20_0000_0000_0000,
            p >= 0,
    ;
}

/// A number whose quotient by `2^s` has exactly 53 bits has the gap `2^s`.
pub proof fn lemma_ulp_at(m: nat, s: nat)
    requires
        0x10_0000_0000_0000 <= m / pow2(s) < 0x20_0000_0000_0000,
    ensures
        ulp(m) == pow2(s),
    decreases s,
{
    lemma2_to64();
    if s == 0 {
        assert(m / 1 == m);
    } else {
        let half = pow2((s - 1) as nat);
        lemma_pow2_unfold(s);
        lemma_pow2_pos((s - 1) as nat);
        lemma_div_denominator(m as int, 2, half as int);
        lemma_fundamental_div_mod(m as int, pow2(s) as int);
        assert(pow2(s) * (m / pow2(s)) >= 2 * 0x10_0000_0000_0000) by (nonlinear_arith)
            requires
                pow2(s) >= 2,
                m / pow2(s) >= 0x10_0000_0000_0000,
        ;
        lemma_ulp_at(m / 2, (s - 1) as nat);
    }
}

/// Rounding commutes with doubling.
pub proof fn lemma_round53_double(m: nat)
    ensures
        round53(2 * m) == 2 * round53(m),
{
    if 2 * m < 0x20_0000_0000_0000 {
        lemma_round53_nearest(m);
        lemma_round53_nearest(2 * m);
    } else {
        let p = ulp(m);
        let q = m / p;
        let r = m % p;
        lemma_ulp_quotient(m);
        assert((2 * m) / 2 == m);
        assert(ulp(2 * m) == 2 * p);
        lemma_fundamental_div_mod(m as int, p as int);
        assert(2 * m == q * (2 * p) + 2 * r) by (nonlinear_arith)
            requires
                m == p * q + r,
        ;
        lemma_fundamental_div_mod_converse((2 * m) as int, (2 * p) as int, q as int, (2 * r) as int);
        assert(q * (2 * p) == 2 * (q * p)) by (nonlinear_arith);
        assert((q + 1) * (2 * p) == 2 * ((q + 1) * p)) by (nonlinear_arith);
    }
}

/// Rounding commutes with multiplication by a power of two.
pub proof fn lemma_round53_scaled(m: nat, k: nat)
    ensures
        round53(m * pow2(k)) == round53(m) * pow2(k),
    decreases k,
{
    if k == 0 {
        lemma2_to64();
        assert(m * pow2(0) == m) by (nonlinear_arith)
            requires
                pow2(0) == 1,
        ;
        assert(round53(m) * pow2(0) == round53(m)) by (nonlinear_arith)
            requires
                pow2(0) == 1,
        ;
    } else {
        let half = pow2((k - 1) as nat);
        lemma_pow2_unfold(k);
        lemma_round53_scaled(m, (k - 1) as nat);
        lemma_round53_double(m * half);
        assert(m * pow2(k) == 2 * (m * half)) by (nonlinear_arith)
            requires
                pow2(k) == 2 * half,
        ;
        assert(round53(m) * pow2(k) == 2 * (round53(m) * half)) by (nonlinear_arith)
            requires
                pow2(k) == 2 * half,
        ;
    }
}

/// Rounding commutes with multiplication by `2^20`.
pub proof fn lemma_round53_times_2_20(m: nat)
    ensures
        round53(m * 0x10_0000) == round53(m) * 0x10_0000,
{
    lemma2_to64();
    lemma_round53_scaled(m, 20);
}

/// A multiple of 32 times anything is a multiple of 32.
pub proof fn lemma_multiple_of_32_times(a: nat, b: nat)
    requires
        a % 32 == 0,
    ensures
        (a * b) % 32 == 0,
        (b * a) % 32 == 0,
{
    let k = a / 32;
    assert(a * b == (k * b) * 32 && b * a == (k * b) * 32) by (nonlinear_arith)
        requires
            a == 32 * k,
    ;
    lemma_mod_multiples_basic((k * b) as int, 32);
}

proof fn lemma_ulp_small_or_multiple_of_32(m: nat)
    ensures
        ulp(m) == 1 || ulp(m) == 2 || ulp(m) == 4 || ulp(m) == 8 || ulp(m) == 16 || ulp(m) % 32
            == 0,
    decreases m,
{
    if m >= 0x20_0000_0000_0000 {
        lemma_ulp_small_or_multiple_of_32(m / 2);
    }
}

/// A multiple of `p` is its own nearest multiple of `p`.
pub proof fn lemma_nearest_multiple_fixed(m: nat, p: nat)
    requires
        p > 0,
        m % p == 0,
    ensures
        nearest_multiple(m, p) == m,
{
    let q = m / p;
    lemma_fundamental_div_mod(m as int, p as int);
    assert(q * p == p * q) by (nonlinear_arith);
}

/// Rounding a multiple of 32 gives a multiple of 32.
pub proof fn lemma_round53_keeps_multiples_of_32(m: nat)
    requires
        m % 32 == 0,
    ensures
        round53(m) % 32 == 0,
{
    let p = ulp(m);
    let q = m / p;
    lemma_ulp_small_or_multiple_of_32(m);
    if p % 32 == 0 {
        lemma_multiple_of_32_times(p, q);
        lemma_multiple_of_32_times(p, q + 1);
    } else {
        if p == 1 {
            assert(m % 1 == 0);
        } else if p == 2 {
            assert(m % 2 == 0);
        } else if p == 4 {
            assert(m % 4 == 0);
        } else if p == 8 {
            assert(m % 8 == 0);
        } else {
            assert(m % 16 == 0);
        }
        lemma_nearest_multiple_fixed(m, p);
    }
}

/// A rounded number of at least 58 bits is a multiple of 32.
pub proof fn lemma_round53_large_is_multiple_of_32(m: nat)
    requires
        round53(m) >= 0x200_0000_0000_0000,
    ensures
        round53(m) % 32 == 0,
{
    let p = ulp(m);
    let r = round53(m);
    let c = r / p;
    lemma_ulp_small_or_multiple_of_32(m);
    lemma_ulp_quotient(m);
    lemma_round53_nearest(m);
    lemma_fundamental_div_mod(r as int, p as int);
    assert(r == p * c);
    if p % 32 == 0 {
        lemma_multiple_of_32_times(p, c);
    }
}

/// Rounding never crosses `2^85` from below.
pub proof fn lemma_round53_below_2_85(m: nat)
    requires
        m < 0x20_0000_0000_0000_0000_0000,
    ensures
        round53(m) <= 0x20_0000_0000_0000_0000_0000,
{
    lemma2_to64();
    lemma2_to64_rest();
    lemma_pow2_adds(53, 32);
    assert(pow2(85) == 0x20_0000_0000_0000_0000_0000);
    lemma_round53_bound(m, 85);
}

/// Rounding never crosses `2^65` from below.
pub proof fn lemma_round53_below_2_65(m: nat)
    requires
        m < 0x2_0000_0000_0000_0000,
    ensures
        round53(m) <= 0x2_0000_0000_0000_0000,
{
    lemma2_to64();
    lemma2_to64_rest();
    lemma_pow2_adds(64, 1);
    assert(pow2(65) == 0x2_0000_0000_0000_0000);
    lemma_round53_bound(m, 65);
}

/// Rounds `m` to 53 significant bits, to nearest, ties to even.
pub fn round_nearest_even(m: u128) -> (r: u128)
    requires
        m <= ROUND_MAX,
    ensures
        r == round53(m as nat),
{
    let mut q: u128 = m;
    let mut p: u128 = 1;
    assert(q * p == m) by (nonlinear_arith)
        requires
            q == m,
            p == 1,
    ;
    while q >= SIGNIFICAND_LIMIT
        invariant
            m <= ROUND_MAX,
            p >= 1,
            q * p <= m < (q + 1) * p,
            p == 1 || q >= 0x10_0000_0000_0000,
            ulp(m as nat) == p * ulp(q as nat),
        decreases q,
    {
        let ghost q0 = q;
        let ghost p0 = p;
        assert(p * 0x20_0000_0000_0000 <= q * p) by (nonlinear_arith)
            requires
                q >= 0x20_0000_0000_0000,
                p >= 0,
        ;
        q = q / 2;
        p = p * 2;
        assert(q * p <= q0 * p0 && (q0 + 1) * p0 <= (q + 1) * p) by (nonlinear_arith)
            requires
                q == q0 / 2,
                p == 2 * p0,
                p0 >= 1,
        ;
        assert(p0 * ulp(q0 as nat) == p * ulp(q as nat)) by (nonlinear_arith)
            requires
                ulp(q0 as nat) == 2 * ulp(q as nat),
                p == 2 * p0,
        ;
    }
    proof {
        assert(ulp(m as nat) == p) by (nonlinear_arith)
            requires
                ulp(m as nat) == p * ulp(q as nat),
                ulp(q as nat) == 1,
        ;
        assert(q * p == p * q) by (nonlinear_arith);
        assert((q + 1) * p == p * q + p) by (nonlinear_arith);
        lemma_fundamental_div_mod_converse(m as int, p as int, q as int, m - p * q);
        assert(p * 0x20_0000_0000_0000 <= 2 * m || p == 1) by (nonlinear_arith)
            requires
                p == 1 || q >= 0x10_0000_0000_0000,
                q * p <= m,
                p >= 1,
        ;
        assert((q + 1) * p <= p * 0x20_0000_0000_0000) by (nonlinear_arith)
            requires
                q + 1 <= 0x20_0000_0000_0000,
                p >= 0,
        ;
    }
    let r: u128 = m - q * p;
    if 2 * r < p || (2 * r == p && q % 2 == 0) {
        q * p
    } else {
        (q + 1) * p
    }
}

} // verus!
