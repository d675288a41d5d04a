//! IEEE-754 binary64 numbers as 64-bit patterns.
//!
//! A pattern holds, from the top, one sign bit, eleven bits of biased
//! exponent and fifty-two bits of fraction. A pattern with biased exponent
//! `e` in `1..=2046` and fraction `f` is the normal number
//! `±(2^52 + f) * 2^(e - 1075)`.

use vstd::prelude::*;
use vstd::arithmetic::power2::{
    pow2,
    lemma_pow2_adds,
    lemma_pow2_pos,
    lemma_pow2_strictly_increases,
    lemma_pow2_unfold,
    lemma2_to64,
    lemma2_to64_rest,
};

verus! {

/// `2^52`: the implicit leading bit of a normal significand.
pub const HIDDEN_BIT: u64 = 0x10_0000_0000_0000;

/// `2^63`: the sign bit.
pub const SIGN_BIT: u64 = 0x8000_0000_0000_0000;

/// Largest number of fractional bits accepted by [`from_scaled`].
pub const SCALE_MAX: u32 = 1022;

/// Whether the sign bit is set.
pub open spec fn sign_bit(bits: u64) -> bool {
    bits >= 0x8000_0000_0000_0000
}

/// The biased exponent field.
pub open spec fn biased_exponent(bits: u64) -> nat {
    ((bits / 0x10_0000_0000_0000) % 0x800) as nat
}

/// The fraction field.
pub open spec fn fraction(bits: u64) -> nat {
    (bits % 0x10_0000_0000_0000) as nat
}

/// Neither an infinity nor a NaN.
pub open spec fn is_finite(bits: u64) -> bool {
    biased_exponent(bits) != 0x7ff
}

/// The absolute value of `i`.
pub open spec fn magnitude(i: int) -> nat {
    if i < 0 {
        (-i) as nat
    } else {
        i as nat
    }
}

/// `bits` is the double-precision number `num / 2^scale`: positive zero
/// when `num` is zero, and otherwise the normal number of that sign and
/// magnitude.
pub open spec fn represents(bits: u64, num: int, scale: nat) -> bool {
    if num == 0 {
        bits == 0
    } else {
        let e = biased_exponent(bits);
        &&& sign_bit(bits) == (num < 0)
        &&& 1 <= e <= 1075
        &&& magnitude(num) * pow2((1075 - e) as nat) == (0x10_0000_0000_0000 + fraction(bits))
            * pow2(scale)
    }
}

/// A number has at most one pattern.
pub proof fn lemma_represents_unique(a: u64, b: u64, num: int, scale: nat)
    requires
        represents(a, num, scale),
        represents(b, num, scale),
    ensures
        a == b,
{
    if num != 0 {
        let ea = biased_exponent(a);
        let eb = biased_exponent(b);
        if ea <= eb {
            lemma_same_number_same_fields(a, b, num, scale);
        } else {
            lemma_same_number_same_fields(b, a, num, scale);
        }
    }
}

proof fn lemma_same_number_same_fields(a: u64, b: u64, num: int, scale: nat)
    requires
        num != 0,
        represents(a, num, scale),
        represents(b, num, scale),
        biased_exponent(a) <= biased_exponent(b),
    ensures
        a == b,
{
    let ea = biased_exponent(a);
    let eb = biased_exponent(b);
    let d = (eb - ea) as nat;
    let m = magnitude(num);
    let sa = 0x10_0000_0000_0000 + fraction(a);
    let sb = 0x10_0000_0000_0000 + fraction(b);
    let pa = pow2((1075 - ea) as nat);
    let pb = pow2((1075 - eb) as nat);
    let ps = pow2(scale);
    lemma_pow2_adds((1075 - eb) as nat, d);
    lemma_pow2_pos(scale);
    lemma_pow2_pos(d);
    assert(pa == pb * pow2(d));
    assert(sa == sb * pow2(d)) by (nonlinear_arith)
        requires
            m * pa == sa * ps,
            m * pb == sb * ps,
            pa == pb * pow2(d),
            ps > 0,
    ;
    if d > 0 {
        lemma_pow2_unfold(d);
        lemma_pow2_pos((d - 1) as nat);
        assert(sb * pow2(d) >= sb * 2) by (nonlinear_arith)
            requires
                pow2(d) >= 2,
                sb >= 0,
        ;
        assert(false);
    }
    assert(pow2(0) == 1) by {
        lemma2_to64();
    }
    assert(sb * 1 == sb);
    assert(fraction(a) == fraction(b));
}

/// A number in `[0, 1)` counted in units of `2^-32` has a pattern below
/// that of one, `0x3ff0_0000_0000_0000`. Patterns of non-negative numbers
/// are ordered as the numbers are.
pub proof fn lemma_unit_interval(bits: u64, num: int)
    requires
        represents(bits, num, 32),
        0 <= num < 0x1_0000_0000,
    ensures
        bits < 0x3ff0_0000_0000_0000,
{
    if num != 0 {
        let e = biased_exponent(bits);
        let k = (1075 - e) as nat;
        lemma2_to64();
        lemma2_to64_rest();
        if e >= 1023 {
            if k < 52 {
                lemma_pow2_strictly_increases(k, 52);
            }
            assert(num * pow2(k) < 0x1_0000_0000 * 0x10_0000_0000_0000) by (nonlinear_arith)
                requires
                    0 < num < 0x1_0000_0000,
                    0 < pow2(k) <= 0x10_0000_0000_0000,
            ;
            assert(false);
        }
    }
}

/// The pattern of `num / 2^scale`, for a numerator of at most 53 bits.
pub fn from_scaled(num: i64, scale: u32) -> (bits: u64)
    requires
        -0x20_0000_0000_0000 < num < 0x20_0000_0000_0000,
        scale <= SCALE_MAX,
    ensures
        represents(bits, num as int, scale as nat),
{
    if num == 0 {
        return 0;
    }
    let negative: bool = num < 0;
    let m: u64 = if negative {
        (-num) as u64
    } else {
        num as u64
    };
    let mut significand: u64 = m;
    let mut e: u64 = 1075;
    proof {
        lemma2_to64();
        assert(m * pow2(0) == m) by (nonlinear_arith)
            requires
                pow2(0) == 1,
        ;
    }
    while significand < HIDDEN_BIT
        invariant
            1 <= m,
            1023 <= e <= 1075,
            1 <= significand < 0x20_0000_0000_0000,
            significand == m * pow2((1075 - e) as nat),
        decreases 0x20_0000_0000_0000 - significand,
    {
        proof {
            let k = (1075 - e) as nat;
            lemma_pow2_unfold(k + 1);
            assert(m * pow2(k + 1) == 2 * (m * pow2(k))) by (nonlinear_arith)
                requires
                    pow2(k + 1) == 2 * pow2(k),
            ;
            if e == 1023 {
                lemma2_to64_rest();
                assert(k == 52);
                assert(m * pow2(52) >= pow2(52)) by (nonlinear_arith)
                    requires
                        m >= 1,
                ;
                assert(false);
            }
        }
        significand = significand * 2;
        e = e - 1;
    }
    let exponent: u64 = e - scale as u64;
    let sign: u64 = if negative {
        SIGN_BIT
    } else {
        0
    };
    let bits: u64 = sign + exponent * HIDDEN_BIT + (significand - HIDDEN_BIT);
    proof {
        let k = (1075 - e) as nat;
        lemma_pow2_adds(k, scale as nat);
        assert(m * pow2(k + scale as nat) == significand * pow2(scale as nat))
            by (nonlinear_arith)
            requires
                significand == m * pow2(k),
                pow2(k + scale as nat) == pow2(k) * pow2(scale as nat),
        ;
        assert((1075 - exponent) as nat == k + scale as nat);
        assert(biased_exponent(bits) == exponent);
        assert(fraction(bits) == significand - HIDDEN_BIT);
    }
    bits
}

} // verus!
