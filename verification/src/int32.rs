//! Coercion of numbers to signed 32-bit integers.
//!
//! A double-precision number is coerced in two steps: its fraction is
//! dropped toward zero, and of the integer that is left, however large, the
//! low 32 bits are read as a two's complement integer. A NaN or an infinity
//! gives zero.

use vstd::prelude::*;
use vstd::arithmetic::div_mod::{lemma_basic_div, lemma_mod_multiples_basic};
use vstd::arithmetic::power2::{
    pow2,
    lemma_pow2_adds,
    lemma_pow2_strictly_increases,
    lemma2_to64,
    lemma2_to64_rest,
};
use vstd::bits::{lemma_u64_shl_is_mul, lemma_u64_shr_is_div};
use crate::double::{biased_exponent, fraction, from_scaled, is_finite, represents, sign_bit};

verus! {

/// The integer congruent to `i` modulo `2^32` that lies in
/// `[-2^31, 2^31)`: the low 32 bits of `i` read as two's complement.
pub open spec fn int32_wrap(i: int) -> int {
    let r = i % 0x1_0000_0000;
    if r < 0x8000_0000 {
        r
    } else {
        r - 0x1_0000_0000
    }
}

/// The integer part of the finite double-precision number `bits`, the
/// fraction dropped toward zero.
pub open spec fn truncated(bits: u64) -> int {
    let e = biased_exponent(bits);
    let whole = if e >= 1075 {
        (0x10_0000_0000_0000 + fraction(bits)) * pow2((e - 1075) as nat)
    } else if e >= 1 {
        (0x10_0000_0000_0000 + fraction(bits)) / pow2((1075 - e) as nat)
    } else {
        // subnormal: fraction * 2^-1074
        fraction(bits) / pow2(1074)
    };
    if sign_bit(bits) {
        -whole
    } else {
        whole as int
    }
}

/// The signed 32-bit integer that the double-precision number `bits` is
/// coerced to: the low 32 bits of its integer part, and zero for a NaN or an
/// infinity.
pub open spec fn int32_of(bits: u64) -> int {
    if is_finite(bits) {
        int32_wrap(truncated(bits))
    } else {
        0
    }
}

/// Reducing a natural number modulo `2^32` first does not change the 32-bit
/// reading of it or of its negative.
pub proof fn lemma_int32_wrap_of_low_bits(whole: nat)
    ensures
        int32_wrap(whole as int) == int32_wrap((whole % 0x1_0000_0000) as int),
        int32_wrap(-(whole as int)) == int32_wrap(-((whole % 0x1_0000_0000) as int)),
{
}

/// Keeps the low 32 bits of `i` and reads them as a signed integer.
pub fn wrap_i64(i: i64) -> (r: i32)
    ensures
        r == int32_wrap(i as int),
{
    let low: u64 = if i >= 0 {
        (i as u64) % 0x1_0000_0000
    } else {
        let below: u64 = (-(i + 1)) as u64;
        0xffff_ffff - below % 0x1_0000_0000
    };
    if low < 0x8000_0000 {
        low as i32
    } else {
        (low as i64 - 0x1_0000_0000) as i32
    }
}

/// Coerces the double-precision number `num` to a signed 32-bit integer and
/// returns that integer as a double-precision number again.
pub fn bit_or(num: u64) -> (r: u64)
    ensures
        represents(r, int32_of(num), 0),
{
    let e: u64 = (num / 0x10_0000_0000_0000) % 0x800;
    let f: u64 = num % 0x10_0000_0000_0000;
    let negative: bool = num >= 0x8000_0000_0000_0000;
    proof {
        lemma2_to64();
        lemma2_to64_rest();
    }
    if e < 1023 {
        // below one in magnitude
        proof {
            let k: nat = if e == 0 {
                1074
            } else {
                (1075 - e) as nat
            };
            if k > 53 {
                lemma_pow2_strictly_increases(53, k);
            }
            let significand: int = if e == 0 {
                f as int
            } else {
                0x10_0000_0000_0000 + f
            };
            lemma_basic_div(significand, pow2(k) as int);
        }
        return 0;
    }
    let significand: u64 = 0x10_0000_0000_0000 + f;
    if e >= 1107 {
        // a multiple of 2^32, or not finite
        proof {
            if e != 0x7ff {
                let k = (e - 1075) as nat;
                let rest = pow2((k - 32) as nat);
                lemma_pow2_adds(32, (k - 32) as nat);
                assert(significand * pow2(k) == (significand * rest) * 0x1_0000_0000)
                    by (nonlinear_arith)
                    requires
                        pow2(k) == 0x1_0000_0000 * rest,
                ;
                lemma_mod_multiples_basic((significand * rest) as int, 0x1_0000_0000);
                lemma_int32_wrap_of_low_bits((significand * pow2(k)) as nat);
            }
        }
        return 0;
    }
    let low: u64 = if e >= 1075 {
        let shift: u64 = e - 1075;
        proof {
            if shift < 31 {
                lemma_pow2_strictly_increases(shift as nat, 31);
            }
            lemma_u64_shl_is_mul(1, shift);
        }
        let scale: u64 = 1u64 << shift;
        assert(significand * scale < 0x20_0000_0000_0000 * 0x8000_0000) by (nonlinear_arith)
            requires
                significand < 0x20_0000_0000_0000,
                0 < scale <= 0x8000_0000,
        ;
        let whole: u128 = significand as u128 * scale as u128;
        proof {
            lemma_int32_wrap_of_low_bits(whole as nat);
        }
        (whole % 0x1_0000_0000) as u64
    } else {
        let shift: u64 = 1075 - e;
        proof {
            lemma_u64_shr_is_div(significand, shift);
            lemma_int32_wrap_of_low_bits((significand >> shift) as nat);
        }
        (significand >> shift) % 0x1_0000_0000
    };
    let i: i64 = if negative {
        -(low as i64)
    } else {
        low as i64
    };
    let k: i32 = wrap_i64(i);
    from_scaled(k as i64, 0)
}

} // verus!
