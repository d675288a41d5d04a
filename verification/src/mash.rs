//! Mash: the string hash that turns seed text into generator state.
//!
//! The hash keeps one accumulator. Written as double-precision arithmetic,
//! absorbing a code unit `c` reads
//!
//! ```text
//! n = n + c
//! h = e * n                  e = 0.02519603282416938
//! t = (h - int32(h)) * int32(h)
//! n = 2^32 * (t - int32(t)) + int32(t)
//! ```
//!
//! where `int32` truncates to the low 32 bits read as a signed integer.
//! The multiplier `e` is exactly `3462916383 / 2^37`, and the accumulator
//! is always a multiple of `2^-20` below `2^33`. Hence `n + c` is exact, the
//! two products are the only operations that round, `h` and `t` stay below
//! `2^28` so that `int32` merely drops the fraction, and the final sum is
//! exact again. This module computes on the integers `n * 2^20`, `h * 2^57`
//! and `t * 2^57`.

use vstd::prelude::*;
use crate::double::{from_scaled, represents};
use crate::int32::{int32_wrap, wrap_i64};
use crate::rounding::{
    round53,
    round_nearest_even,
    lemma_multiple_of_32_times,
    lemma_round53_below_2_85,
    lemma_round53_keeps_multiples_of_32,
    lemma_round53_large_is_multiple_of_32,
    lemma_round53_nearest,
};
use crate::utf16::{char_units, utf16, lemma_utf16_push};

verus! {

/// The multiplier `e`, in units of `2^-37`.
pub const MULTIPLIER: u128 = 3462916383;

/// The initial accumulator `4022871197`, in units of `2^-20`.
pub const INITIAL: u64 = 0xefc8_249d_0000_0;

/// Largest accumulator that absorbing a code unit can leave, in units of
/// `2^-20`: `2^52 + 2^48 - 1`.
pub const ACCUMULATOR_MAX: u64 = 0x10_ffff_ffff_ffff;

/// The product `e * n`, rounded. If `n` counts units of `2^-k`, the product
/// counts units of `2^-(k+37)`.
pub open spec fn times_e(n: nat) -> nat {
    round53(3462916383 * n)
}

/// The product `(h - floor(h)) * floor(h)`, rounded, for a number `h` that
/// counts units of `1 / one`; the product counts the same units.
pub open spec fn mix(h: nat, one: nat) -> nat {
    round53((h % one) * (h / one))
}

/// One code unit absorbed into the accumulator `acc`, both accumulators in
/// units of `2^-20`.
pub open spec fn mash_step(acc: nat, unit: nat) -> nat {
    // t = (h - floor(h)) * floor(h) with h = e * (acc + unit), in units of 2^-57
    let t = mix(times_e(acc + unit * 0x10_0000), 0x200_0000_0000_0000);
    // 2^32 * (t - floor(t)) + floor(t)
    (t % 0x200_0000_0000_0000) / 0x20 + (t / 0x200_0000_0000_0000) * 0x10_0000
}

/// A sequence of code units absorbed from left to right.
pub open spec fn mash_units(acc: nat, units: Seq<u16>) -> nat
    decreases units.len(),
{
    if units.len() == 0 {
        acc
    } else {
        mash_step(mash_units(acc, units.drop_last()), units.last() as nat)
    }
}

/// A text absorbed as its UTF-16 code units.
pub open spec fn mash_text(acc: nat, text: Seq<char>) -> nat {
    mash_units(acc, utf16(text))
}

/// The number that a hash reports for the accumulator `acc`, in units of
/// `2^-32`: the integer part of the accumulator reduced to 32 signed bits.
pub open spec fn mash_output(acc: nat) -> int {
    int32_wrap((acc / 0x10_0000) as int)
}

/// Absorbing two runs of code units one after the other is absorbing their
/// concatenation.
pub proof fn lemma_mash_units_concat(acc: nat, a: Seq<u16>, b: Seq<u16>)
    ensures
        mash_units(acc, a + b) == mash_units(mash_units(acc, a), b),
    decreases b.len(),
{
    if b.len() == 0 {
        assert(a + b =~= a);
    } else {
        assert((a + b).drop_last() =~= a + b.drop_last());
        lemma_mash_units_concat(acc, a, b.drop_last());
    }
}

/// From an accumulator in range, one step stays in range, and both rounded
/// products have an integer part of at most `2^28`, far inside the signed
/// 32-bit range.
pub proof fn lemma_mash_step_range(acc: nat, unit: nat)
    requires
        acc <= ACCUMULATOR_MAX,
        unit <= 0xffff,
    ensures
        mash_step(acc, unit) <= ACCUMULATOR_MAX,
        times_e(acc + unit * 0x10_0000) / 0x200_0000_0000_0000 <= 0x1000_0000,
        mix(times_e(acc + unit * 0x10_0000), 0x200_0000_0000_0000) / 0x200_0000_0000_0000
            <= 0x1000_0000,
{
    let n = acc + unit * 0x10_0000;
    let p = 3462916383 * n;
    lemma_round53_below_2_85(p);
    let h = round53(p);
    let hi = h / 0x200_0000_0000_0000;
    let lo = h % 0x200_0000_0000_0000;
    assert(lo * hi < 0x20_0000_0000_0000_0000_0000) by (nonlinear_arith)
        requires
            lo < 0x200_0000_0000_0000,
            hi <= 0x1000_0000,
    ;
    lemma_round53_below_2_85(lo * hi);
}

/// The second product of a step is a multiple of `2^-52`, so the division
/// by 32 in [`mash_step`] leaves no remainder: the new accumulator is the
/// exact sum `2^32 * (t - floor(t)) + floor(t)`.
pub proof fn lemma_mash_step_exact(acc: nat, unit: nat)
    ensures
        mix(times_e(acc + unit * 0x10_0000), 0x200_0000_0000_0000) % 0x20 == 0,
{
    let h = times_e(acc + unit * 0x10_0000);
    let hi = h / 0x200_0000_0000_0000;
    let lo = h % 0x200_0000_0000_0000;
    if h >= 0x200_0000_0000_0000 {
        lemma_round53_large_is_multiple_of_32(3462916383 * (acc + unit * 0x10_0000));
        assert(lo % 0x20 == 0);
        lemma_multiple_of_32_times(lo, hi);
        lemma_round53_keeps_multiples_of_32(lo * hi);
    } else {
        assert(hi == 0);
        assert(lo * hi == 0) by (nonlinear_arith)
            requires
                hi == 0,
        ;
        lemma_round53_nearest(0);
    }
}

/// The hash state: one accumulator.
#[derive(Clone, Copy)]
pub struct Mash {
    /// The accumulator, in units of `2^-20`.
    n: u64,
}

impl Mash {
    /// The accumulator, in units of `2^-20`.
    pub closed spec fn view(&self) -> nat {
        self.n as nat
    }

    #[verifier::type_invariant]
    spec fn in_range(self) -> bool {
        self.n <= ACCUMULATOR_MAX
    }

    /// A hash with the initial accumulator `4022871197`.
    pub fn new() -> (m: Self)
        ensures
            m@ == INITIAL,
    {
        Mash { n: INITIAL }
    }

    /// Absorbs one code unit.
    fn absorb_unit(&mut self, unit: u16)
        ensures
            final(self)@ == mash_step(old(self)@, unit as nat),
    {
        proof {
            use_type_invariant(&*self);
            lemma_mash_step_range(self.n as nat, unit as nat);
            lemma_mash_step_exact(self.n as nat, unit as nat);
        }
        let n: u128 = self.n as u128 + (unit as u128) * 0x10_0000;
        let h: u128 = round_nearest_even(MULTIPLIER * n);
        let hi: u128 = h / 0x200_0000_0000_0000;
        let lo: u128 = h % 0x200_0000_0000_0000;
        assert(lo * hi < 0x20_0000_0000_0000_0000_0000) by (nonlinear_arith)
            requires
                lo < 0x200_0000_0000_0000,
                hi <= 0x1000_0000,
        ;
        let t: u128 = round_nearest_even(lo * hi);
        assert(t % 0x20 == 0);
        let next: u128 = (t % 0x200_0000_0000_0000) / 0x20 + (t / 0x200_0000_0000_0000) * 0x10_0000;
        self.n = next as u64;
    }

    /// Absorbs the UTF-16 code units of `r` and returns the integer part of
    /// the accumulator reduced to 32 signed bits. The hash value is this
    /// number divided by `2^32`.
    pub fn absorb(&mut self, r: &str) -> (k: i32)
        ensures
            final(self)@ == mash_text(old(self)@, r@),
            final(self)@ <= ACCUMULATOR_MAX,
            k == mash_output(final(self)@),
    {
        let ghost start = self@;
        for c in it: r.chars()
            invariant
                it.seq() == r@,
                self@ == mash_text(start, r@.take(it.index())),
        {
            let ghost done = r@.take(it.index());
            proof {
                assert(r@.take(it.index() + 1) =~= done.push(c));
                lemma_utf16_push(done, c);
                lemma_mash_units_concat(start, utf16(done), char_units(c));
            }
            let u: u32 = c as u32;
            if u < 0x1_0000 {
                let ghost before = self@;
                self.absorb_unit(u as u16);
                proof {
                    let units = char_units(c);
                    assert(units.drop_last() =~= Seq::<u16>::empty());
                    assert(mash_units(before, units.drop_last()) == before);
                }
            } else {
                let v: u32 = u - 0x1_0000;
                let ghost before = self@;
                self.absorb_unit((0xD800 + v / 0x400) as u16);
                let ghost middle = self@;
                self.absorb_unit((0xDC00 + v % 0x400) as u16);
                proof {
                    let units = char_units(c);
                    let first = units.drop_last();
                    assert(first.drop_last() =~= Seq::<u16>::empty());
                    assert(mash_units(before, first.drop_last()) == before);
                    assert(mash_units(before, first) == middle);
                }
            }
        }
        proof {
            use_type_invariant(&*self);
            assert(r@.take(r@.len() as int) =~= r@);
        }
        wrap_i64((self.n / 0x10_0000) as i64)
    }

    /// Absorbs the UTF-16 code units of `r` and returns the hash value, a
    /// multiple of `2^-32` in `[-1/2, 1/2)`, as a double-precision bit
    /// pattern.
    pub fn hash(&mut self, r: &str) -> (bits: u64)
        ensures
            final(self)@ == mash_text(old(self)@, r@),
            final(self)@ <= ACCUMULATOR_MAX,
            represents(bits, mash_output(final(self)@), 32),
    {
        let k: i32 = self.absorb(r);
        from_scaled(k as i64, 32)
    }
}

} // verus!
