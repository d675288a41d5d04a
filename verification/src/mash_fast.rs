//! MashFast: the seeding hash with every intermediate cut to an integer.
//!
//! Written as double-precision arithmetic, absorbing a code unit `c` reads
//!
//! ```text
//! n = n + c
//! h = e * n                  e = 0.02519603282416938
//! t = (h - trunc(h)) * trunc(h)
//! n = trunc(t) + trunc((t - trunc(t)) * 2^32)
//! ```
//!
//! The accumulator is an integer below `2^33`, so only the two products
//! round. This module computes on `n` itself and on `h * 2^37`, `t * 2^37`.
//! The hash value is `n / 2^32`, a number in `[0, 2)`: unlike
//! [`Mash`](crate::mash::Mash) the accumulator is not reduced to 32 bits, and
//! the bits of `t` below `2^-32` are dropped instead of kept.

use vstd::prelude::*;
use crate::double::{from_scaled, represents};
use crate::mash::{mix, times_e, MULTIPLIER};
use crate::rounding::{round53, round_nearest_even, lemma_round53_below_2_65};
use crate::utf16::{char_units, utf16, lemma_utf16_push};

verus! {

/// The initial accumulator.
pub const FAST_INITIAL: u64 = 4022871197;

/// Largest accumulator that absorbing a code unit can leave:
/// `2^32 + 2^28 - 1`.
pub const FAST_ACCUMULATOR_MAX: u64 = 0x1_0fff_ffff;

/// One code unit absorbed into the accumulator `acc`.
pub open spec fn mash_fast_step(acc: nat, unit: nat) -> nat {
    // t = (h - floor(h)) * floor(h) with h = e * (acc + unit), in units of 2^-37
    let t = mix(times_e(acc + unit), 0x20_0000_0000);
    // floor(t) + floor((t - floor(t)) * 2^32)
    t / 0x20_0000_0000 + (t % 0x20_0000_0000) / 0x20
}

/// A sequence of code units absorbed from left to right.
pub open spec fn mash_fast_units(acc: nat, units: Seq<u16>) -> nat
    decreases units.len(),
{
    if units.len() == 0 {
        acc
    } else {
        mash_fast_step(mash_fast_units(acc, units.drop_last()), units.last() as nat)
    }
}

/// A text absorbed as its UTF-16 code units.
pub open spec fn mash_fast_text(acc: nat, text: Seq<char>) -> nat {
    mash_fast_units(acc, utf16(text))
}

/// Absorbing two runs of code units one after the other is absorbing their
/// concatenation.
pub proof fn lemma_mash_fast_units_concat(acc: nat, a: Seq<u16>, b: Seq<u16>)
    ensures
        mash_fast_units(acc, a + b) == mash_fast_units(mash_fast_units(acc, a), b),
    decreases b.len(),
{
    if b.len() == 0 {
        assert(a + b =~= a);
    } else {
        assert((a + b).drop_last() =~= a + b.drop_last());
        lemma_mash_fast_units_concat(acc, a, b.drop_last());
    }
}

/// Whether absorbing `unit` into `acc` cuts nothing off: the product `t` has
/// no bits below `2^-32`.
pub open spec fn step_lossless(acc: nat, unit: nat) -> bool {
    mix(times_e(acc + unit), 0x20_0000_0000) % 0x20 == 0
}

/// Whether absorbing `units` into `acc` cuts nothing off at any step.
pub open spec fn units_lossless(acc: nat, units: Seq<u16>) -> bool
    decreases units.len(),
{
    units.len() == 0 || (units_lossless(acc, units.drop_last()) && step_lossless(
        mash_fast_units(acc, units.drop_last()),
        units.last() as nat,
    ))
}

/// From an accumulator in range, one step stays in range, and both rounded
/// products stay at or below `2^28`.
pub proof fn lemma_mash_fast_step_range(acc: nat, unit: nat)
    requires
        acc <= FAST_ACCUMULATOR_MAX,
        unit <= 0xffff,
    ensures
        mash_fast_step(acc, unit) <= FAST_ACCUMULATOR_MAX,
        times_e(acc + unit) / 0x20_0000_0000 <= 0x1000_0000,
        mix(times_e(acc + unit), 0x20_0000_0000) / 0x20_0000_0000 <= 0x1000_0000,
{
    let n = acc + unit;
    let p = 3462916383 * n;
    lemma_round53_below_2_65(p);
    let h = round53(p);
    let hi = h / 0x20_0000_0000;
    let lo = h % 0x20_0000_0000;
    assert(lo * hi < 0x2_0000_0000_0000_0000) by (nonlinear_arith)
        requires
            lo < 0x20_0000_0000,
            hi <= 0x1000_0000,
    ;
    lemma_round53_below_2_65(lo * hi);
}

/// From an accumulator in range, absorbing code units stays in range.
pub proof fn lemma_mash_fast_units_range(acc: nat, units: Seq<u16>)
    requires
        acc <= FAST_ACCUMULATOR_MAX,
    ensures
        mash_fast_units(acc, units) <= FAST_ACCUMULATOR_MAX,
    decreases units.len(),
{
    if units.len() > 0 {
        lemma_mash_fast_units_range(acc, units.drop_last());
        lemma_mash_fast_step_range(mash_fast_units(acc, units.drop_last()), units.last() as nat);
    }
}

/// The hash state: one integer accumulator.
#[derive(Clone, Copy)]
pub struct MashFast {
    n: u64,
}

impl MashFast {
    /// The accumulator.
    pub closed spec fn view(&self) -> nat {
        self.n as nat
    }

    #[verifier::type_invariant]
    spec fn in_range(self) -> bool {
        self.n <= FAST_ACCUMULATOR_MAX
    }

    /// A hash with the initial accumulator `4022871197`.
    pub fn new() -> (m: Self)
        ensures
            m@ == FAST_INITIAL,
    {
        MashFast { n: FAST_INITIAL }
    }

    /// Absorbs one code unit.
    fn absorb_unit(&mut self, unit: u16)
        ensures
            final(self)@ == mash_fast_step(old(self)@, unit as nat),
    {
        proof {
            use_type_invariant(&*self);
            lemma_mash_fast_step_range(self.n as nat, unit as nat);
        }
        let n: u128 = self.n as u128 + unit as u128;
        let h: u128 = round_nearest_even(MULTIPLIER * n);
        let hi: u128 = h / 0x20_0000_0000;
        let lo: u128 = h % 0x20_0000_0000;
        assert(lo * hi < 0x2_0000_0000_0000_0000) by (nonlinear_arith)
            requires
                lo < 0x20_0000_0000,
                hi <= 0x1000_0000,
        ;
        let t: u128 = round_nearest_even(lo * hi);
        let next: u128 = t / 0x20_0000_0000 + (t % 0x20_0000_0000) / 0x20;
        self.n = next as u64;
    }

    /// Absorbs the UTF-16 code units of `r` and returns the accumulator. The
    /// hash value is this number divided by `2^32`.
    pub fn absorb(&mut self, r: &str) -> (n: u64)
        ensures
            final(self)@ == mash_fast_text(old(self)@, r@),
            final(self)@ <= FAST_ACCUMULATOR_MAX,
            n == final(self)@,
    {
        let ghost start = self@;
        for c in it: r.chars()
            invariant
                it.seq() == r@,
                self@ == mash_fast_text(start, r@.take(it.index())),
        {
            let ghost done = r@.take(it.index());
            proof {
                assert(r@.take(it.index() + 1) =~= done.push(c));
                lemma_utf16_push(done, c);
                lemma_mash_fast_units_concat(start, utf16(done), char_units(c));
            }
            let u: u32 = c as u32;
            if u < 0x1_0000 {
                let ghost before = self@;
                self.absorb_unit(u as u16);
                proof {
                    let units = char_units(c);
                    assert(units.drop_last() =~= Seq::<u16>::empty());
                    assert(mash_fast_units(before, units.drop_last()) == before);
                }
            } else {
                let v: u32 = u - 0x1_0000;
                let ghost before = self@;
                self.absorb_unit((0xD800 + v / 0x400) as u16);
                let ghost middle = self@;
                self.absorb_unit((0xDC00 + v % 0x400) as u16);
                proof {
                    let units = char_units(c);
                    let first = units.drop_last();
                    assert(first.drop_last() =~= Seq::<u16>::empty());
                    assert(mash_fast_units(before, first.drop_last()) == before);
                    assert(mash_fast_units(before, first) == middle);
                }
            }
        }
        proof {
            use_type_invariant(&*self);
            assert(r@.take(r@.len() as int) =~= r@);
        }
        self.n
    }

    /// Absorbs the UTF-16 code units of `r` and returns the hash value, a
    /// multiple of `2^-32` in `[0, 2)`, as a double-precision bit pattern.
    pub fn hash(&mut self, r: &str) -> (bits: u64)
        ensures
            final(self)@ == mash_fast_text(old(self)@, r@),
            final(self)@ <= FAST_ACCUMULATOR_MAX,
            represents(bits, final(self)@ as int, 32),
    {
        let n: u64 = self.absorb(r);
        from_scaled(n as i64, 32)
    }
}

} // verus!
