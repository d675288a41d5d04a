//! AleaFast: the generator seeded by [`MashFast`], with the carry taken by
//! plain truncation.
//!
//! Written as double-precision arithmetic, a step forms
//! `y = carry * 2^-32 + s0 * 2091639`, takes `trunc(y)` as the new carry and
//! `y - trunc(y)` as the new word. The hash values that seed the state lie
//! in `[0, 2)` rather than `[-1/2, 1/2)`, so the recurrence is stated here
//! for words of either sign and any size, with both operations rounded.
//! The three hashes of the space are fixed numbers, though, and they place
//! every seeded word in `[0, 1)`; there nothing rounds, and a step is the
//! step of [`Alea`](crate::alea::Alea). The two generators part only where
//! the two hashes do.

use vstd::prelude::*;
use vstd::arithmetic::power2::lemma2_to64;
use crate::alea::{alea_after, alea_next, alea_valid, lemma_alea_next_valid, AleaState};
use crate::double::{from_scaled, lemma_represents_unique, lemma_unit_interval, represents};
use crate::mash::{mix, times_e};
use crate::mash_fast::{
    lemma_mash_fast_units_range,
    mash_fast_step,
    mash_fast_text,
    mash_fast_units,
    step_lossless,
    MashFast,
    FAST_ACCUMULATOR_MAX,
    FAST_INITIAL,
};
use crate::rounding::{round53, lemma_round53_nearest, lemma_ulp_at};
use crate::utf16::{lemma_utf16_space, space, utf16};

verus! {

/// The accumulator after the first hash of the space.
pub const SPACE_ONCE: u64 = 3707969490;

/// The accumulator after the second hash of the space.
pub const SPACE_TWICE: u64 = 645086813;

/// The accumulator after the third hash of the space.
pub const SPACE_THRICE: u64 = 3941471299;

/// The state of the generator as numbers: the three words in units of
/// `2^-32`, and the carry.
pub struct AleaFastState {
    pub s0: int,
    pub s1: int,
    pub s2: int,
    pub carry: int,
}

/// `v` rounded to 53 significant bits, to nearest, ties to even: the
/// rounding of the magnitude, with the sign kept.
pub open spec fn round53_signed(v: int) -> int {
    if v < 0 {
        -(round53((-v) as nat) as int)
    } else {
        round53(v as nat) as int
    }
}

/// The integer part of `v / 2^32`, truncated toward zero.
pub open spec fn whole_part(v: int) -> int {
    if v < 0 {
        -((-v) / 0x1_0000_0000)
    } else {
        v / 0x1_0000_0000
    }
}

/// One step of the recurrence.
pub open spec fn alea_fast_next(s: AleaFastState) -> AleaFastState {
    let y = round53_signed(s.carry + round53_signed(s.s0 * 2091639));
    let x = whole_part(y);
    AleaFastState { s0: s.s1, s1: s.s2, s2: y - x * 0x1_0000_0000, carry: x }
}

/// The state `n` steps after `s`.
pub open spec fn alea_fast_after(s: AleaFastState, n: nat) -> AleaFastState
    decreases n,
{
    if n == 0 {
        s
    } else {
        alea_fast_next(alea_fast_after(s, (n - 1) as nat))
    }
}

/// A state word from the two hashes that make it, all in units of `2^-32`:
/// their difference, raised by one whole when it is negative.
pub open spec fn fast_seed_word(base: nat, seeded: nat) -> int {
    let d = base - seeded;
    if d < 0 {
        d + 0x1_0000_0000
    } else {
        d
    }
}

/// The state that a seed text gives: one hash absorbs a space three times
/// and then the seed three times; each word is the difference of one hash
/// of the space and the matching hash of the seed; the carry starts at one.
pub open spec fn alea_fast_seeded(seed: Seq<char>) -> AleaFastState {
    let a0 = mash_fast_text(FAST_INITIAL as nat, space());
    let a1 = mash_fast_text(a0, space());
    let a2 = mash_fast_text(a1, space());
    let b0 = mash_fast_text(a2, seed);
    let b1 = mash_fast_text(b0, seed);
    let b2 = mash_fast_text(b1, seed);
    AleaFastState {
        s0: fast_seed_word(a0, b0),
        s1: fast_seed_word(a1, b1),
        s2: fast_seed_word(a2, b2),
        carry: 1,
    }
}

/// A state of the exact generator read as a state of this one.
pub open spec fn as_fast(s: AleaState) -> AleaFastState {
    AleaFastState { s0: s.s0 as int, s1: s.s1 as int, s2: s.s2 as int, carry: s.carry as int }
}

/// The bounds that every reachable state keeps: each word a number in
/// `[0, 1)`, and the carry non-negative and below the multiplier.
pub open spec fn fast_valid(s: AleaFastState) -> bool {
    &&& 0 <= s.s0 < 0x1_0000_0000
    &&& 0 <= s.s1 < 0x1_0000_0000
    &&& 0 <= s.s2 < 0x1_0000_0000
    &&& 0 <= s.carry < 2091639
}

/// The first hash of the space: the accumulator it leaves, with nothing
/// cut off on the way.
pub proof fn lemma_space_once()
    ensures
        mash_fast_step(FAST_INITIAL as nat, 32) == SPACE_ONCE,
        step_lossless(FAST_INITIAL as nat, 32),
{
    lemma2_to64();
    let p: nat = 3462916383 * 0xefc8_24bd;
    assert(p == 0xc154_6171_10b7_77e3);
    lemma_ulp_at(p, 11);
    assert(times_e(0xefc8_24bd) == 0xc154_6171_10b7_7800);
    let m: nat = 0x11_10b7_7800 * 0x60a_a30b;
    assert(m == 0x6719_d25b_394a_2800);
    lemma_ulp_at(m, 10);
    assert(mix(0xc154_6171_10b7_7800, 0x20_0000_0000) == 0x6719_d25b_394a_2800);
}

/// The second hash of the space.
pub proof fn lemma_space_twice()
    ensures
        mash_fast_step(SPACE_ONCE as nat, 32) == SPACE_TWICE,
        step_lossless(SPACE_ONCE as nat, 32),
{
    lemma2_to64();
    let p: nat = 3462916383 * 0xdd03_1ff2;
    assert(p == 0xb232_3939_31d2_204e);
    lemma_ulp_at(p, 11);
    assert(times_e(0xdd03_1ff2) == 0xb232_3939_31d2_2000);
    let m: nat = 0x19_31d2_2000 * 0x591_91c9;
    assert(m == 0x8c4c_aba4_421b_2000);
    lemma_ulp_at(m, 11);
    assert(mix(0xb232_3939_31d2_2000, 0x20_0000_0000) == 0x8c4c_aba4_421b_2000);
}

/// The third hash of the space.
pub proof fn lemma_space_thrice()
    ensures
        mash_fast_step(SPACE_TWICE as nat, 32) == SPACE_THRICE,
        step_lossless(SPACE_TWICE as nat, 32),
{
    lemma2_to64();
    let p: nat = 3462916383 * 0x2673_3e7d;
    assert(p == 0x1f00_57aa_461f_5623);
    lemma_ulp_at(p, 8);
    assert(times_e(0x2673_3e7d) == 0x1f00_57aa_461f_5600);
    let m: nat = 0xa_461f_5600 * 0xf8_02bd;
    assert(m == 0x9f4_0a7d_53ce_7e00);
    lemma_ulp_at(m, 7);
    assert(mix(0x1f00_57aa_461f_5600, 0x20_0000_0000) == 0x9f4_0a7d_53ce_7e00);
}

/// Hashing a space is absorbing the code unit 32.
pub proof fn lemma_mash_fast_space(acc: nat)
    ensures
        mash_fast_text(acc, space()) == mash_fast_step(acc, 32),
{
    lemma_utf16_space();
    let units = seq![32u16];
    assert(units.drop_last() =~= Seq::<u16>::empty());
    assert(mash_fast_units(acc, units.drop_last()) == acc);
}

/// The three hashes of the space that every seeding starts with.
pub proof fn lemma_space_hashes()
    ensures
        mash_fast_text(FAST_INITIAL as nat, space()) == SPACE_ONCE,
        mash_fast_text(SPACE_ONCE as nat, space()) == SPACE_TWICE,
        mash_fast_text(SPACE_TWICE as nat, space()) == SPACE_THRICE,
{
    lemma_space_once();
    lemma_space_twice();
    lemma_space_thrice();
    lemma_mash_fast_space(FAST_INITIAL as nat);
    lemma_mash_fast_space(SPACE_ONCE as nat);
    lemma_mash_fast_space(SPACE_TWICE as nat);
}

/// Every seed gives a state within the bounds.
pub proof fn lemma_alea_fast_seeded_valid(seed: Seq<char>)
    ensures
        fast_valid(alea_fast_seeded(seed)),
{
    lemma_space_hashes();
    let b0 = mash_fast_text(SPACE_THRICE as nat, seed);
    let b1 = mash_fast_text(b0, seed);
    lemma_mash_fast_units_range(SPACE_THRICE as nat, utf16(seed));
    lemma_mash_fast_units_range(b0, utf16(seed));
    lemma_mash_fast_units_range(b1, utf16(seed));
}

/// On a state within the bounds nothing is rounded and truncation is the
/// 32-bit coercion: this generator takes the very step of the exact one.
pub proof fn lemma_fast_step_is_exact(s: AleaState)
    requires
        alea_valid(s),
    ensures
        alea_fast_next(as_fast(s)) == as_fast(alea_next(s)),
        fast_valid(alea_fast_next(as_fast(s))),
{
    let prod = s.s0 * 2091639;
    assert(prod <= 0xffff_ffff * 2091639) by (nonlinear_arith)
        requires
            s.s0 <= 0xffff_ffff,
            prod == s.s0 * 2091639,
    ;
    lemma_round53_nearest(prod);
    lemma_round53_nearest(s.carry + prod);
}

/// From a state within the bounds, the two generators agree after any
/// number of steps.
pub proof fn lemma_fast_run_is_exact(s: AleaState, n: nat)
    requires
        alea_valid(s),
    ensures
        alea_fast_after(as_fast(s), n) == as_fast(alea_after(s, n)),
        alea_valid(alea_after(s, n)),
    decreases n,
{
    if n > 0 {
        lemma_fast_run_is_exact(s, (n - 1) as nat);
        let before = alea_after(s, (n - 1) as nat);
        lemma_alea_next_valid(before);
        lemma_fast_step_is_exact(before);
    }
}

/// The exact state that a state within the bounds is.
pub open spec fn as_exact(s: AleaFastState) -> AleaState {
    AleaState { s0: s.s0 as nat, s1: s.s1 as nat, s2: s.s2 as nat, carry: s.carry as nat }
}

/// Every state that a generator reaches from a seed is within the bounds:
/// every output is a number in `[0, 1)`.
pub proof fn lemma_alea_fast_reachable_valid(seed: Seq<char>, n: nat)
    ensures
        fast_valid(alea_fast_after(alea_fast_seeded(seed), n)),
    decreases n,
{
    if n == 0 {
        lemma_alea_fast_seeded_valid(seed);
    } else {
        lemma_alea_fast_reachable_valid(seed, (n - 1) as nat);
        let before = alea_fast_after(alea_fast_seeded(seed), (n - 1) as nat);
        assert(as_fast(as_exact(before)) == before);
        lemma_fast_step_is_exact(as_exact(before));
    }
}

/// Two generators seeded with the same text are in the same state after any
/// number of steps, and whatever patterns they return for that step's output
/// are the same pattern.
pub proof fn lemma_alea_fast_deterministic(
    a: AleaFast,
    b: AleaFast,
    seed: Seq<char>,
    n: nat,
    x: u64,
    y: u64,
)
    requires
        a@ == alea_fast_seeded(seed),
        b@ == alea_fast_seeded(seed),
        represents(x, alea_fast_after(a@, n).s2, 32),
        represents(y, alea_fast_after(b@, n).s2, 32),
    ensures
        alea_fast_after(a@, n) == alea_fast_after(b@, n),
        x == y,
{
    lemma_represents_unique(x, y, alea_fast_after(a@, n).s2, 32);
}

/// The difference of two hashes, raised into `[0, 2^32)`.
fn word(base: u64, seeded: u64) -> (w: u32)
    requires
        0x1000_0000 <= base < 0x1_0000_0000,
        seeded <= FAST_ACCUMULATOR_MAX,
    ensures
        w == fast_seed_word(base as nat, seeded as nat),
{
    let d: i64 = base as i64 - seeded as i64;
    if d < 0 {
        (d + 0x1_0000_0000) as u32
    } else {
        d as u32
    }
}

/// The generator.
#[derive(Clone, Copy)]
pub struct AleaFast {
    s0: u32,
    s1: u32,
    s2: u32,
    x: u32,
}

impl AleaFast {
    /// The state as numbers.
    pub closed spec fn view(&self) -> AleaFastState {
        AleaFastState {
            s0: self.s0 as int,
            s1: self.s1 as int,
            s2: self.s2 as int,
            carry: self.x as int,
        }
    }

    #[verifier::type_invariant]
    spec fn carry_in_range(self) -> bool {
        self.x < 2091639
    }

    /// Seeds a generator from a text.
    pub fn new(seed: String) -> (g: Self)
        ensures
            g@ == alea_fast_seeded(seed@),
            fast_valid(g@),
    {
        proof {
            reveal_strlit(" ");
            assert(" "@ =~= space());
            lemma_space_hashes();
        }
        let mut mash = MashFast::new();
        let a0: u64 = mash.absorb(" ");
        let a1: u64 = mash.absorb(" ");
        let a2: u64 = mash.absorb(" ");
        let b0: u64 = mash.absorb(seed.as_str());
        let b1: u64 = mash.absorb(seed.as_str());
        let b2: u64 = mash.absorb(seed.as_str());
        AleaFast { s0: word(a0, b0), s1: word(a1, b1), s2: word(a2, b2), x: 1 }
    }

    /// Advances the generator and returns the new word `s2` as a 32-bit
    /// integer: the output fraction multiplied by `2^32`.
    pub fn uint32(&mut self) -> (r: u32)
        ensures
            final(self)@ == alea_fast_next(old(self)@),
            fast_valid(final(self)@),
            r == final(self)@.s2,
    {
        proof {
            use_type_invariant(&*self);
            let s = as_exact(self@);
            assert(as_fast(s) == self@);
            lemma_fast_step_is_exact(s);
        }
        assert(self.s0 * 2091639 <= 0xffff_ffff * 2091639) by (nonlinear_arith)
            requires
                self.s0 <= 0xffff_ffff,
        ;
        let y: u64 = self.x as u64 + self.s0 as u64 * 2091639;
        self.s0 = self.s1;
        self.s1 = self.s2;
        self.x = (y / 0x1_0000_0000) as u32;
        self.s2 = (y % 0x1_0000_0000) as u32;
        self.s2
    }

    /// Advances the generator and returns the new word `s2`, a number in
    /// `[0, 1)`, as a double-precision bit pattern.
    pub fn random(&mut self) -> (bits: u64)
        ensures
            final(self)@ == alea_fast_next(old(self)@),
            fast_valid(final(self)@),
            represents(bits, final(self)@.s2, 32),
            bits < 0x3ff0_0000_0000_0000,
    {
        let r: u32 = self.uint32();
        let bits: u64 = from_scaled(r as i64, 32);
        proof {
            lemma_unit_interval(bits, r as int);
        }
        bits
    }
}

} // verus!
