//! Where the fast generator agrees with the exact one.
//!
//! The two hashes run the same two rounded products on the same numbers as
//! long as their accumulators are equal. The exact hash then keeps all of
//! `2^32 * (t - floor(t))`; the fast hash keeps its integer part. So one
//! step leaves equal accumulators exactly when `t` has no bits below
//! `2^-32`, which is what [`step_lossless`] says. A seed that never meets
//! such a `t` while it is hashed three times gives both generators the same
//! state, and from there on the same outputs forever.

use vstd::prelude::*;
use crate::alea::{alea_after, alea_seeded, lemma_alea_seeded_valid};
use crate::alea_fast::{
    alea_fast_after,
    alea_fast_seeded,
    as_fast,
    lemma_fast_run_is_exact,
    lemma_space_hashes,
    lemma_space_once,
    lemma_space_thrice,
    lemma_space_twice,
    SPACE_ONCE,
    SPACE_THRICE,
    SPACE_TWICE,
};
use crate::mash::{mash_step, mash_text, mash_units, mix, times_e, INITIAL};
use crate::mash_fast::{
    lemma_mash_fast_units_range,
    mash_fast_step,
    mash_fast_text,
    mash_fast_units,
    step_lossless,
    units_lossless,
    FAST_INITIAL,
};
use crate::rounding::lemma_round53_times_2_20;
use crate::utf16::{lemma_utf16_space, space, utf16};

verus! {

/// From equal accumulators, one step of the two hashes leaves equal
/// accumulators if and only if the fast step cuts nothing off.
pub proof fn lemma_step_agrees(acc: nat, unit: nat)
    ensures
        mash_step(acc * 0x10_0000, unit) == mash_fast_step(acc, unit) * 0x10_0000
            <==> step_lossless(acc, unit),
{
    let n = acc + unit;
    let p = 3462916383 * n;
    assert(3462916383 * (acc * 0x10_0000 + unit * 0x10_0000) == p * 0x10_0000);
    lemma_round53_times_2_20(p);
    let h = times_e(n);
    assert(times_e(acc * 0x10_0000 + unit * 0x10_0000) == h * 0x10_0000);
    let hi = h / 0x20_0000_0000;
    let lo = h % 0x20_0000_0000;
    assert((h * 0x10_0000) / 0x200_0000_0000_0000 == hi);
    assert((h * 0x10_0000) % 0x200_0000_0000_0000 == lo * 0x10_0000);
    assert((lo * 0x10_0000) * hi == (lo * hi) * 0x10_0000) by (nonlinear_arith);
    lemma_round53_times_2_20(lo * hi);
    let t = mix(h, 0x20_0000_0000);
    assert(mix(h * 0x10_0000, 0x200_0000_0000_0000) == t * 0x10_0000);
}

/// From equal accumulators, absorbing code units leaves equal accumulators
/// if no step of the fast hash cuts anything off.
pub proof fn lemma_units_agree(acc: nat, units: Seq<u16>)
    requires
        units_lossless(acc, units),
    ensures
        mash_units(acc * 0x10_0000, units) == mash_fast_units(acc, units) * 0x10_0000,
    decreases units.len(),
{
    if units.len() > 0 {
        lemma_units_agree(acc, units.drop_last());
        lemma_step_agrees(mash_fast_units(acc, units.drop_last()), units.last() as nat);
    }
}

/// Whether the fast hash cuts nothing off while it absorbs the seed three
/// times after the three spaces.
pub open spec fn seed_lossless(seed: Seq<char>) -> bool {
    let b0 = mash_fast_text(SPACE_THRICE as nat, seed);
    let b1 = mash_fast_text(b0, seed);
    &&& units_lossless(SPACE_THRICE as nat, utf16(seed))
    &&& units_lossless(b0, utf16(seed))
    &&& units_lossless(b1, utf16(seed))
}

/// The three hashes of the space leave the two hashes with equal
/// accumulators.
pub proof fn lemma_space_hashes_agree()
    ensures
        mash_text(INITIAL as nat, space()) == SPACE_ONCE * 0x10_0000,
        mash_text((SPACE_ONCE * 0x10_0000) as nat, space()) == SPACE_TWICE * 0x10_0000,
        mash_text((SPACE_TWICE * 0x10_0000) as nat, space()) == SPACE_THRICE * 0x10_0000,
{
    lemma_utf16_space();
    lemma_space_hashes();
    lemma_space_once();
    lemma_space_twice();
    lemma_space_thrice();
    let units = seq![32u16];
    let none = units.drop_last();
    assert(none =~= Seq::<u16>::empty());
    assert(units.last() == 32u16);
    assert(units_lossless(FAST_INITIAL as nat, none));
    assert(mash_fast_units(FAST_INITIAL as nat, none) == FAST_INITIAL);
    assert(units_lossless(FAST_INITIAL as nat, units));
    assert(units_lossless(SPACE_ONCE as nat, none));
    assert(mash_fast_units(SPACE_ONCE as nat, none) == SPACE_ONCE);
    assert(units_lossless(SPACE_ONCE as nat, units));
    assert(units_lossless(SPACE_TWICE as nat, none));
    assert(mash_fast_units(SPACE_TWICE as nat, none) == SPACE_TWICE);
    assert(units_lossless(SPACE_TWICE as nat, units));
    lemma_units_agree(FAST_INITIAL as nat, units);
    lemma_units_agree(SPACE_ONCE as nat, units);
    lemma_units_agree(SPACE_TWICE as nat, units);
}

/// A seed on which the fast hash cuts nothing off gives both generators the
/// same state.
pub proof fn lemma_seeding_agrees(seed: Seq<char>)
    requires
        seed_lossless(seed),
    ensures
        alea_fast_seeded(seed) == as_fast(alea_seeded(seed)),
{
    lemma_space_hashes();
    lemma_space_hashes_agree();
    let u = utf16(seed);
    let b0 = mash_fast_text(SPACE_THRICE as nat, seed);
    let b1 = mash_fast_text(b0, seed);
    let b2 = mash_fast_text(b1, seed);
    lemma_units_agree(SPACE_THRICE as nat, u);
    lemma_units_agree(b0, u);
    lemma_units_agree(b1, u);
    lemma_mash_fast_units_range(SPACE_THRICE as nat, u);
    lemma_mash_fast_units_range(b0, u);
    lemma_mash_fast_units_range(b1, u);
    assert((SPACE_ONCE * 0x10_0000) / 0x10_0000 == SPACE_ONCE);
    assert((SPACE_TWICE * 0x10_0000) / 0x10_0000 == SPACE_TWICE);
    assert((SPACE_THRICE * 0x10_0000) / 0x10_0000 == SPACE_THRICE);
    assert((b0 * 0x10_0000) / 0x10_0000 == b0);
    assert((b1 * 0x10_0000) / 0x10_0000 == b1);
    assert((b2 * 0x10_0000) / 0x10_0000 == b2);
}

/// On a seed on which the fast hash cuts nothing off, the two generators
/// are in the same state after any number of steps: their outputs agree
/// from the first on.
pub proof fn lemma_generators_agree(seed: Seq<char>, n: nat)
    requires
        seed_lossless(seed),
    ensures
        alea_fast_after(alea_fast_seeded(seed), n) == as_fast(alea_after(alea_seeded(seed), n)),
{
    lemma_seeding_agrees(seed);
    lemma_alea_seeded_valid(seed);
    lemma_fast_run_is_exact(alea_seeded(seed), n);
}

} // verus!
