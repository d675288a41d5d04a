//! Alea: a multiply-with-carry generator over three 32-bit fractional words.
//!
//! The state is three words `s0, s1, s2` in `[0, 1)`, each a multiple of
//! `2^-32`, and an integer carry. One step forms
//! `y = carry * 2^-32 + s0 * 2091639`, shifts the words down, and splits `y`
//! into its integer part, the new carry, and its fraction, the new `s2` and
//! the output. With the words counted in units of `2^-32` this is exact
//! integer arithmetic: `y * 2^32` stays below `2^53`.

use vstd::prelude::*;
use crate::double::{from_scaled, lemma_represents_unique, lemma_unit_interval, represents};
use crate::mash::{mash_output, mash_text, Mash, INITIAL};
use crate::utf16::space;

verus! {

/// The multiplier of the recurrence.
pub const ALEA_MULTIPLIER: u64 = 2091639;

/// The state of the generator as numbers: the three words in units of
/// `2^-32`, and the carry.
pub struct AleaState {
    pub s0: nat,
    pub s1: nat,
    pub s2: nat,
    pub carry: nat,
}

/// One step of the recurrence.
pub open spec fn alea_next(s: AleaState) -> AleaState {
    let y = s.carry + s.s0 * 2091639;
    AleaState { s0: s.s1, s1: s.s2, s2: y % 0x1_0000_0000, carry: y / 0x1_0000_0000 }
}

/// The state `n` steps after `s`.
pub open spec fn alea_after(s: AleaState, n: nat) -> AleaState
    decreases n,
{
    if n == 0 {
        s
    } else {
        alea_next(alea_after(s, (n - 1) as nat))
    }
}

/// A state word from the two hashes that make it, all in units of `2^-32`:
/// their difference, raised by one whole when it is negative.
pub open spec fn seed_word(base: int, seeded: int) -> nat {
    let d = base - seeded;
    if d < 0 {
        (d + 0x1_0000_0000) as nat
    } else {
        d as nat
    }
}

/// The state that a seed text gives: one hash absorbs a space three times
/// and then the seed three times; each word is the difference of one hash
/// of the space and the matching hash of the seed; the carry starts at one.
pub open spec fn alea_seeded(seed: Seq<char>) -> AleaState {
    let a0 = mash_text(INITIAL as nat, space());
    let a1 = mash_text(a0, space());
    let a2 = mash_text(a1, space());
    let b0 = mash_text(a2, seed);
    let b1 = mash_text(b0, seed);
    let b2 = mash_text(b1, seed);
    AleaState {
        s0: seed_word(mash_output(a0), mash_output(b0)),
        s1: seed_word(mash_output(a1), mash_output(b1)),
        s2: seed_word(mash_output(a2), mash_output(b2)),
        carry: 1,
    }
}

/// The bounds that every state keeps: each word below `2^32`, that is, a
/// number in `[0, 1)`, and the carry below the multiplier.
pub open spec fn alea_valid(s: AleaState) -> bool {
    &&& s.s0 < 0x1_0000_0000
    &&& s.s1 < 0x1_0000_0000
    &&& s.s2 < 0x1_0000_0000
    &&& s.carry < 2091639
}

/// Every seed gives a state within the bounds.
pub proof fn lemma_alea_seeded_valid(seed: Seq<char>)
    ensures
        alea_valid(alea_seeded(seed)),
{
}

/// A step keeps the bounds, and the sum it splits stays below `2^53`, where
/// double-precision arithmetic is exact. The new carry, being below the
/// multiplier, is its own reduction to 32 signed bits.
pub proof fn lemma_alea_next_valid(s: AleaState)
    requires
        alea_valid(s),
    ensures
        alea_valid(alea_next(s)),
        s.carry + s.s0 * 2091639 < 0x20_0000_0000_0000,
{
    assert(s.s0 * 2091639 <= 0xffff_ffff * 2091639) by (nonlinear_arith)
        requires
            s.s0 <= 0xffff_ffff,
    ;
}

/// Every state that a generator reaches from a seed is within the bounds:
/// every output is a number in `[0, 1)`.
pub proof fn lemma_alea_reachable_valid(seed: Seq<char>, n: nat)
    ensures
        alea_valid(alea_after(alea_seeded(seed), n)),
    decreases n,
{
    if n == 0 {
        lemma_alea_seeded_valid(seed);
    } else {
        lemma_alea_reachable_valid(seed, (n - 1) as nat);
        lemma_alea_next_valid(alea_after(alea_seeded(seed), (n - 1) as nat));
    }
}

/// Two generators seeded with the same text are in the same state after any
/// number of steps, and whatever patterns they return for that step's output
/// are the same pattern.
pub proof fn lemma_alea_deterministic(a: Alea, b: Alea, seed: Seq<char>, n: nat, x: u64, y: u64)
    requires
        a@ == alea_seeded(seed),
        b@ == alea_seeded(seed),
        represents(x, alea_after(a@, n).s2 as int, 32),
        represents(y, alea_after(b@, n).s2 as int, 32),
    ensures
        alea_after(a@, n) == alea_after(b@, n),
        x == y,
{
    lemma_represents_unique(x, y, alea_after(a@, n).s2 as int, 32);
}

/// The difference of two hashes, raised into `[0, 2^32)`.
fn word(base: i32, seeded: i32) -> (w: u32)
    ensures
        w == seed_word(base as int, seeded as int),
{
    let d: i64 = base as i64 - seeded as i64;
    if d < 0 {
        (d + 0x1_0000_0000) as u32
    } else {
        d as u32
    }
}

/// The generator.
#[derive(Clone, Copy)]
pub struct Alea {
    s0: u32,
    s1: u32,
    s2: u32,
    x: u32,
}

impl Alea {
    /// The state as numbers.
    pub closed spec fn view(&self) -> AleaState {
        AleaState {
            s0: self.s0 as nat,
            s1: self.s1 as nat,
            s2: self.s2 as nat,
            carry: self.x as nat,
        }
    }

    #[verifier::type_invariant]
    spec fn carry_in_range(self) -> bool {
        self.x < 2091639
    }

    /// Seeds a generator from a text.
    pub fn new(seed: String) -> (g: Self)
        ensures
            g@ == alea_seeded(seed@),
            alea_valid(g@),
    {
        proof {
            reveal_strlit(" ");
            assert(" "@ =~= space());
        }
        let mut mash = Mash::new();
        let a0: i32 = mash.absorb(" ");
        let a1: i32 = mash.absorb(" ");
        let a2: i32 = mash.absorb(" ");
        let b0: i32 = mash.absorb(seed.as_str());
        let b1: i32 = mash.absorb(seed.as_str());
        let b2: i32 = mash.absorb(seed.as_str());
        Alea { s0: word(a0, b0), s1: word(a1, b1), s2: word(a2, b2), x: 1 }
    }

    /// Advances the generator and returns the new word `s2` as a 32-bit
    /// integer: the output fraction multiplied by `2^32`.
    pub fn uint32(&mut self) -> (r: u32)
        ensures
            final(self)@ == alea_next(old(self)@),
            alea_valid(final(self)@),
            r == final(self)@.s2,
    {
        proof {
            use_type_invariant(&*self);
        }
        assert(self.s0 * 2091639 <= 0xffff_ffff * 2091639) by (nonlinear_arith)
            requires
                self.s0 <= 0xffff_ffff,
        ;
        let y: u64 = self.x as u64 + self.s0 as u64 * ALEA_MULTIPLIER;
        self.s0 = self.s1;
        self.s1 = self.s2;
        self.x = (y / 0x1_0000_0000) as u32;
        self.s2 = (y % 0x1_0000_0000) as u32;
        self.s2
    }

    /// Advances the generator and returns the new word `s2`, a number in
    /// `[0, 1)`, as a double-precision bit pattern.
    pub fn random(&mut self) -> (bits: u64)
        ensures
            final(self)@ == alea_next(old(self)@),
            alea_valid(final(self)@),
            represents(bits, final(self)@.s2 as int, 32),
            bits < 0x3ff0_0000_0000_0000,
    {
        let r: u32 = self.uint32();
        let bits: u64 = from_scaled(r as i64, 32);
        proof {
            lemma_unit_interval(bits, r as int);
        }
        bits
    }
}

} // verus!
