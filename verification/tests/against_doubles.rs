//! The library computes on scaled integers. These tests write the same
//! algorithms in double-precision arithmetic and compare bit for bit.

use alea_js::double::from_scaled;
use alea_js::int32::{bit_or, wrap_i64};
use alea_js::rounding::round_nearest_even;
use alea_js::{Alea, AleaFast, Mash, MashFast};

fn int32(x: f64) -> f64 {
    x as i64 as i32 as f64
}

struct DoubleMash {
    n: f64,
}

impl DoubleMash {
    fn new() -> Self {
        DoubleMash { n: 4022871197.0 }
    }

    fn hash(&mut self, text: &str) -> f64 {
        let e = 0.02519603282416938;
        for unit in text.encode_utf16() {
            self.n += unit as f64;
            let h = e * self.n;
            let t = (h - int32(h)) * int32(h);
            self.n = 4294967296.0 * (t - int32(t)) + int32(t);
        }
        int32(self.n) / 4294967296.0
    }
}

struct DoubleMashFast {
    n: f64,
}

impl DoubleMashFast {
    fn new() -> Self {
        DoubleMashFast { n: 4022871197.0 }
    }

    fn hash(&mut self, text: &str) -> f64 {
        for unit in text.encode_utf16() {
            self.n += unit as f64;
            let mut h = self.n * 0.02519603282416938;
            self.n = h.trunc();
            h -= self.n;
            h *= self.n;
            self.n = h.trunc();
            h -= self.n;
            self.n += (h * 4294967296.0).trunc();
        }
        self.n / 4294967296.0
    }
}

struct DoubleAlea {
    s0: f64,
    s1: f64,
    s2: f64,
    x: f64,
    fast: bool,
}

fn raised(d: f64) -> f64 {
    if d < 0.0 {
        d + 1.0
    } else {
        d
    }
}

impl DoubleAlea {
    fn exact(seed: &str) -> Self {
        let mut mash = DoubleMash::new();
        let a = [mash.hash(" "), mash.hash(" "), mash.hash(" ")];
        let b = [mash.hash(seed), mash.hash(seed), mash.hash(seed)];
        DoubleAlea {
            s0: raised(a[0] - b[0]),
            s1: raised(a[1] - b[1]),
            s2: raised(a[2] - b[2]),
            x: 1.0,
            fast: false,
        }
    }

    fn fast(seed: &str) -> Self {
        let mut mash = DoubleMashFast::new();
        let a = [mash.hash(" "), mash.hash(" "), mash.hash(" ")];
        let b = [mash.hash(seed), mash.hash(seed), mash.hash(seed)];
        DoubleAlea {
            s0: raised(a[0] - b[0]),
            s1: raised(a[1] - b[1]),
            s2: raised(a[2] - b[2]),
            x: 1.0,
            fast: true,
        }
    }

    fn random(&mut self) -> f64 {
        let y = self.x / 4294967296.0 + self.s0 * 2091639.0;
        self.s0 = self.s1;
        self.s1 = self.s2;
        self.x = if self.fast { y.trunc() } else { int32(y) };
        self.s2 = y - self.x;
        self.s2
    }

    fn uint32(&mut self) -> u32 {
        (self.random() * 4294967296.0) as u32
    }
}

struct Lcg(u64);

impl Lcg {
    fn next(&mut self) -> u64 {
        self.0 = self.0.wrapping_mul(6364136223846793005).wrapping_add(1442695040888963407);
        self.0 >> 11
    }

    fn below(&mut self, n: u64) -> u64 {
        self.next() % n
    }

    fn text(&mut self) -> String {
        let len = [0, 1, 2, 3, 5, 8, 13, 20, 40, 100][self.below(10) as usize];
        let kind = self.below(4);
        let mut s = String::new();
        for _ in 0..len {
            let c = match kind {
                0 => {
                    let alphabet = b"abcdefghijklmnopqrstuvwxyzABCDEFGHIJKLMNOPQRSTUVWXYZ0123456789";
                    alphabet[self.below(62) as usize] as char
                }
                1 => char::from_u32(self.below(128) as u32).unwrap(),
                2 => loop {
                    if let Some(c) = char::from_u32(self.below(0x11_0000) as u32) {
                        break c;
                    }
                },
                _ => ['\0', '\u{1}', '\u{ffff}', '\u{d7ff}', '\u{e000}', '\u{10000}', '\u{10ffff}', '\u{1f600}']
                    [self.below(8) as usize],
            };
            s.push(c);
        }
        s
    }
}

#[test]
fn mash_matches_double_arithmetic() {
    let mut rng = Lcg(1);
    for _ in 0..1500 {
        let mut ours = Mash::new();
        let mut theirs = DoubleMash::new();
        for _ in 0..4 {
            let text = rng.text();
            assert_eq!(ours.hash(&text), theirs.hash(&text).to_bits(), "{text:?}");
        }
    }
}

#[test]
fn mash_fast_matches_double_arithmetic() {
    let mut rng = Lcg(2);
    for _ in 0..1500 {
        let mut ours = MashFast::new();
        let mut theirs = DoubleMashFast::new();
        for _ in 0..4 {
            let text = rng.text();
            assert_eq!(ours.hash(&text), theirs.hash(&text).to_bits(), "{text:?}");
        }
    }
}

#[test]
fn alea_matches_double_arithmetic() {
    let mut rng = Lcg(3);
    for _ in 0..1000 {
        let seed = rng.text();
        let mut ours = Alea::new(seed.clone());
        let mut theirs = DoubleAlea::exact(&seed);
        for i in 0..60 {
            if i % 3 == 0 {
                assert_eq!(ours.uint32(), theirs.uint32(), "{seed:?} {i}");
            } else {
                assert_eq!(ours.random(), theirs.random().to_bits(), "{seed:?} {i}");
            }
        }
    }
}

#[test]
fn alea_fast_matches_double_arithmetic() {
    let mut rng = Lcg(4);
    for _ in 0..1000 {
        let seed = rng.text();
        let mut ours = AleaFast::new(seed.clone());
        let mut theirs = DoubleAlea::fast(&seed);
        for i in 0..60 {
            if i % 3 == 0 {
                assert_eq!(ours.uint32(), theirs.uint32(), "{seed:?} {i}");
            } else {
                assert_eq!(ours.random(), theirs.random().to_bits(), "{seed:?} {i}");
            }
        }
    }
}

/// Whether hashing the seed three times after the three spaces ever forms a
/// product with bits below 2^-32, which the fast hash would cut off.
fn cuts_nothing_off(seed: &str) -> bool {
    let mut n = 4022871197.0_f64;
    let mut clean = true;
    let spaces = [" ", " ", " "];
    for text in spaces.iter().copied().chain([seed, seed, seed]) {
        for unit in text.encode_utf16() {
            n += unit as f64;
            let h = n * 0.02519603282416938;
            let t = (h - h.trunc()) * h.trunc();
            let kept = (t - t.trunc()) * 4294967296.0;
            clean = clean && kept == kept.trunc();
            n = t.trunc() + kept.trunc();
        }
    }
    clean
}

#[test]
fn fast_agrees_with_exact_where_nothing_is_cut_off() {
    assert!(cuts_nothing_off("frank"));
    assert!(cuts_nothing_off(""));
    assert!(!cuts_nothing_off("D,"));
    let mut rng = Lcg(5);
    let mut clean = 0;
    let mut parted = 0;
    for _ in 0..3000 {
        let seed = rng.text();
        let mut exact = Alea::new(seed.clone());
        let mut fast = AleaFast::new(seed.clone());
        let mut same = true;
        for _ in 0..30 {
            same = same && exact.random() == fast.random();
        }
        if cuts_nothing_off(&seed) {
            clean += 1;
            assert!(same, "{seed:?}");
        } else if !same {
            parted += 1;
        }
    }
    assert!(clean > 1000);
    assert!(parted > 100);
}

#[test]
fn alea_fast_stays_in_the_unit_interval() {
    let mut rng = Lcg(10);
    for _ in 0..2000 {
        let seed = rng.text();
        let mut fast = AleaFast::new(seed.clone());
        for _ in 0..20 {
            let bits = fast.random();
            let x = f64::from_bits(bits);
            assert!(0.0 <= x && x < 1.0, "{seed:?} {x}");
            assert!(bits < 1f64.to_bits());
        }
    }
}

/// The low 32 bits of the integer part, through the remainder of a
/// division of doubles, which is exact.
fn low_bits(x: f64) -> f64 {
    if x.is_finite() {
        int32(x.trunc() % 4294967296.0)
    } else {
        0.0
    }
}

#[test]
fn bit_or_matches_the_remainder_modulo_two_to_the_thirty_two() {
    let mut rng = Lcg(6);
    for i in 0..400_000u64 {
        let mut bits = (rng.next() << 32) ^ rng.next() ^ (rng.next() << 11);
        if i % 2 == 1 {
            // keep the exponent where some of the low 32 bits are set
            let e = 1020 + rng.below(92);
            bits = (bits & !(0x7ff << 52)) | (e << 52);
        }
        let x = f64::from_bits(bits);
        assert_eq!(bit_or(bits), low_bits(x).to_bits(), "{x:e}");
        if x.abs() < 9223372036854775808.0 {
            assert_eq!(bit_or(bits), int32(x).to_bits(), "{x:e}");
        }
    }
}

#[test]
fn wrap_i64_matches_the_cast() {
    let mut rng = Lcg(7);
    for _ in 0..100_000 {
        let i = ((rng.next() << 32) ^ rng.next() ^ (rng.next() << 11)) as i64;
        assert_eq!(wrap_i64(i), i as i32);
        let small = i >> (rng.below(64) as u32);
        assert_eq!(wrap_i64(small), small as i32);
    }
    for i in [0, 1, -1, i64::MAX, i64::MIN, i64::MIN + 1, 2147483647, 2147483648, -2147483648, -2147483649, 4294967295, 4294967296, -4294967296, -4294967297] {
        assert_eq!(wrap_i64(i), i as i32, "{i}");
    }
}

#[test]
fn from_scaled_matches_division_by_a_power_of_two() {
    let mut rng = Lcg(8);
    for _ in 0..100_000 {
        let magnitude = (rng.next() >> rng.below(53) as u32) as i64;
        let num = if rng.below(2) == 0 { magnitude } else { -magnitude };
        let scale = rng.below(1023) as u32;
        let expected = if num == 0 { 0.0 } else { num as f64 * 2f64.powi(-(scale as i32)) };
        assert_eq!(from_scaled(num, scale), expected.to_bits(), "{num} / 2^{scale}");
    }
    assert_eq!(from_scaled(1, 0), 1f64.to_bits());
    assert_eq!(from_scaled(-1, 0), (-1f64).to_bits());
    assert_eq!(from_scaled(1, 32), 0x3df0_0000_0000_0000);
    assert_eq!(from_scaled(3470709064, 32), 0.8080874253064394f64.to_bits());
    assert_eq!(from_scaled(9007199254740991, 0), 9007199254740991f64.to_bits());
    assert_eq!(from_scaled(-9007199254740991, 1022), (-9007199254740991f64 * 2f64.powi(-1022)).to_bits());
    assert_eq!(from_scaled(1, 1022), f64::MIN_POSITIVE.to_bits());
}

#[test]
fn round_nearest_even_matches_conversion_to_double() {
    let mut rng = Lcg(9);
    for _ in 0..200_000 {
        let wide = ((rng.next() as u128) << 75) ^ ((rng.next() as u128) << 30) ^ rng.next() as u128;
        let m = wide >> (1 + rng.below(127) as u32);
        let r = round_nearest_even(m);
        assert_eq!(r as f64, m as f64, "{m:#x}");
        assert!(r == 0 || 128 - r.leading_zeros() - r.trailing_zeros() <= 53, "{m:#x}");
    }
}

#[test]
fn round_nearest_even_exact_values() {
    let cases: [(u128, u128); 15] = [
        (0, 0),
        (1, 1),
        (0x1f_ffff_ffff_ffff, 0x1f_ffff_ffff_ffff),
        (0x20_0000_0000_0000, 0x20_0000_0000_0000),
        (0x20_0000_0000_0001, 0x20_0000_0000_0000),
        (0x20_0000_0000_0002, 0x20_0000_0000_0002),
        (0x20_0000_0000_0003, 0x20_0000_0000_0004),
        (0x3f_ffff_ffff_ffff, 0x40_0000_0000_0000),
        (0x40_0000_0000_0002, 0x40_0000_0000_0000),
        (0x40_0000_0000_0005, 0x40_0000_0000_0004),
        (0x40_0000_0000_0006, 0x40_0000_0000_0008),
        (0x1000_0000_0000_0080, 0x1000_0000_0000_0000),
        (0x1000_0000_0000_0081, 0x1000_0000_0000_0100),
        (0x1000_0000_0000_0180, 0x1000_0000_0000_0200),
        (0xc154_6171_10b7_77e3, 0xc154_6171_10b7_7800),
    ];
    for (m, expected) in cases {
        assert_eq!(round_nearest_even(m), expected, "{m:#x}");
    }
    let top = (1u128 << 127) - 1;
    assert_eq!(round_nearest_even(top), 1u128 << 127);
}
