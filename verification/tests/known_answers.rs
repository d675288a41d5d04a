use alea_js::int32::bit_or;
use alea_js::{Alea, AleaFast, Mash, MashFast};

fn coerce(x: f64) -> f64 {
    f64::from_bits(bit_or(x.to_bits()))
}

fn hash(mash: &mut Mash, text: &str) -> f64 {
    f64::from_bits(mash.hash(text))
}

#[test]
fn bit_or_test() {
    assert_eq!(coerce(0.2), 0.0); //near-zero testing
    assert_eq!(coerce(-1.8), -1.0);
    assert_eq!(coerce(1.9), 1.0);

    assert_eq!(coerce(4294967296.3), 0.0); //u32 min
    assert_eq!(coerce(4294967295.6), -1.0);
    assert_eq!(coerce(4294967297.9), 1.0);

    assert_eq!(coerce(2147483648.9), -2147483648.0); //i32 min
    assert_eq!(coerce(2147483647.3), 2147483647.0);
    assert_eq!(coerce(2147483649.1), -2147483647.0);
}

#[test]
fn mash_test() {
    let mut mash = Mash::new();
    assert_eq!(hash(&mut mash, ""), -0.06335230986587703);
    let mut mash = Mash::new();
    assert_eq!(hash(&mut mash, " "), -0.1366710769943893);
    let mut mash = Mash::new();
    assert_eq!(hash(&mut mash, "frank"), 0.044354382902383804);
    let mut mash = Mash::new();
    assert_eq!(hash(&mut mash, "cat"), 0.06714190426282585);
    assert_eq!(hash(&mut mash, "rat"), -0.24548634607344866);
    assert_eq!(hash(&mut mash, "bat"), 0.05828765174373984);
    assert_eq!(hash(&mut mash, " "), 0.03728155279532075);
    assert_eq!(hash(&mut mash, " "), 0.32264634780585766);
    assert_eq!(hash(&mut mash, " "), -0.356016042875126);
    assert_eq!(hash(&mut mash, " "), -0.4360403118189424);
}

#[test]
fn alea_test() {
    let mut a = Alea::new("frank".to_string());
    assert_eq!(f64::from_bits(a.random()), 0.8080874253064394);
    assert_eq!(f64::from_bits(a.random()), 0.8366762748919427);
    assert_eq!(f64::from_bits(a.random()), 0.24404818122275174);
    let mut a = Alea::new("frank".to_string());
    assert_eq!(a.uint32(), 3470709064);
}

#[test]
fn alea_fast_test() {
    let mut a = AleaFast::new("frank".to_string());
    assert_eq!(f64::from_bits(a.random()), 0.8080874253064394);
    assert_eq!(f64::from_bits(a.random()), 0.8366762748919427);
    assert_eq!(f64::from_bits(a.random()), 0.24404818122275174);
    let mut a = AleaFast::new("frank".to_string());
    assert_eq!(a.uint32(), 3470709064);
}

#[test]
fn bit_or_of_zeros_and_fractions_is_positive_zero() {
    for x in [0.0, -0.0, 0.5, -0.5, 0.999, -0.999, 5e-324, -5e-324, 2.2e-308] {
        assert_eq!(bit_or(f64::to_bits(x)), 0, "{x}");
    }
}

#[test]
fn bit_or_wraps_integers_of_any_size() {
    let two63 = 9223372036854775808.0_f64;
    assert_eq!(bit_or(two63.to_bits()), 0);
    assert_eq!(bit_or((-two63).to_bits()), 0);
    assert_eq!(coerce(two63 + 2048.0), 2048.0);
    assert_eq!(coerce(-two63 - 2048.0), -2048.0);
    assert_eq!(bit_or(0xC3E0_0000_0000_0001), (-2048.0_f64).to_bits());
    // the largest doubles below 2^63 in magnitude are multiples of 1024
    assert_eq!(coerce(two63 - 1024.0), -1024.0);
    assert_eq!(coerce(-two63 + 1024.0), 1024.0);
    // 2^70 + 2^18
    assert_eq!(coerce(1180591620717411303424.0 + 262144.0), 262144.0);
    // (2^53 - 1) * 2^31: only bit 31 is left
    assert_eq!(coerce(9007199254740991.0 * 2147483648.0), -2147483648.0);
    assert_eq!(coerce(-9007199254740991.0 * 2147483648.0), -2147483648.0);
    // (2^53 - 1) * 2^30
    assert_eq!(coerce(9007199254740991.0 * 1073741824.0), -1073741824.0);
    assert_eq!(coerce(-9007199254740991.0 * 1073741824.0), 1073741824.0);
    // from 2^32 times an integer on, nothing is left
    for x in [two63 * 2.0, 9007199254740991.0 * 4294967296.0, 1e300, -1e300, f64::MAX, f64::MIN] {
        assert_eq!(bit_or(x.to_bits()), 0, "{x:e}");
    }
}

#[test]
fn bit_or_outside_the_finite_numbers() {
    assert_eq!(bit_or(f64::NAN.to_bits()), 0);
    assert_eq!(bit_or((-f64::NAN).to_bits()), 0);
    assert_eq!(bit_or(f64::INFINITY.to_bits()), 0);
    assert_eq!(bit_or(f64::NEG_INFINITY.to_bits()), 0);
}

#[test]
fn bit_or_keeps_integers_of_thirty_two_bits() {
    for i in [0i32, 1, -1, 2, 1000, -1000, i32::MAX, i32::MIN, i32::MAX - 1, i32::MIN + 1] {
        assert_eq!(coerce(i as f64), i as f64);
    }
    assert_eq!(coerce(4503599627370496.0), 0.0); // 2^52
    assert_eq!(coerce(4503599627370497.0), 1.0);
    assert_eq!(coerce(9007199254740991.0), -1.0); // 2^53 - 1
    assert_eq!(coerce(-4294967297.0), -1.0);
    assert_eq!(coerce(-2147483649.0), 2147483647.0);
}

#[test]
fn mash_absorb_is_the_hash_times_two_to_the_thirty_two() {
    let mut a = Mash::new();
    let mut b = Mash::new();
    for text in ["", " ", "frank", "cat", "rat", "bat"] {
        let k = a.absorb(text);
        let h = f64::from_bits(b.hash(text));
        assert_eq!(k as f64 / 4294967296.0, h);
    }
    let mut m = Mash::new();
    assert_eq!(m.absorb(""), -272096099);
}

#[test]
fn mash_of_the_same_text_changes_from_call_to_call() {
    let mut mash = Mash::new();
    let first = hash(&mut mash, "frank");
    let second = hash(&mut mash, "frank");
    let third = hash(&mut mash, "frank");
    assert_ne!(first, second);
    assert_ne!(second, third);
    assert_ne!(first, third);
    let mut mash = Mash::new();
    assert_eq!(hash(&mut mash, " "), -0.1366710769943893);
    assert_eq!(hash(&mut mash, " "), 0.15019597788341343);
    assert_eq!(hash(&mut mash, " "), -0.08230470051057637);
}

#[test]
fn mash_reads_text_as_utf16_code_units() {
    let mut mash = Mash::new();
    assert_eq!(hash(&mut mash, "\u{1F600}"), -0.007891250541433692);
    assert_eq!(hash(&mut mash, "\u{1F600}"), -0.2795039911288768);
    let mut mash = Mash::new();
    assert_eq!(hash(&mut mash, "\0"), 0.008772500324994326);
    let mut mash = Mash::new();
    assert_eq!(hash(&mut mash, "\u{e9}\u{4e2d}"), -0.04470996302552521);
}

#[test]
fn mash_fast_known_answers() {
    let mut mash = MashFast::new();
    assert_eq!(f64::from_bits(mash.hash("")), 0.936647690134123);
    let mut mash = MashFast::new();
    assert_eq!(f64::from_bits(mash.hash("frank")), 0.044354382902383804);
    assert_eq!(f64::from_bits(mash.hash("frank")), 0.7963146364782006);
    let mut mash = MashFast::new();
    assert_eq!(f64::from_bits(mash.hash(" ")), 0.8633289230056107);
    assert_eq!(f64::from_bits(mash.hash(" ")), 0.15019597788341343);
    assert_eq!(f64::from_bits(mash.hash(" ")), 0.9176952994894236);
    let mut mash = MashFast::new();
    assert_eq!(mash.absorb(""), 4022871197);
}

#[test]
fn alea_known_answers_for_other_seeds() {
    let mut a = Alea::new(String::new());
    assert_eq!(f64::from_bits(a.random()), 0.1666577742435038);
    assert_eq!(f64::from_bits(a.random()), 0.4869158477522433);
    assert_eq!(f64::from_bits(a.random()), 0.00011322717182338238);
    assert_eq!(a.uint32(), 3866591158);
    let mut a = Alea::new("8d6uQIixjuYYY6etTcUs".to_string());
    assert_eq!(f64::from_bits(a.random()), 0.6959943999536335);
    assert_eq!(f64::from_bits(a.random()), 0.5661166675854474);
    assert_eq!(f64::from_bits(a.random()), 0.7752844418864697);
    assert_eq!(a.uint32(), 133522727);
    let mut a = Alea::new("\u{1F600}".to_string());
    assert_eq!(f64::from_bits(a.random()), 0.08367577847093344);
    assert_eq!(f64::from_bits(a.random()), 0.13937416090629995);
    assert_eq!(f64::from_bits(a.random()), 0.7861181884072721);
}

#[test]
fn alea_long_run() {
    let mut a = Alea::new("frank".to_string());
    let first: Vec<u32> = (0..5).map(|_| a.uint32()).collect();
    assert_eq!(first, vec![3470709064, 3593497238, 1048178957, 749855681, 3123868205]);
    let mut a = Alea::new("frank".to_string());
    for _ in 0..1000 {
        a.random();
    }
    assert_eq!(f64::from_bits(a.random()), 0.7498600177932531);
    assert_eq!(a.uint32(), 2700628574);
}

#[test]
fn alea_fast_parts_from_alea_on_some_seeds() {
    let mut exact = Alea::new("D,".to_string());
    let mut fast = AleaFast::new("D,".to_string());
    assert_eq!(f64::from_bits(exact.random()), 0.9054096760228276);
    assert_eq!(f64::from_bits(fast.random()), 0.9054096760228276);
    assert_eq!(f64::from_bits(exact.random()), 0.8081407507415861);
    assert_eq!(f64::from_bits(fast.random()), 0.345816595479846);
    assert_eq!(f64::from_bits(exact.random()), 0.011159986956045032);
    assert_eq!(f64::from_bits(fast.random()), 0.6572590863797814);
    assert_eq!(exact.uint32(), 813769634);
    assert_eq!(fast.uint32(), 813297178);
}
