use rustic_factors::primality_test::miller_rabin::composite_evidence::{
    fails_fermats_condition, modpow, CompositeEvidence, Decomposed, RaisedToNMinus1ModN,
};
use rustic_factors::primality_test::miller_rabin::utils::{
    highest_power_of_2_divisor, RandomIntegers,
};
use rustic_factors::primality_test::miller_rabin::witnessed::{
    add_mod, is_nontrivial_sqrt_of_1, modular_exponentiation, mul_mod, passes_fermats_condition,
    RaisedToNMinus1, Witnessed,
};
use rustic_factors::primality_test::miller_rabin::{
    miller_rabin, miller_rabin_with_bases, TRIALS,
};
use rustic_factors::primality_test::MillerRabin;
use rustic_factors::traits::PrimalityTest;
use rustic_factors::uint::U512;

fn big(x: u128) -> U512 {
    U512::from_u128(x)
}

#[test]
fn modpow_values() {
    assert_eq!(modpow(&big(2), &big(10), &big(1000)).to_u128(), Some(24));
    assert_eq!(modpow(&big(3), &big(0), &big(7)).to_u128(), Some(1));
    assert_eq!(modpow(&big(3), &big(0), &big(1)).to_u128(), Some(0));
    assert_eq!(modpow(&big(0), &big(5), &big(7)).to_u128(), Some(0));
    assert_eq!(modpow(&big(10), &big(3), &big(7)).to_u128(), Some(6));
    // Fermat: 2^(p-1) = 1 modulo the prime 2^61 - 1
    let p = (1u128 << 61) - 1;
    assert_eq!(modpow(&big(2), &big(p - 1), &big(p)).to_u128(), Some(1));
}

#[test]
fn modpow_with_a_modulus_above_256_bits() {
    // 2^512 = 1 modulo 2^512 - 1
    let m = U512::from_digits([u64::MAX; 8]);
    assert_eq!(modpow(&big(2), &big(512), &m).to_u128(), Some(1));
    assert_eq!(modpow(&big(2), &big(513), &m).to_u128(), Some(2));
}

#[test]
fn highest_power_of_2_divisor_values() {
    assert_eq!(highest_power_of_2_divisor(&big(1)), 0);
    assert_eq!(highest_power_of_2_divisor(&big(40)), 3);
    assert_eq!(highest_power_of_2_divisor(&big(1 << 100)), 100);
    assert_eq!(highest_power_of_2_divisor(&U512::from_digits([0, 0, 0, 0, 0, 0, 0, 1 << 63])), 511);
}

#[test]
fn decomposed_splits_off_the_odd_factor() {
    let d = Decomposed::new(big(48));
    assert_eq!(d.exponent_of_2, 4);
    assert_eq!(d.odd_factor.to_u128(), Some(3));
    let d = Decomposed::new(big(560));
    assert_eq!(d.exponent_of_2, 4);
    assert_eq!(d.odd_factor.to_u128(), Some(35));
    let d = Decomposed::new(big(7));
    assert_eq!(d.exponent_of_2, 0);
    assert_eq!(d.odd_factor.to_u128(), Some(7));
}

#[test]
fn fermats_condition() {
    assert!(fails_fermats_condition(RaisedToNMinus1ModN(big(2))));
    assert!(fails_fermats_condition(RaisedToNMinus1ModN(big(0))));
    assert!(!fails_fermats_condition(RaisedToNMinus1ModN(big(1))));
    assert!(passes_fermats_condition(RaisedToNMinus1(1)));
    assert!(!passes_fermats_condition(RaisedToNMinus1(0)));
    assert!(!passes_fermats_condition(RaisedToNMinus1(560)));
}

#[test]
fn nontrivial_square_roots_of_one() {
    let evidence = CompositeEvidence::new(&big(8));
    assert!(evidence.is_nontrivial_sqrt_of_1(&big(3)));
    assert!(evidence.is_nontrivial_sqrt_of_1(&big(5)));
    assert!(!evidence.is_nontrivial_sqrt_of_1(&big(1)));
    assert!(!evidence.is_nontrivial_sqrt_of_1(&big(7)));
    assert!(!evidence.is_nontrivial_sqrt_of_1(&big(2)));
    let evidence = CompositeEvidence::new(&big(13));
    for x in 0..13 {
        assert!(!evidence.is_nontrivial_sqrt_of_1(&big(x)));
    }
    assert!(is_nontrivial_sqrt_of_1(3, 8));
    assert!(!is_nontrivial_sqrt_of_1(7, 8));
    assert!(!is_nontrivial_sqrt_of_1(1, 8));
}

#[test]
fn no_base_is_a_witness_against_a_prime() {
    for p in [5u128, 7, 13, 97, 104729] {
        let evidence = CompositeEvidence::new(&big(p));
        let witnessed = Witnessed::new(p);
        for a in 2..=(p - 2).min(200) {
            assert!(!evidence.witnessed_by(&big(a)), "{} against {}", a, p);
            assert!(witnessed.not_by(a), "{} against {}", a, p);
        }
    }
}

#[test]
fn witnesses_against_a_carmichael_number() {
    // 561 = 3 * 11 * 17 passes Fermat's test to every base prime to it,
    // but the chain of squares gives it away
    let evidence = CompositeEvidence::new(&big(561));
    let witnessed = Witnessed::new(561);
    assert_eq!(modpow(&big(2), &big(560), &big(561)).to_u128(), Some(1));
    assert!(evidence.witnessed_by(&big(2)));
    assert!(!witnessed.not_by(2));
    // the bases from 2 to 559 to which 561 is a strong probable prime
    let liars: Vec<u128> = (2..=559).filter(|&a| witnessed.not_by(a)).collect();
    assert_eq!(liars, vec![50, 101, 103, 256, 305, 458, 460, 511]);
    for a in 2..=559u128 {
        assert_eq!(evidence.witnessed_by(&big(a)), !liars.contains(&a));
    }
}

#[test]
fn the_test_with_given_bases() {
    let bases = |values: &[u128]| values.iter().map(|&b| big(b)).collect::<Vec<U512>>();
    // fooled by bases to which 561 is a strong probable prime
    assert!(miller_rabin_with_bases(&big(561), &bases(&[50, 101, 103])));
    // one witness among them is enough
    assert!(!miller_rabin_with_bases(&big(561), &bases(&[50, 2, 101])));
    assert!(!miller_rabin_with_bases(&big(561), &bases(&[2])));
    assert!(miller_rabin_with_bases(&big(561), &bases(&[])));
    assert!(miller_rabin_with_bases(&big(104729), &bases(&[2, 3, 5, 7, 11, 13])));
    // 3215031751 is the least number that passes to the bases 2, 3, 5 and 7
    assert!(miller_rabin_with_bases(&big(3215031751), &bases(&[2, 3, 5, 7])));
    assert!(!miller_rabin_with_bases(&big(3215031751), &bases(&[2, 3, 5, 7, 11])));
}

#[test]
fn strong_liars_of_nine_are_plus_and_minus_one() {
    let evidence = CompositeEvidence::new(&big(9));
    for a in 2..=7 {
        assert!(evidence.witnessed_by(&big(a)));
    }
    assert!(!evidence.witnessed_by(&big(1)));
    assert!(!evidence.witnessed_by(&big(8)));
    assert!(!miller_rabin(&big(9), 1));
    assert!(miller_rabin(&big(9), 0));
}

#[test]
fn the_machine_word_test_agrees_on_large_words() {
    // 2^127 - 1 is prime, 2^127 - 3 is not
    let p = (1u128 << 127) - 1;
    let witnessed = Witnessed::new(p);
    let evidence = CompositeEvidence::new(&big(p));
    for a in [2u128, 3, 5, 7, p - 2] {
        assert!(witnessed.not_by(a));
        assert!(!evidence.witnessed_by(&big(a)));
    }
    let c = (1u128 << 127) - 3;
    assert!(!Witnessed::new(c).not_by(2));
    assert!(CompositeEvidence::new(&big(c)).witnessed_by(&big(2)));
}

#[test]
fn machine_word_arithmetic() {
    assert_eq!(add_mod(5, 6, 7), 4);
    assert_eq!(add_mod(u128::MAX - 2, u128::MAX - 2, u128::MAX), u128::MAX - 4);
    assert_eq!(mul_mod(123, 456, 1000), 88);
    assert_eq!(mul_mod(u128::MAX - 1, u128::MAX - 1, u128::MAX), 1);
    assert_eq!(mul_mod(1 << 127, 2, u128::MAX), 1);
    assert_eq!(modular_exponentiation(2, 10, 1000), 24);
    assert_eq!(modular_exponentiation(2, 128, u128::MAX), 1);
    assert_eq!(modular_exponentiation(5, 0, 1), 0);
}

#[test]
fn random_integers_stay_in_range() {
    let mut source = RandomIntegers::new(big(2), big(12));
    let mut seen = [false; 12];
    for _ in 0..2000 {
        let x = source.next().to_u128().unwrap();
        assert!((2..12).contains(&x));
        seen[x as usize] = true;
    }
    assert!(seen[2..].iter().all(|&s| s));
    let mut single = RandomIntegers::new(big(5), big(6));
    assert_eq!(single.next().to_u128(), Some(5));
}

#[test]
fn is_prime_small_cases() {
    let expected = [
        false, false, true, true, false, true, false, true, false, false, false, true, false,
        true, false, false, false, true, false, true, false,
    ];
    for (n, &prime) in expected.iter().enumerate() {
        assert_eq!(MillerRabin::is_prime(&big(n as u128)), prime, "for {}", n);
    }
    assert_eq!(TRIALS, 50);
}

#[test]
fn is_prime_beyond_machine_words() {
    let p = (1u128 << 127) - 1;
    assert!(MillerRabin::is_prime(&big(p)));
    // (2^127 - 1)^2 = 2^254 - 2^128 + 1, a composite of 254 bits
    let square = U512::from_digits([1, 0, u64::MAX, 0x3FFF_FFFF_FFFF_FFFF, 0, 0, 0, 0]);
    assert!(!MillerRabin::is_prime(&square));
    // 2^256 - 189 is the largest prime below 2^256
    let q = U512::from_digits([u64::MAX - 188, u64::MAX, u64::MAX, u64::MAX, 0, 0, 0, 0]);
    assert!(MillerRabin::is_prime(&q));
    // 2^512 - 569 is the largest prime below 2^512
    let r = U512::from_digits([
        u64::MAX - 568,
        u64::MAX,
        u64::MAX,
        u64::MAX,
        u64::MAX,
        u64::MAX,
        u64::MAX,
        u64::MAX,
    ]);
    assert!(MillerRabin::is_prime(&r));
    let s = U512::from_digits([u64::MAX; 8]);
    assert!(!MillerRabin::is_prime(&s));
}
