use rustic_factors::algorithms::fermats_factorization_method::{ceil_sqrt, is_perfect_square};
use rustic_factors::algorithms::pollards_rho::utils::{
    finished, floyds_cycle_detection, generate_pseudorandom_fn, PseudorandomFn,
};
use rustic_factors::algorithms::trial_division::trial_div;
use rustic_factors::algorithms::{FermatsFactorizationMethod, PollardsRho};
use rustic_factors::traits::Factorize;
use rustic_factors::uint::U512;

fn big(x: u128) -> U512 {
    U512::from_u128(x)
}

fn small(x: U512) -> u128 {
    x.to_u128().unwrap()
}

fn small_all(v: Vec<U512>) -> Vec<u128> {
    v.iter().map(|x| x.to_u128().unwrap()).collect()
}

#[test]
fn ceil_sqrt_values() {
    assert_eq!(small(ceil_sqrt(&big(0))), 0);
    assert_eq!(small(ceil_sqrt(&big(1))), 1);
    assert_eq!(small(ceil_sqrt(&big(2))), 2);
    assert_eq!(small(ceil_sqrt(&big(10))), 4);
    assert_eq!(small(ceil_sqrt(&big(16))), 4);
    assert_eq!(small(ceil_sqrt(&big(17))), 5);
    assert_eq!(small(ceil_sqrt(&big(5959))), 78);
    assert_eq!(small(ceil_sqrt(&big(u128::MAX))), 1 << 64);
}

#[test]
fn ceil_sqrt_at_the_top_of_the_range() {
    // the least number whose square is not below 2^512 - 1 is 2^256
    let root = ceil_sqrt(&U512::from_digits([u64::MAX; 8]));
    assert_eq!(root.digits(), [0, 0, 0, 0, 1, 0, 0, 0]);
}

#[test]
fn perfect_squares() {
    for (n, expected) in [(0, true), (1, true), (2, false), (49, true), (50, false), (441, true)] {
        assert_eq!(is_perfect_square(&big(n)), expected, "for {}", n);
    }
    assert!(is_perfect_square(&big(1 << 126)));
    assert!(!is_perfect_square(&big((1 << 126) + 1)));
}

#[test]
fn fermat_finds_the_divisor_above_the_root() {
    // 80^2 - 5959 = 21^2
    assert_eq!(small(FermatsFactorizationMethod::factorize(&big(5959))), 101);
    assert_eq!(small(FermatsFactorizationMethod::factorize(&big(8051))), 97);
    assert_eq!(small(FermatsFactorizationMethod::factorize(&big(15))), 5);
    // a square: the root itself
    assert_eq!(small(FermatsFactorizationMethod::factorize(&big(49))), 7);
    // three factors: the least divisor that is not below the root
    assert_eq!(small(FermatsFactorizationMethod::factorize(&big(105))), 15);
}

#[test]
fn fermat_returns_a_prime_itself() {
    for p in [3u128, 5, 7, 13, 409, 9001] {
        assert_eq!(small(FermatsFactorizationMethod::factorize(&big(p))), p);
    }
}

#[test]
fn fermat_gives_up_where_squares_do_not_fit() {
    // 2^512 - 1 has no square root below 2^256, whose square cannot be formed
    let n = U512::from_digits([u64::MAX; 8]);
    assert_eq!(FermatsFactorizationMethod::factorize(&n), n);
}

#[test]
fn fermat_on_two_close_factors_beyond_machine_words() {
    // (2^127 - 1) * (2^127 + 1) = 2^254 - 1
    let n = U512::from_digits([u64::MAX, u64::MAX, u64::MAX, 0x3FFF_FFFF_FFFF_FFFF, 0, 0, 0, 0]);
    let d = FermatsFactorizationMethod::factorize(&n);
    assert_eq!(d.to_u128(), Some((1 << 127) + 1));
}

#[test]
fn pseudorandom_fn_squares_and_adds() {
    let f = PseudorandomFn::new(big(1), big(8051));
    assert_eq!(small(f.call(&big(2))), 5);
    assert_eq!(small(f.call(&big(5))), 26);
    assert_eq!(small(f.call(&big(26))), 677);
    assert_eq!(small(f.call(&big(677))), 7474);
    assert_eq!(small(f.call(&big(7474))), 2839);
    assert_eq!(small(f.n().clone()), 8051);
    // an argument above the modulus is reduced
    assert_eq!(small(f.call(&big(8051 + 2))), 5);
}

#[test]
fn pseudorandom_fn_with_a_modulus_above_256_bits() {
    // x = m - 1 = -1: x^2 + 1 = 2
    let m = U512::from_digits([u64::MAX; 8]);
    let f = PseudorandomFn::new(big(1), m);
    let x = U512::from_digits([
        u64::MAX - 1,
        u64::MAX,
        u64::MAX,
        u64::MAX,
        u64::MAX,
        u64::MAX,
        u64::MAX,
        u64::MAX,
    ]);
    assert_eq!(small(f.call(&x)), 2);
}

#[test]
fn generated_constant_is_in_range() {
    for _ in 0..200 {
        let f = generate_pseudorandom_fn(&big(5));
        // from 0 the map leads to its constant
        let c = small(f.call(&big(0)));
        assert!((2..5).contains(&c));
    }
    let f = generate_pseudorandom_fn(&big(3));
    assert_eq!(small(f.call(&big(0))), 2);
}

#[test]
fn walkers_finish_where_the_distance_shares_a_factor() {
    assert!(!finished(&big(2), &big(5), &big(8051)));
    assert!(!finished(&big(5), &big(677), &big(8051)));
    assert!(finished(&big(26), &big(2839), &big(8051)));
    assert!(finished(&big(2839), &big(26), &big(8051)));
    // equal places: the distance 0 shares the modulus itself
    assert!(finished(&big(7), &big(7), &big(8051)));
}

#[test]
fn floyd_on_the_classic_example() {
    // modulo 8051 with constant 1 the walk from 2 is 2, 5, 26, 677, 7474, 2839, ...
    let f = PseudorandomFn::new(big(1), big(8051));
    let (tortoise, hare) = floyds_cycle_detection(big(2), &f);
    assert_eq!(small(tortoise), 26);
    assert_eq!(small(hare), 2839);
}

#[test]
fn pollards_rho_with_a_given_constant() {
    // the walkers stand on 26 and 2839, and 2813 = 29 * 97
    let f = PseudorandomFn::new(big(1), big(8051));
    assert_eq!(small(PollardsRho::factorize_with(&f)), 97);
    // the same constant gives the same divisor
    assert_eq!(small(PollardsRho::factorize_with(&f)), 97);
    // modulo a prime the walk can only yield the prime itself
    let f = PseudorandomFn::new(big(2), big(13));
    assert_eq!(small(PollardsRho::factorize_with(&f)), 13);
}

#[test]
fn floyd_ends_on_a_prime_modulus() {
    // modulo a prime the walkers can only meet on the same place
    let f = PseudorandomFn::new(big(2), big(13));
    let (tortoise, hare) = floyds_cycle_detection(big(2), &f);
    assert_eq!(tortoise, hare);
}

#[test]
fn pollards_rho_returns_a_divisor_other_than_one() {
    for n in [8051u128, 15, 21, 5959, 10403, 561, 13, 3, 9] {
        for _ in 0..20 {
            let d = small(PollardsRho::factorize(&big(n)));
            assert!(d > 1 && n % d == 0, "{} for {}", d, n);
        }
    }
}

#[test]
fn trial_division_is_ascending() {
    assert_eq!(small_all(trial_div(big(1))), Vec::<u128>::new());
    assert_eq!(small_all(trial_div(big(2))), vec![2]);
    assert_eq!(small_all(trial_div(big(4))), vec![2, 2]);
    assert_eq!(small_all(trial_div(big(9))), vec![3, 3]);
    assert_eq!(small_all(trial_div(big(36))), vec![2, 2, 3, 3]);
    assert_eq!(small_all(trial_div(big(102030))), vec![2, 3, 5, 19, 179]);
    assert_eq!(small_all(trial_div(big(8051))), vec![83, 97]);
    assert_eq!(small_all(trial_div(big(1_000_003 * 999_983))), vec![999_983, 1_000_003]);
    assert_eq!(small_all(trial_div(big(4096))), vec![2; 12]);
}

#[test]
fn trial_division_beyond_machine_words() {
    // 2^200 * 3
    let n = U512::from_digits([0, 0, 0, 3 << 8, 0, 0, 0, 0]);
    let factors = small_all(trial_div(n));
    let mut expected = vec![2u128; 200];
    expected.push(3);
    assert_eq!(factors, expected);
}
