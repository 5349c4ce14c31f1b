use rustic_factors::algorithms::{FermatsFactorizationMethod, PollardsRho, TrialDivision};
use rustic_factors::orchestration::recursive::{
    classify, next_step, splits, DivisorOfN, NextStep, RecursivePrimeFactorization,
};
use std::collections::HashMap;
use std::sync::atomic::{AtomicUsize, Ordering};
use std::sync::Mutex;
use rustic_factors::primality_test::MillerRabin;
use rustic_factors::traits::{FactorizationError, Factorize, PrimalityTest, PrimeFactorization};
use rustic_factors::uint::U512;

fn big(x: u128) -> U512 {
    U512::from_u128(x)
}

fn sorted<F: PrimeFactorization>(n: u128) -> Vec<u128> {
    let mut factors: Vec<u128> = F::prime_factorization(&big(n))
        .unwrap()
        .iter()
        .map(|f| f.to_u128().unwrap())
        .collect();
    factors.sort_unstable();
    factors
}

const SAMPLES: [u128; 16] = [
    2, 3, 4, 36, 97, 561, 4096, 5959, 8051, 10403, 102030, 65536 * 81, 1_000_003 * 999_983,
    600851475143, 4294967297, 18446744073709551617,
];

#[test]
fn product_of_the_factors_is_the_number() {
    for n in SAMPLES {
        assert_eq!(sorted::<PollardsRho>(n).iter().product::<u128>(), n);
    }
    for n in [2u128, 3, 4, 36, 97, 561, 4096, 5959, 8051, 10403, 102030, 600851475143] {
        assert_eq!(sorted::<TrialDivision>(n).iter().product::<u128>(), n);
        assert_eq!(sorted::<FermatsFactorizationMethod>(n).iter().product::<u128>(), n);
    }
}

#[test]
fn every_factor_is_prime() {
    for n in SAMPLES {
        for factor in sorted::<PollardsRho>(n) {
            assert!(MillerRabin::is_prime(&big(factor)), "{} of {}", factor, n);
        }
    }
    for n in [36u128, 561, 5959, 102030] {
        for factor in sorted::<TrialDivision>(n) {
            assert!(MillerRabin::is_prime(&big(factor)));
        }
        for factor in sorted::<FermatsFactorizationMethod>(n) {
            assert!(MillerRabin::is_prime(&big(factor)));
        }
    }
}

#[test]
fn a_prime_is_its_own_factorization() {
    for p in [2u128, 3, 5, 13, 104729, 6700417, (1 << 61) - 1] {
        assert_eq!(sorted::<PollardsRho>(p), vec![p]);
    }
    for p in [2u128, 3, 5, 13, 104729] {
        assert_eq!(sorted::<TrialDivision>(p), vec![p]);
        assert_eq!(sorted::<FermatsFactorizationMethod>(p), vec![p]);
    }
    let p = (1u128 << 127) - 1;
    assert_eq!(sorted::<PollardsRho>(p), vec![p]);
    assert_eq!(sorted::<FermatsFactorizationMethod>(p), vec![p]);
}

#[test]
fn known_decompositions() {
    assert_eq!(sorted::<PollardsRho>(36), vec![2, 2, 3, 3]);
    assert_eq!(sorted::<PollardsRho>(4096), vec![2; 12]);
    assert_eq!(sorted::<PollardsRho>(8051), vec![83, 97]);
    assert_eq!(sorted::<PollardsRho>(5959), vec![59, 101]);
    assert_eq!(sorted::<PollardsRho>(102030), vec![2, 3, 5, 19, 179]);
    assert_eq!(sorted::<TrialDivision>(36), vec![2, 2, 3, 3]);
    assert_eq!(sorted::<TrialDivision>(4096), vec![2; 12]);
    assert_eq!(sorted::<TrialDivision>(8051), vec![83, 97]);
    assert_eq!(sorted::<TrialDivision>(5959), vec![59, 101]);
    assert_eq!(sorted::<TrialDivision>(102030), vec![2, 3, 5, 19, 179]);
    assert_eq!(sorted::<FermatsFactorizationMethod>(36), vec![2, 2, 3, 3]);
    assert_eq!(sorted::<FermatsFactorizationMethod>(4096), vec![2; 12]);
    assert_eq!(sorted::<FermatsFactorizationMethod>(8051), vec![83, 97]);
    assert_eq!(sorted::<FermatsFactorizationMethod>(5959), vec![59, 101]);
    assert_eq!(sorted::<FermatsFactorizationMethod>(102030), vec![2, 3, 5, 19, 179]);
    // the Fermat numbers F5 and F6
    assert_eq!(sorted::<PollardsRho>(4294967297), vec![641, 6700417]);
    assert_eq!(sorted::<PollardsRho>(18446744073709551617), vec![274177, 67280421310721]);
}

#[test]
fn sorted_output_is_the_same_on_every_call() {
    for n in [561u128, 10403, 102030, 600851475143, 4294967297] {
        let first = sorted::<PollardsRho>(n);
        for _ in 0..10 {
            assert_eq!(sorted::<PollardsRho>(n), first);
        }
        assert_eq!(sorted::<TrialDivision>(n), first);
    }
}

#[test]
fn trial_division_needs_no_sorting() {
    for n in [36u128, 561, 102030, 600851475143] {
        let factors: Vec<u128> = TrialDivision::prime_factorization(&big(n))
            .unwrap()
            .iter()
            .map(|f| f.to_u128().unwrap())
            .collect();
        assert_eq!(factors, sorted::<TrialDivision>(n));
    }
}

#[test]
fn one_has_no_factors_and_two_has_itself() {
    assert_eq!(sorted::<PollardsRho>(1), Vec::<u128>::new());
    assert_eq!(sorted::<FermatsFactorizationMethod>(1), Vec::<u128>::new());
    assert_eq!(sorted::<TrialDivision>(1), Vec::<u128>::new());
    assert_eq!(sorted::<PollardsRho>(2), vec![2]);
    assert_eq!(sorted::<FermatsFactorizationMethod>(2), vec![2]);
    assert_eq!(sorted::<TrialDivision>(2), vec![2]);
}

#[test]
fn zero_is_invalid_input() {
    let zero = U512::zero();
    assert_eq!(PollardsRho::prime_factorization(&zero), Err(FactorizationError::InvalidInput));
    assert_eq!(TrialDivision::prime_factorization(&zero), Err(FactorizationError::InvalidInput));
    assert_eq!(
        FermatsFactorizationMethod::prime_factorization(&zero),
        Err(FactorizationError::InvalidInput)
    );
}

struct AcceptsUpToFive;

impl PrimalityTest for AcceptsUpToFive {
    fn is_prime(n: &U512) -> bool {
        [2, 3, 5].contains(&n.to_u128().unwrap())
    }
}

struct ReturnsTheNumber;

impl Factorize for ReturnsTheNumber {
    fn factorize(n: &U512) -> U512 {
        *n
    }
}

struct ReturnsThree;

impl Factorize for ReturnsThree {
    fn factorize(_n: &U512) -> U512 {
        U512::three()
    }
}

struct ReturnsZero;

impl Factorize for ReturnsZero {
    fn factorize(_n: &U512) -> U512 {
        U512::zero()
    }
}

#[test]
fn a_finder_without_progress_exhausts_the_retries() {
    type Stuck = RecursivePrimeFactorization<ReturnsTheNumber, AcceptsUpToFive>;
    assert_eq!(Stuck::prime_factorization(&big(49)), Err(FactorizationError::ExhaustedRetries));
    assert_eq!(Stuck::prime_factorization(&big(2 * 49)), Err(FactorizationError::ExhaustedRetries));
    assert_eq!(
        Stuck::new(5).recursive_factorization(big(49)),
        Err(FactorizationError::ExhaustedRetries)
    );
    // what needs no finder succeeds
    assert_eq!(Stuck::prime_factorization(&big(40)), Ok(vec![big(2), big(2), big(2), big(5)]));
    assert_eq!(Stuck::new(0).recursive_factorization(big(12)), Ok(vec![big(2), big(2), big(3)]));
    assert_eq!(Stuck::new(0).recursive_factorization(big(1)), Ok(vec![]));
    assert_eq!(
        Stuck::new(0).recursive_factorization(big(7)),
        Err(FactorizationError::ExhaustedRetries)
    );
}

#[test]
fn a_candidate_that_does_not_divide_is_no_progress() {
    type Wrong = RecursivePrimeFactorization<ReturnsThree, AcceptsUpToFive>;
    assert_eq!(Wrong::prime_factorization(&big(15)), Ok(vec![big(3), big(5)]));
    assert_eq!(Wrong::prime_factorization(&big(25)), Err(FactorizationError::ExhaustedRetries));
    type Nothing = RecursivePrimeFactorization<ReturnsZero, AcceptsUpToFive>;
    assert_eq!(Nothing::prime_factorization(&big(25)), Err(FactorizationError::ExhaustedRetries));
    assert_eq!(Nothing::prime_factorization(&big(20)), Ok(vec![big(2), big(2), big(5)]));
}

#[test]
fn a_step_appends_to_what_is_there() {
    type Plain = RecursivePrimeFactorization<ReturnsThree, AcceptsUpToFive>;
    let mut factors = vec![big(11)];
    assert_eq!(Plain::new(3).recursion_step(big(45), &mut factors), Ok(()));
    let mut found: Vec<u128> = factors[1..].iter().map(|f| f.to_u128().unwrap()).collect();
    found.sort_unstable();
    assert_eq!(factors[0], big(11));
    assert_eq!(found, vec![3, 3, 5]);
    let mut factors = vec![big(11)];
    assert_eq!(Plain::new(3).recursion_step(big(1), &mut factors), Ok(()));
    assert_eq!(factors, vec![big(11)]);
}

fn verdict(factor: u128, n: u128) -> &'static str {
    type Plain = RecursivePrimeFactorization<ReturnsThree, AcceptsUpToFive>;
    match Plain::classify_factor(big(factor), &big(n)) {
        DivisorOfN::Prime(d) => {
            assert_eq!(d, big(factor));
            "prime"
        }
        DivisorOfN::Composite(d) => {
            assert_eq!(d, big(factor));
            "composite"
        }
        DivisorOfN::Trivial(d) => {
            assert_eq!(d, big(factor));
            "trivial"
        }
    }
}

#[test]
fn candidates_that_split() {
    let pairs = [(3u128, 45u128), (9, 45), (15, 45), (5, 45), (2, 4)];
    for (d, n) in pairs {
        assert!(splits(&big(d), &big(n)), "{} and {}", d, n);
    }
    let pairs = [(0u128, 45u128), (1, 45), (45, 45), (7, 45), (90, 45), (2, 3), (0, 0), (1, 1)];
    for (d, n) in pairs {
        assert!(!splits(&big(d), &big(n)), "{} and {}", d, n);
    }
}

#[test]
fn classification_of_candidates() {
    assert_eq!(verdict(1, 45), "trivial");
    assert_eq!(verdict(45, 45), "trivial");
    assert_eq!(verdict(0, 45), "trivial");
    assert_eq!(verdict(7, 45), "trivial");
    assert_eq!(verdict(90, 45), "trivial");
    assert_eq!(verdict(3, 45), "prime");
    assert_eq!(verdict(5, 45), "prime");
    assert_eq!(verdict(9, 45), "composite");
    assert_eq!(verdict(15, 45), "composite");
    // a divisor equal to the number is no progress even where the test accepts it
    assert_eq!(verdict(5, 5), "trivial");
}

#[test]
fn verdicts_from_the_two_answers() {
    let d = big(9);
    assert!(matches!(classify(d, false, false), DivisorOfN::Trivial(x) if x == d));
    assert!(matches!(classify(d, false, true), DivisorOfN::Trivial(x) if x == d));
    assert!(matches!(classify(d, true, true), DivisorOfN::Prime(x) if x == d));
    assert!(matches!(classify(d, true, false), DivisorOfN::Composite(x) if x == d));
}

#[test]
fn what_follows_from_a_verdict() {
    let d = big(9);
    // a trivial candidate is one more failure
    assert!(matches!(next_step(&DivisorOfN::Trivial(d), 0, 3), NextStep::Retry));
    assert!(matches!(next_step(&DivisorOfN::Trivial(d), 1, 3), NextStep::Retry));
    assert!(matches!(next_step(&DivisorOfN::Trivial(d), 2, 3), NextStep::GiveUp));
    assert!(matches!(next_step(&DivisorOfN::Trivial(d), 0, 1), NextStep::GiveUp));
    assert!(matches!(next_step(&DivisorOfN::Trivial(d), 98, 100), NextStep::Retry));
    assert!(matches!(next_step(&DivisorOfN::Trivial(d), 99, 100), NextStep::GiveUp));
    // any other candidate is progress, whatever went before
    let prime = DivisorOfN::Prime(d);
    assert!(matches!(next_step(&prime, 2, 3), NextStep::EmitAndRecurse(x) if x == d));
    assert!(matches!(next_step(&prime, 0, 3), NextStep::EmitAndRecurse(x) if x == d));
    assert!(
        matches!(next_step(&DivisorOfN::Composite(d), 2, 3), NextStep::RecurseOnBoth(x) if x == d)
    );
}

static ASKED: AtomicUsize = AtomicUsize::new(0);

struct CountsAndReturnsTheNumber;

impl Factorize for CountsAndReturnsTheNumber {
    fn factorize(n: &U512) -> U512 {
        ASKED.fetch_add(1, Ordering::SeqCst);
        *n
    }
}

#[test]
fn the_finder_is_asked_as_often_as_the_budget_allows() {
    type Stuck = RecursivePrimeFactorization<CountsAndReturnsTheNumber, AcceptsUpToFive>;
    ASKED.store(0, Ordering::SeqCst);
    assert_eq!(
        Stuck::new(7).recursive_factorization(big(49)),
        Err(FactorizationError::ExhaustedRetries)
    );
    assert_eq!(ASKED.load(Ordering::SeqCst), 7);
    ASKED.store(0, Ordering::SeqCst);
    assert_eq!(Stuck::prime_factorization(&big(49)), Err(FactorizationError::ExhaustedRetries));
    assert_eq!(ASKED.load(Ordering::SeqCst), 100);
    ASKED.store(0, Ordering::SeqCst);
    assert_eq!(
        Stuck::new(0).recursive_factorization(big(49)),
        Err(FactorizationError::ExhaustedRetries)
    );
    assert_eq!(ASKED.load(Ordering::SeqCst), 0);
    // nothing is asked where the test decides
    assert_eq!(Stuck::new(7).recursive_factorization(big(40)).map(|f| f.len()), Ok(4));
    assert_eq!(ASKED.load(Ordering::SeqCst), 0);
}

static FAILURES: Mutex<Option<HashMap<u128, usize>>> = Mutex::new(None);

/// Fails twice on each number, then answers with its least odd prime factor.
struct FailsTwiceOnEachNumber;

impl Factorize for FailsTwiceOnEachNumber {
    fn factorize(n: &U512) -> U512 {
        let value = n.to_u128().unwrap();
        let mut guard = FAILURES.lock().unwrap();
        let failures = guard.get_or_insert_with(HashMap::new).entry(value).or_insert(0);
        if *failures < 2 {
            *failures += 1;
            return *n;
        }
        let least = (3..=value).step_by(2).find(|d| value % d == 0).unwrap();
        U512::from_u128(least)
    }
}

struct AcceptsUpToSeven;

impl PrimalityTest for AcceptsUpToSeven {
    fn is_prime(n: &U512) -> bool {
        [2, 3, 5, 7].contains(&n.to_u128().unwrap())
    }
}

#[test]
fn failures_are_counted_anew_for_each_piece() {
    type Slow = RecursivePrimeFactorization<FailsTwiceOnEachNumber, AcceptsUpToSeven>;
    // 945 = 3^3 * 5 * 7: the finder fails twice on each of 945, 315, 105 and 35,
    // eight times in all, but never three times in a row
    *FAILURES.lock().unwrap() = None;
    let mut factors: Vec<u128> = Slow::new(3)
        .recursive_factorization(big(945))
        .unwrap()
        .iter()
        .map(|f| f.to_u128().unwrap())
        .collect();
    factors.sort_unstable();
    assert_eq!(factors, vec![3, 3, 3, 5, 7]);
    // with a budget of two the second failure on 945 is the last
    *FAILURES.lock().unwrap() = None;
    assert_eq!(
        Slow::new(2).recursive_factorization(big(945)),
        Err(FactorizationError::ExhaustedRetries)
    );
}

#[test]
fn fermats_method_never_fails_below_256_bits() {
    let samples =
        [9u128, 15, 21, 25, 27, 45, 49, 51015, 561, 1105, 2047, 3215031751, 999_983 * 1_000_003];
    for n in samples {
        assert_eq!(sorted::<FermatsFactorizationMethod>(n).iter().product::<u128>(), n);
    }
    assert_eq!(sorted::<FermatsFactorizationMethod>(51015), vec![3, 5, 19, 179]);
}
