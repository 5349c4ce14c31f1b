use rustic_factors::algorithms::{FermatsFactorizationMethod, PollardsRho, TrialDivision};
use rustic_factors::orchestration::recursive::RecursivePrimeFactorization;
use rustic_factors::traits::{Factorize, PrimalityTest, PrimeFactorization};
use rustic_factors::uint::U512;
use std::marker::PhantomData;

type TestCase = (U512, Vec<U512>);

struct CheckTestBuilder {
    cases: Vec<TestCase>,
}

impl CheckTestBuilder {
    fn new() -> Self {
        Self { cases: Vec::new() }
    }

    fn case(mut self, n: u128, factors: &[u128]) -> Self {
        let n_u512 = U512::from_u128(n);
        let factors_u512 = factors.iter().map(|&f| U512::from_u128(f)).collect();
        self.cases.push((n_u512, factors_u512));
        self
    }

    fn build<F: PrimeFactorization>(self) -> CheckTest<F> {
        CheckTest::<F>::new(self.cases)
    }

    fn default() -> Self {
        Self::new()
            .case(2, &[2])
            .case(3, &[3])
            .case(60, &[2, 2, 3, 5])
            .case(101, &[101])
            .case(121, &[11, 11])
            .case(143, &[11, 13])
            .case(221, &[13, 17])
            .case(396, &[2, 2, 3, 3, 11])
            .case(729, &[3; 6])
            .case(510, &[2, 3, 5, 17])
            .case(897, &[3, 13, 23])
    }
}

struct CheckTest<F: PrimeFactorization> {
    cases: Vec<TestCase>,
    _maker: PhantomData<F>,
}

impl<F: PrimeFactorization> CheckTest<F> {
    fn new(cases: Vec<TestCase>) -> Self {
        Self { cases, _maker: PhantomData }
    }

    fn check_cases(self) {
        for (n, factors) in &self.cases {
            Self::check(n, factors);
        }
    }

    fn check(n: &U512, expected: &[U512]) {
        let mut actual: Vec<u128> = F::prime_factorization(n)
            .expect("no factorization")
            .iter()
            .map(|f| f.to_u128().unwrap())
            .collect();
        actual.sort_unstable();
        let expected: Vec<u128> = expected.iter().map(|f| f.to_u128().unwrap()).collect();
        assert_eq!(actual, expected, "Test failed for n = {:?}", n.to_u128());
    }
}

#[test]
fn fermats_factorization_method_composites() {
    CheckTestBuilder::new()
        .case(5959, &[59, 101])
        .case(12345, &[3, 5, 823])
        .case(102030, &[2, 3, 5, 19, 179])
        .build::<FermatsFactorizationMethod>()
        .check_cases()
}

#[test]
fn fermats_factorization_method_primes() {
    CheckTestBuilder::new()
        .case(409, &[409])
        .case(881, &[881])
        .case(1021, &[1021])
        .case(4001, &[4001])
        .case(5003, &[5003])
        .case(9001, &[9001])
        .build::<FermatsFactorizationMethod>()
        .check_cases()
}

#[test]
fn default() {
    CheckTestBuilder::default().build::<PollardsRho>().check_cases()
}

#[test]
fn pollards_rho_composites() {
    CheckTestBuilder::new()
        .case(8051, &[83, 97])
        .case(15, &[3, 5])
        .case(4096, &[2; 12])
        .build::<PollardsRho>()
        .check_cases()
}

#[test]
fn pollards_rho_primes() {
    CheckTestBuilder::new()
        .case(3, &[3])
        .case(5, &[5])
        .case(19, &[19])
        .case(29, &[29])
        .case(37, &[37])
        .build::<PollardsRho>()
        .check_cases()
}

#[test]
fn prime() {
    CheckTestBuilder::new().case(13, &[13]).build::<TrialDivision>().check_cases()
}

#[test]
fn composite() {
    CheckTestBuilder::new().case(12, &[2, 2, 3]).build::<TrialDivision>().check_cases()
}

struct FakePrimeTester;

impl PrimalityTest for FakePrimeTester {
    fn is_prime(n: &U512) -> bool {
        [2, 3, 5].contains(&n.to_u128().unwrap())
    }
}

struct FakeFactorizer;

impl Factorize for FakeFactorizer {
    fn factorize(n: &U512) -> U512 {
        let value = n.to_u128().unwrap();
        if n.is_even() {
            return U512::two();
        }
        if value % 3 == 0 {
            return U512::three();
        }
        if value % 5 == 0 {
            return U512::from_u128(5);
        }
        *n
    }
}

type MyTestOrchestrator = RecursivePrimeFactorization<FakeFactorizer, FakePrimeTester>;

#[test]
fn single_prime() {
    CheckTestBuilder::new().case(3, &[3]).build::<MyTestOrchestrator>().check_cases()
}

#[test]
fn composite_power_of_2() {
    CheckTestBuilder::new().case(8, &[2; 3]).build::<MyTestOrchestrator>().check_cases()
}

#[test]
fn odd_composite() {
    CheckTestBuilder::new().case(15, &[3, 5]).build::<MyTestOrchestrator>().check_cases()
}

#[test]
fn even_composite() {
    CheckTestBuilder::new().case(30, &[2, 3, 5]).build::<MyTestOrchestrator>().check_cases()
}

#[test]
#[should_panic]
fn fails_to_find_factor() {
    CheckTestBuilder::new().case(49, &[7; 2]).build::<MyTestOrchestrator>().check_cases()
}
