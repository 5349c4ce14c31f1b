//! The strong test on machine words: the same walk along the chain of
//! squares as for 512-bit numbers, carried out on `u128` with no help from
//! outside.

use crate::number_theory::powers::{
    lemma_square_and_multiply, lemma_two_adic_valuation_bound, pow_mod,
};
use crate::number_theory::strong_probable_prime::{
    is_nontrivial_sqrt_of_1 as is_nontrivial_sqrt_of_1_spec, is_strong_probable_prime,
    lemma_chain_end, lemma_chain_start, lemma_chain_step,
    lemma_clean_chain_is_strong_probable_prime, squaring_chain,
};
use crate::number_theory::{odd_part, two_adic_valuation};
use crate::uint::lemma_double_and_add;
use vstd::arithmetic::div_mod::*;
use vstd::arithmetic::power::*;
use vstd::prelude::*;

verus! {

/// What bases can show about one number of at most 128 bits.
pub struct Witnessed {
    n: u128,
    n_minus_1: Decomposed,
}

impl Witnessed {
    /// The number under test.
    pub closed spec fn modulus(&self) -> nat {
        self.n as nat
    }

    /// The number under test is at least 2, and its predecessor is held
    /// split into a power of two and an odd factor.
    pub closed spec fn well_formed(&self) -> bool {
        &&& self.n >= 2
        &&& self.n_minus_1.exponent_of_2 == two_adic_valuation((self.n - 1) as nat)
        &&& self.n_minus_1.odd_factor == odd_part((self.n - 1) as nat)
    }

    /// What bases can show about `n`.
    pub fn new(n: u128) -> (r: Self)
        requires
            n >= 2,
        ensures
            r.well_formed(),
            r.modulus() == n,
    {
        let n_minus_1 = Decomposed::new(n - 1);
        Self { n, n_minus_1 }
    }

    /// Whether the number passes the strong test to the base
    /// `witness_candidate`, which then is no witness against it.
    pub fn not_by(&self, witness_candidate: u128) -> (r: bool)
        requires
            self.well_formed(),
        ensures
            r == is_strong_probable_prime(self.modulus(), witness_candidate as nat),
    {
        proof {
            lemma_clean_chain_is_strong_probable_prime(self.n as nat, witness_candidate as nat);
            lemma_chain_end(self.n as nat, witness_candidate as nat);
        }
        match self.raise_to_n_minus_1(witness_candidate) {
            Ok(result) => passes_fermats_condition(result),
            Err(_) => false,
        }
    }

    /// `base` raised to the number's predecessor, by way of the chain of
    /// squares, unless the chain passes a number that squares to 1 and is
    /// neither 1 nor -1.
    fn raise_to_n_minus_1(&self, base: u128) -> (r: Result<RaisedToNMinus1, FoundNonTrivialSqrtOf1>)
        requires
            self.well_formed(),
        ensures
            match r {
                Ok(raised) => {
                    &&& raised.0 == squaring_chain(
                        self.n as nat,
                        base as nat,
                        two_adic_valuation((self.n - 1) as nat),
                    )
                    &&& forall|i: nat|
                        i < two_adic_valuation((self.n - 1) as nat)
                            ==> !is_nontrivial_sqrt_of_1_spec(
                            #[trigger] squaring_chain(self.n as nat, base as nat, i),
                            self.n as nat,
                        )
                },
                Err(_) => exists|i: nat|
                    i < two_adic_valuation((self.n - 1) as nat) && is_nontrivial_sqrt_of_1_spec(
                        #[trigger] squaring_chain(self.n as nat, base as nat, i),
                        self.n as nat,
                    ),
            },
    {
        let odd_factor_in_exp = self.n_minus_1.odd_factor;
        let mut result = modular_exponentiation(base, odd_factor_in_exp, self.n);
        proof {
            lemma_chain_start(self.n as nat, base as nat);
        }
        let mut squarings: u32 = 0;
        while squarings < self.n_minus_1.exponent_of_2
            invariant
                self.well_formed(),
                squarings <= self.n_minus_1.exponent_of_2,
                result == squaring_chain(self.n as nat, base as nat, squarings as nat),
                forall|i: nat|
                    i < squarings ==> !is_nontrivial_sqrt_of_1_spec(
                        #[trigger] squaring_chain(self.n as nat, base as nat, i),
                        self.n as nat,
                    ),
            decreases self.n_minus_1.exponent_of_2 - squarings,
        {
            if is_nontrivial_sqrt_of_1(result, self.n) {
                return Err(FoundNonTrivialSqrtOf1);
            }
            proof {
                lemma_chain_step(self.n as nat, base as nat, squarings as nat);
                lemma_square_is_pow2(result as int);
            }
            result = mul_mod(result, result, self.n);
            squarings += 1;
        }
        Ok(RaisedToNMinus1(result))
    }
}

/// Whether a base passes Fermat's condition: its power is 1.
pub fn passes_fermats_condition(r: RaisedToNMinus1) -> (b: bool)
    ensures
        b == (r.0 == 1),
{
    r.0 == 1
}

/// A base raised to the predecessor of the number under test, modulo that
/// number.
pub struct RaisedToNMinus1(pub u128);

/// The mark of a chain of squares that passed a square root of 1 other than
/// 1 and -1.
pub struct FoundNonTrivialSqrtOf1;

/// A positive number split into a power of two and an odd factor.
pub struct Decomposed {
    pub exponent_of_2: u32,
    pub odd_factor: u128,
}

impl Decomposed {
    /// Decomposes `number` into `exponent_of_2` and `odd_factor`,
    /// where `number = 2^exponent_of_2 * odd_factor`.
    pub fn new(number: u128) -> (r: Self)
        requires
            number > 0,
        ensures
            r.exponent_of_2 == two_adic_valuation(number as nat),
            r.odd_factor == odd_part(number as nat),
    {
        let mut exponent_of_2: u32 = 0;
        let mut odd_factor = number;
        proof {
            lemma_word_is_below_power_of_two(number);
            lemma_two_adic_valuation_bound(number as nat, 128);
        }
        while odd_factor % 2 == 0
            invariant
                odd_factor > 0,
                exponent_of_2 + two_adic_valuation(odd_factor as nat) == two_adic_valuation(
                    number as nat,
                ),
                odd_part(odd_factor as nat) == odd_part(number as nat),
                two_adic_valuation(number as nat) < 128,
            decreases odd_factor,
        {
            exponent_of_2 += 1;
            odd_factor = odd_factor / 2;
        }
        Self { exponent_of_2, odd_factor }
    }
}

/// Every `u128` is below 2^128.
proof fn lemma_word_is_below_power_of_two(x: u128)
    ensures
        x < pow(2, 128),
{
    vstd::arithmetic::power2::lemma2_to64();
    lemma_pow_positive(2, 64);
    assert(vstd::arithmetic::power2::pow2(64) == pow(2, 64));
    lemma_pow_adds(2, 64, 64);
    let r = pow(2, 64);
    assert(r * r == 0x1_0000_0000_0000_0000_0000_0000_0000_0000nat) by (nonlinear_arith)
        requires
            r == 0x1_0000_0000_0000_0000nat,
    ;
}

/// Sum of two residues, reduced modulo `modulus`, without overflow.
pub fn add_mod(a: u128, b: u128, modulus: u128) -> (r: u128)
    requires
        a < modulus,
        b < modulus,
    ensures
        r == (a + b) % (modulus as int),
{
    let gap = modulus - b;
    if a < gap {
        proof {
            lemma_small_mod((a + b) as nat, modulus as nat);
        }
        a + b
    } else {
        proof {
            lemma_mod_sub_multiples_vanish((a + b) as int, modulus as int);
            lemma_small_mod((a + b - modulus) as nat, modulus as nat);
        }
        a - gap
    }
}

/// Product of two residues, reduced modulo `modulus`: formed directly where
/// it fits in 128 bits, and by doubling and adding residues where it does
/// not.
pub fn mul_mod(a: u128, b: u128, modulus: u128) -> (r: u128)
    requires
        a < modulus,
        b < modulus,
    ensures
        r == (a * b) % (modulus as int),
{
    match a.checked_mul(b) {
        Some(product) => product % modulus,
        None => {
            let mut sum: u128 = 0;
            let mut doubled = a;
            let mut halved = b;
            while halved != 0
                invariant
                    sum < modulus,
                    doubled < modulus,
                    (sum + doubled * halved) % (modulus as int) == (a * b) % (modulus as int),
                decreases halved,
            {
                let ghost bit = (halved % 2) as nat;
                let ghost added = (sum as nat + bit * doubled as nat) % (modulus as nat);
                proof {
                    lemma_double_and_add(sum as nat, doubled as nat, halved as nat, modulus as nat);
                }
                if halved % 2 == 1 {
                    assert(bit * doubled as nat == doubled as nat) by (nonlinear_arith)
                        requires
                            bit == 1,
                    ;
                    sum = add_mod(sum, doubled, modulus);
                } else {
                    proof {
                        assert(bit * doubled as nat == 0) by (nonlinear_arith)
                            requires
                                bit == 0,
                        ;
                        lemma_small_mod(sum as nat, modulus as nat);
                    }
                }
                assert(sum == added);
                doubled = add_mod(doubled, doubled, modulus);
                halved = halved / 2;
            }
            proof {
                assert(doubled * 0 == 0) by (nonlinear_arith);
                lemma_small_mod(sum as nat, modulus as nat);
            }
            sum
        },
    }
}

/// `base` to the power `exponent`, reduced modulo `modulus`, by squaring and
/// multiplying.
pub fn modular_exponentiation(base: u128, exponent: u128, modulus: u128) -> (r: u128)
    requires
        modulus > 0,
    ensures
        r == pow_mod(base as nat, exponent as nat, modulus as nat),
{
    let mut result: u128 = 1 % modulus;
    let mut square = base % modulus;
    let mut exp = exponent;
    proof {
        let m = modulus as int;
        lemma_pow_mod_noop(base as int, exponent as nat, m);
        lemma_mul_mod_noop_general(1, pow(square as int, exp as nat), m);
        assert(1 * pow(square as int, exp as nat) == pow(square as int, exp as nat));
    }
    while exp > 0
        invariant
            modulus > 0,
            result < modulus,
            square < modulus,
            (result * pow(square as int, exp as nat)) % (modulus as int) == pow_mod(
                base as nat,
                exponent as nat,
                modulus as nat,
            ),
        decreases exp,
    {
        proof {
            lemma_square_and_multiply(result as nat, square as nat, exp as nat, modulus as nat);
        }
        if exp % 2 == 1 {
            result = mul_mod(result, square, modulus);
        }
        square = mul_mod(square, square, modulus);
        exp = exp / 2;
    }
    proof {
        lemma_pow0(square as int);
        assert(result * 1 == result);
        lemma_small_mod(result as nat, modulus as nat);
    }
    result
}

/// Whether `solution`, a residue modulo `n`, squares to 1 although it is
/// neither 1 nor `n - 1`.
pub fn is_nontrivial_sqrt_of_1(solution: u128, n: u128) -> (r: bool)
    requires
        solution < n,
    ensures
        r == is_nontrivial_sqrt_of_1_spec(solution as nat, n as nat),
{
    proof {
        lemma_square_is_pow2(solution as int);
    }
    mul_mod(solution, solution, n) == 1 && solution != 1 && solution != n - 1
}

} // verus!
