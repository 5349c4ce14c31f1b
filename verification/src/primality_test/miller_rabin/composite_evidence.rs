//! What a single base can show about a number: the walk along the chain of
//! squares from `a^d` to `a^(n-1)`.

use super::utils::highest_power_of_2_divisor;
use crate::number_theory::powers::{
    lemma_square_and_multiply, lemma_two_adic_decomposition, pow_mod,
};
use crate::number_theory::strong_probable_prime::{
    is_nontrivial_sqrt_of_1, is_witness, lemma_chain_end, lemma_chain_start, lemma_chain_step,
    lemma_clean_chain_is_strong_probable_prime, squaring_chain,
};
use crate::number_theory::{odd_part, two_adic_valuation};
use crate::uint::U512;
use vstd::arithmetic::div_mod::*;
use vstd::arithmetic::power::*;
use vstd::prelude::*;

verus! {

/// The evidence that bases can give of the compositeness of one number.
pub struct CompositeEvidence {
    n: U512,
    n_minus_1: Decomposed,
}

impl CompositeEvidence {
    /// The number under test.
    pub closed spec fn modulus(&self) -> nat {
        self.n@
    }

    /// The number under test is at least 2, and its predecessor is held
    /// split into a power of two and an odd factor.
    pub closed spec fn well_formed(&self) -> bool {
        &&& self.n@ >= 2
        &&& self.n_minus_1.exponent_of_2 == two_adic_valuation((self.n@ - 1) as nat)
        &&& self.n_minus_1.odd_factor@ == odd_part((self.n@ - 1) as nat)
    }

    /// The evidence about `n`.
    pub fn new(n: &U512) -> (r: Self)
        requires
            n@ >= 2,
        ensures
            r.well_formed(),
            r.modulus() == n@,
    {
        let n_minus_1 = Decomposed::new(n.sub(&U512::one()));
        Self { n: *n, n_minus_1 }
    }

    /// Whether `witness` shows the number to be composite.
    pub fn witnessed_by(&self, witness: &U512) -> (r: bool)
        requires
            self.well_formed(),
        ensures
            r == is_witness(self.modulus(), witness@),
    {
        proof {
            lemma_clean_chain_is_strong_probable_prime(self.n@, witness@);
            lemma_chain_end(self.n@, witness@);
        }
        match self.raise_to_n_minus_1_mod_n(witness) {
            Ok(result) => fails_fermats_condition(result),
            Err(_) => true,
        }
    }

    /// `base` raised to the number's predecessor, by way of the chain of
    /// squares, unless the chain passes a number that squares to 1 and is
    /// neither 1 nor -1.
    fn raise_to_n_minus_1_mod_n(&self, base: &U512) -> (r: Result<
        RaisedToNMinus1ModN,
        FoundNonTrivialSqrtOf1,
    >)
        requires
            self.well_formed(),
        ensures
            match r {
                Ok(raised) => {
                    &&& raised.0@ == squaring_chain(
                        self.n@,
                        base@,
                        two_adic_valuation((self.n@ - 1) as nat),
                    )
                    &&& forall|i: nat|
                        i < two_adic_valuation((self.n@ - 1) as nat) ==> !is_nontrivial_sqrt_of_1(
                            #[trigger] squaring_chain(self.n@, base@, i),
                            self.n@,
                        )
                },
                Err(_) => exists|i: nat|
                    i < two_adic_valuation((self.n@ - 1) as nat) && is_nontrivial_sqrt_of_1(
                        #[trigger] squaring_chain(self.n@, base@, i),
                        self.n@,
                    ),
            },
    {
        let two = U512::two();
        let mut result = modpow(base, &self.n_minus_1.odd_factor, &self.n);
        proof {
            lemma_chain_start(self.n@, base@);
        }
        let mut squarings: u32 = 0;
        while squarings < self.n_minus_1.exponent_of_2
            invariant
                self.well_formed(),
                two@ == 2,
                squarings <= self.n_minus_1.exponent_of_2,
                result@ == squaring_chain(self.n@, base@, squarings as nat),
                forall|i: nat|
                    i < squarings ==> !is_nontrivial_sqrt_of_1(
                        #[trigger] squaring_chain(self.n@, base@, i),
                        self.n@,
                    ),
            decreases self.n_minus_1.exponent_of_2 - squarings,
        {
            if self.is_nontrivial_sqrt_of_1(&result) {
                return Err(FoundNonTrivialSqrtOf1);
            }
            proof {
                lemma_chain_step(self.n@, base@, squarings as nat);
            }
            result = modpow(&result, &two, &self.n);
            squarings += 1;
        }
        Ok(RaisedToNMinus1ModN(result))
    }

    /// Whether `solution` squares to 1 modulo the number under test although
    /// it is neither 1 nor the number's predecessor.
    pub fn is_nontrivial_sqrt_of_1(&self, solution: &U512) -> (r: bool)
        requires
            self.well_formed(),
        ensures
            r == is_nontrivial_sqrt_of_1(solution@, self.modulus()),
    {
        let squared = modpow(solution, &U512::two(), &self.n);
        squared.is_one() && !solution.is_one() && !solution.equals(&self.n.sub(&U512::one()))
    }
}

/// `base` to the power `exponent`, reduced modulo `modulus`, by squaring and
/// multiplying.
pub fn modpow(base: &U512, exponent: &U512, modulus: &U512) -> (r: U512)
    requires
        modulus@ > 0,
    ensures
        r@ == pow_mod(base@, exponent@, modulus@),
{
    let two = U512::two();
    let mut result = U512::one().rem(modulus);
    let mut square = base.rem(modulus);
    let mut exp = *exponent;
    proof {
        let m = modulus@ as int;
        lemma_pow_mod_noop(base@ as int, exponent@, m);
        lemma_mul_mod_noop_general(1, pow(square@ as int, exp@), m);
        assert(1 * pow(square@ as int, exp@) == pow(square@ as int, exp@));
    }
    while !exp.is_zero()
        invariant
            two@ == 2,
            modulus@ > 0,
            result@ < modulus@,
            square@ < modulus@,
            (result@ * pow(square@ as int, exp@)) % (modulus@ as int) == pow_mod(
                base@,
                exponent@,
                modulus@,
            ),
        decreases exp@,
    {
        proof {
            lemma_square_and_multiply(result@, square@, exp@, modulus@);
        }
        if exp.is_odd() {
            result = result.mul_mod(&square, modulus);
        }
        square = square.mul_mod(&square, modulus);
        exp = exp.div(&two);
    }
    proof {
        lemma_pow0(square@ as int);
        assert(result@ * 1 == result@);
        lemma_small_mod(result@, modulus@);
    }
    result
}

/// Whether a base fails Fermat's condition: its power is not 1.
pub fn fails_fermats_condition(r: RaisedToNMinus1ModN) -> (b: bool)
    ensures
        b == (r.0@ != 1),
{
    !r.0.is_one()
}

/// A base raised to the predecessor of the number under test, modulo that
/// number.
pub struct RaisedToNMinus1ModN(pub U512);

/// The mark of a chain of squares that passed a square root of 1 other than
/// 1 and -1.
pub struct FoundNonTrivialSqrtOf1;

/// A positive number split into a power of two and an odd factor.
pub struct Decomposed {
    pub exponent_of_2: u32,
    pub odd_factor: U512,
}

impl Decomposed {
    /// Decomposes `number` into `exponent_of_2` and `odd_factor`,
    /// where `number = 2^exponent_of_2 * odd_factor`.
    pub fn new(number: U512) -> (r: Self)
        requires
            number@ > 0,
        ensures
            r.exponent_of_2 == two_adic_valuation(number@),
            r.odd_factor@ == odd_part(number@),
    {
        let exponent_of_2 = highest_power_of_2_divisor(&number);
        proof {
            lemma_two_adic_decomposition(number@);
            number.lemma_bounded();
            let p = pow(2, exponent_of_2 as nat);
            assert(p <= number@) by (nonlinear_arith)
                requires
                    p * odd_part(number@) == number@,
                    p > 0,
                    odd_part(number@) >= 1,
            ;
        }
        let odd_factor = number.div(&U512::two().pow(exponent_of_2));
        Self { exponent_of_2, odd_factor }
    }
}

} // verus!
