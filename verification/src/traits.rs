//! The strategies a factorization is assembled from, and the way it can fail.

use crate::number_theory::product;
use crate::uint::{values, U512};
use vstd::prelude::*;

verus! {

/// Why a factorization was not produced.
#[derive(Clone, Copy, Debug, PartialEq, Eq, Structural)]
pub enum FactorizationError {
    /// Zero has no prime factorization.
    InvalidInput,
    /// The divisor finder made no progress on some value as often in a row as
    /// the retry budget allows. With a randomized finder another attempt may
    /// succeed.
    ExhaustedRetries,
}

impl FactorizationError {
    /// The failure in words.
    pub open spec fn message_text(self) -> Seq<char> {
        match self {
            FactorizationError::InvalidInput => "0 has no prime factorization"@,
            FactorizationError::ExhaustedRetries => {
                "Failed to find a factor within the retry budget"@
            },
        }
    }

    /// The failure in words.
    pub fn message(&self) -> (r: String)
        ensures
            r@ == self.message_text(),
    {
        match self {
            FactorizationError::InvalidInput => "0 has no prime factorization".to_owned(),
            FactorizationError::ExhaustedRetries => {
                "Failed to find a factor within the retry budget".to_owned()
            },
        }
    }
}

/// Proposes a divisor of a number.
///
/// The proposal need not be prime and need not be useful: callers examine it.
pub trait Factorize {
    /// The candidates that the finder can propose for `n`. An implementation
    /// that states nothing promises nothing.
    open spec fn may_return(n: nat, d: nat) -> bool {
        true
    }

    /// A candidate divisor of the odd number `n`.
    fn factorize(n: &U512) -> (d: U512)
        requires
            n@ >= 3,
            n@ % 2 == 1,
        ensures
            Self::may_return(n@, d@),
    ;
}

/// Decides whether a number is prime, possibly with a chance of error.
pub trait PrimalityTest {
    /// Numbers that the test reports as prime on every run. An implementation
    /// that states nothing promises nothing.
    open spec fn always_accepts(p: nat) -> bool {
        false
    }

    /// Numbers that the test can report as prime on some run.
    open spec fn may_accept(p: nat) -> bool {
        true
    }

    /// Reports whether `p` is taken to be prime.
    fn is_prime(p: &U512) -> (r: bool)
        ensures
            Self::always_accepts(p@) ==> r,
            r ==> Self::may_accept(p@),
    ;
}

/// Decomposes a number into prime factors.
pub trait PrimeFactorization {
    /// The prime factors of `n`, each as often as it divides `n`, in no
    /// particular order. Zero is rejected; one has no factors.
    fn prime_factorization(n: &U512) -> (r: Result<Vec<U512>, FactorizationError>)
        ensures
            n@ == 0 <==> (r matches Err(FactorizationError::InvalidInput)),
            r matches Ok(factors) ==> product(values(factors@)) == n@,
    ;
}

/// Something that can be run on a number and answers in words.
pub trait Command {
    /// What the command has to say about `n`.
    fn run(&self, n: &U512) -> (r: String);
}

/// A factorization method that can be run as a command.
pub trait FactorizationCommand: Command + PrimeFactorization {

}

} // verus!
