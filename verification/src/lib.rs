//! Integer factorization over 512-bit unsigned integers: a Miller-Rabin
//! primality test, three ways of finding a divisor, and a recursive
//! procedure that combines them into a complete prime factorization.
//!
//! The contracts are stated over natural numbers. `number_theory` holds their
//! vocabulary and the theorems behind them: Euclid's lemma, the uniqueness of
//! prime factorizations, and Fermat's little theorem, from which it follows
//! that the primality test never rejects a prime. `uint` holds the integer
//! type and the few operations of the `bnum` crate that are taken on trust.

pub mod algorithms;
pub mod factorization;
pub mod number_theory;
pub mod orchestration;
pub mod traits;
pub mod uint;
