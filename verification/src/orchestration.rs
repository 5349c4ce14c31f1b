//! Ways of combining a divisor finder and a primality test.

pub mod recursive;
