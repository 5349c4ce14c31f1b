//! The divisor finders.

pub mod fermats_factorization_method;
pub mod pollards_rho;
pub mod trial_division;

pub use self::fermats_factorization_method::FermatsFactorizationMethod;
pub use self::pollards_rho::PollardsRho;
pub use self::trial_division::TrialDivision;
