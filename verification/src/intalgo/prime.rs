//! The primality test, re-exported for callers that reach it through
//! this module.

pub use crate::intalgo::is_prime::is_prime;
