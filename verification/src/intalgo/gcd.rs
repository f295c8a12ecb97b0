//! The gcd and lcm utilities, re-exported for callers that reach them
//! through this module.

pub use crate::intalgo::gcd;
pub use crate::intalgo::lcm;
