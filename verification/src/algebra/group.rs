//! The group abstraction, re-exported for callers that reach it
//! through this module.

pub use crate::algebra::Group;
