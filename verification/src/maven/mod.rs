//! Maven-specific syntax.
pub mod range;
