//! Version intervals and the Maven version-range grammar.
pub mod maven;
pub mod range;
