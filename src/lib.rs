//! Builds anchored regular expressions that match a given set of example strings.
//!
//! The strings are split into grapheme clusters, optionally generalised into
//! character classes and bounded repetitions, turned into a minimal
//! deterministic automaton, and read back as a regular expression by state
//! elimination.

pub mod ast;
pub mod cases;
pub mod dfa;
pub mod grapheme;
pub mod regexp;
pub mod repetition;
pub mod text;

pub use regexp::{RegExp, RegExpBuilder};


