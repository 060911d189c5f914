//! Pattern-driven string-space enumeration.
//!
//! A pattern describes a set of strings built from character ranges,
//! concatenation groups and bounded repetitions.  The library computes the
//! exact cardinality of that set, steps through it one string at a time in a
//! fixed order, and maps any ordinal directly to its string, all without
//! materializing the set.

pub mod ops;
pub mod rangeutils;
mod trusted;
