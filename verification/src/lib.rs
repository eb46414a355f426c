//! Two- and three-dimensional Euclidean vectors over IEEE-754 binary32 scalars.
//!
//! Scalars are carried as their 32-bit encodings and every operation is
//! integer code, so each result is stated exactly: the correctly rounded
//! (round to nearest, ties to even) value of the real result.
pub mod rounding;
pub mod format;
pub mod arith;
pub mod exact;
pub mod vectors;
pub mod laws;
