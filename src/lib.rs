//! Exhaustive keyboard-layout search: tables, fingerings, the scoring kernel,
//! the permutation engine with its bounded record set, and record
//! post-processing.

pub mod expressions;
pub mod fingerings;
pub mod goals;
pub mod keys;
pub mod layouts;
pub mod math;
pub mod measurements;
pub mod metrics;
pub mod ngrams;
pub mod permutations;
pub mod records;
pub mod scores;
pub mod strings;
pub mod tables;
pub mod weights;
