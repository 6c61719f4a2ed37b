//! Text fingerprinting by scaled MinHash over token n-grams.

pub mod sketch;
pub mod laws;
pub mod ngram;
pub mod document;
pub mod signature;
