//! Algorithms.

pub mod binary_search;

pub use binary_search::{binary_search_threshold, binary_search_trial};
