//! Data structures.

pub mod partition;
pub mod potential;
pub mod unionfind;
