//! Algebraic structures.

pub mod algebra;
