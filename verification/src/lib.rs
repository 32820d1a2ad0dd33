//! Small algorithmic building blocks with machine-checked contracts:
//! algebraic structures, disjoint-set forests and graph traversal.

pub mod algorithm;
pub mod data_structure;
pub mod graph;
pub mod math;
