//! A finite-domain constraint engine: variables whose values are scalars or
//! labelled records, unary and binary constraints, arc-consistency filtering
//! and backtracking search, with a cryptarithm encoding built on top of it.

pub mod value;
pub mod store;
pub mod constraint;
pub mod filter;
pub mod solver;
pub mod laws;
pub mod relation;
pub mod puzzle;
