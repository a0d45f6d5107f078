//! Constraint solvers.

pub mod coherence;
pub mod unionfind;
