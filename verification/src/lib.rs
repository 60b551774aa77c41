//! Algebraic expressions as trees, and the isolation of an unknown in one
//! equation or in a triangular system of equations.
//!
//! Numbers are held as IEEE 754 binary64 bit patterns; variables live in an
//! arena and are named in expressions by their identity.

pub mod expr;
pub mod operation;
pub mod simultaneous_solver;
pub mod solver;
