//! A verifier of instructions of a zero-knowledge virtual machine: it parses
//! component definitions, lowers them to systems of constraints, and asks solvers
//! whether the outputs are determined by the inputs.

pub mod cli;
pub mod ir;
pub mod laws;
pub mod loader;
pub mod model;
pub mod parser;
pub mod smt;
pub mod text;
pub mod verifier_bv;
pub mod verifier_ff;
pub mod verifier_int;
pub mod verifier_msolve;
