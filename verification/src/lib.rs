//! A compiler and runtime for deterministic single-tape Turing machines,
//! targeting a minimal two-variable stack machine (the substrate).
//!
//! A machine description (states, transitions, tape actions) is validated,
//! then lowered to a straight-line substrate program that simulates the
//! Turing machine against an input string and prints `ACCEPT` or `REJECT`.

pub mod ast;
pub mod compile;
pub mod emit;
pub mod error;
pub mod laws;
pub mod semantics;
pub mod simulation;
pub mod stack;
pub mod turing;
pub mod utils;
pub mod validate;
