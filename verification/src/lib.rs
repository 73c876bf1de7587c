//! An interpreter for a small quantum lambda calculus: an untyped lambda
//! calculus extended with basis kets, a fixed unitary gate set, measurement,
//! and a linearity discipline that enforces no-cloning on quantum data.
//!
//! Terms reduce by call-by-value beta reduction; a gate applied to a ket
//! yields a superposition, an explicit list of term/amplitude branches with
//! exact amplitude arithmetic; measurement collapses a superposition to one
//! branch drawn by its weight.  A circuit compiler translates a textual
//! gate grid into an equivalent term.

pub mod amp;
pub mod circuit;
pub mod errors;
pub mod eval;
pub mod examples;
pub mod linear;
pub mod names;
pub mod parser;
pub mod render;
pub mod repl;
pub mod subst;
pub mod superpos;
pub mod term;

pub use errors::EvalError;
pub use eval::{eval, Value};
pub use superpos::Superpos;
pub use term::{Const, Term};
