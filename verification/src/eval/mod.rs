//! Evaluation of expression trees.

pub mod interp;

pub use interp::{interp, EvalError};
