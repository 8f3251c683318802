//! Stepping mode for resumable and observable algorithm execution.

pub mod callback;
pub mod iterator;
