use vstd::prelude::*;

use crate::step::AlgorithmPhase;

verus! {

/// Callback for forward-only stepping control.
///
/// Implementors can pause algorithm execution before each iteration: return
/// `true` to continue, `false` to abort.
pub trait SteppingCallback: Send {
    /// Called before each iteration with the zero-based iteration number about
    /// to execute and the phase that will run; returns whether to proceed.
    fn before_iteration(&mut self, iteration: usize, phase: AlgorithmPhase) -> bool;
}

} // verus!
