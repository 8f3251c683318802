use vstd::prelude::*;

verus! {

/// Defines how convergence is measured during iterative algorithms.
#[derive(Debug, Clone, Copy, PartialEq, Structural)]
pub enum ConvergenceMode {
    /// Absolute change: `|Q_current - Q_previous| < threshold`.
    Absolute,
    /// Relative change: `|Q_current - Q_previous| / |Q_current| < threshold`.
    Relative,
}

} // verus!
