use vstd::prelude::*;

verus! {

/// Selects which quality function an algorithm optimizes.
#[derive(Debug, Clone, Copy, PartialEq, Eq, Structural)]
pub enum QualityFunction {
    /// Newman-Girvan modularity.
    Modularity,
    /// Constant Potts Model.
    Cpm,
    /// Map Equation (for Infomap).
    MapEquation,
}

} // verus!
