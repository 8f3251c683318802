//! The integer settings of a Leiden configuration.

use vstd::prelude::*;

use crate::error::AlgorithmError;

verus! {

/// Checks the iteration settings of a Leiden configuration: at least one
/// iteration, and a recomputation interval of at least one.
///
/// The first violated rule is reported as
/// [`AlgorithmError::InvalidConfiguration`] with its explanation.
pub fn check_iteration_settings(max_iterations: usize, recompute_interval: u32) -> (r: Result<
    (),
    AlgorithmError,
>)
    ensures
        max_iterations >= 1 && recompute_interval >= 1 ==> r is Ok,
        max_iterations < 1 ==> (r matches Err(AlgorithmError::InvalidConfiguration { reason })
            && reason@ == "max_iterations must be >= 1, got 0"@),
        max_iterations >= 1 && recompute_interval < 1 ==> (r matches Err(
            AlgorithmError::InvalidConfiguration { reason },
        ) && reason@ == "recompute_interval must be >= 1, got 0"@),
{
    if max_iterations < 1 {
        let mut reason = String::new();
        reason.append("max_iterations must be >= 1, got 0");
        return Err(AlgorithmError::InvalidConfiguration { reason });
    }
    if recompute_interval < 1 {
        let mut reason = String::new();
        reason.append("recompute_interval must be >= 1, got 0");
        return Err(AlgorithmError::InvalidConfiguration { reason });
    }
    Ok(())
}

} // verus!
