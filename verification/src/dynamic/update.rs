use vstd::prelude::*;

use crate::error::GraphError;
use crate::graph_view::GraphView;
use crate::partition::Partition;

verus! {

/// Handles incremental updates to community structure within the 2-hop
/// neighbourhood of affected nodes.
#[derive(Debug, Clone, Copy)]
pub struct IncrementalUpdate;

impl IncrementalUpdate {
    /// Creates a new incremental update handler.
    pub fn new() -> (u: Self) {
        IncrementalUpdate
    }

    /// Applies a local update within the 2-hop neighbourhood.
    ///
    /// No community is reassigned: the inputs are accepted, the partition is
    /// left as it is, and the result is `Ok`.
    pub fn apply_local<G: GraphView, Q>(
        &self,
        graph: &G,
        partition: &mut Partition<Q>,
        affected_nodes: &[u32],
    ) -> (r: Result<(), GraphError<G::Weight>>)
        ensures
            r is Ok,
            *final(partition) == *old(partition),
    {
        Ok(())
    }
}

impl Default for IncrementalUpdate {
    fn default() -> (u: Self) {
        Self::new()
    }
}

} // verus!
