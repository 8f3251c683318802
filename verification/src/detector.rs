//! Community detector configurations and the membership of the baseline detectors.

use vstd::prelude::*;

use crate::graph_view::GraphView;
use crate::partition::Partition;

verus! {

/// Every node in its own community: node `i` in community `i`, for the first
/// `min(node_count, u32::MAX)` nodes.
pub open spec fn singleton_membership(node_count: nat) -> Seq<u32> {
    Seq::new(
        if node_count <= u32::MAX {
            node_count
        } else {
            u32::MAX as nat
        },
        |i: int| i as u32,
    )
}

/// The membership that puts every node in its own community: node `i` in
/// community `i`, for the first `min(node_count, u32::MAX)` nodes.
pub fn identity_membership(node_count: usize) -> (r: Vec<u32>)
    ensures
        r@ == singleton_membership(node_count as nat),
{
    let max_id: u32 = if node_count <= u32::MAX as usize {
        node_count as u32
    } else {
        u32::MAX
    };
    let mut r: Vec<u32> = Vec::new();
    let mut i: u32 = 0;
    while i < max_id
        invariant
            i <= max_id,
            r@.len() == i,
            forall|j: int| 0 <= j < r@.len() ==> #[trigger] r@[j] == j,
        decreases max_id - i,
    {
        r.push(i);
        i = i + 1;
    }
    assert(r@ =~= singleton_membership(node_count as nat));
    r
}

/// The partition that the baseline detectors return: every node of the graph
/// in its own community, with the given quality score, after zero
/// iterations, converged.
pub fn baseline_partition<G: GraphView, Q>(graph: &G, quality: Q) -> (p: Partition<Q>)
    ensures
        p.spec_membership() == singleton_membership(graph.adjacency().len()),
        p.spec_quality() == quality,
        p.spec_iterations() == 0,
        p.spec_converged(),
{
    Partition::new(identity_membership(graph.node_count()), quality, 0, true)
}

} // verus!
