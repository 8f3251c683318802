//! Deterministic tie-breaking for community detection algorithms.

use vstd::prelude::*;

use rand::prelude::IndexedRandom;
use rand::rngs::StdRng;
use rand::SeedableRng;

use crate::id::NodeId;

verus! {

/// `IndexedRandom::choose` of `rand` on a slice, driven by a `StdRng` seeded with
/// `rand::SeedableRng::seed_from_u64(seed)`: `None` for an empty slice, otherwise
/// one of its elements.
///
/// Which element is chosen is left unsaid: it is a function of the seed and
/// the slice's length through `StdRng`, which `rand` documents as not portable
/// across versions and platforms.
#[verifier::external_body]
fn choose_seeded(nodes: &[NodeId], seed: u64) -> (r: Option<NodeId>)
    ensures
        nodes@.len() == 0 ==> r is None,
        nodes@.len() > 0 ==> r is Some && nodes@.contains(r->0),
{
    let mut rng = StdRng::seed_from_u64(seed);
    nodes.choose(&mut rng).copied()
}

/// Breaks a tie among candidate nodes.
///
/// With a `seed`, a seeded random selection picks the winner; without one,
/// the minimum node is returned. Returns `None` if `nodes` is empty.
pub fn break_tie(nodes: &[NodeId], seed: Option<u64>) -> (r: Option<NodeId>)
    ensures
        nodes@.len() == 0 ==> r is None,
        nodes@.len() > 0 ==> r is Some && nodes@.contains(r->0),
        nodes@.len() > 0 && seed is None ==> forall|i: int|
            0 <= i < nodes@.len() ==> r->0.value() <= #[trigger] nodes@[i].value(),
{
    if nodes.len() == 0 {
        return None;
    }
    match seed {
        Some(seed) => choose_seeded(nodes, seed),
        None => {
            let mut best = nodes[0];
            let mut best_index: usize = 0;
            let mut i: usize = 1;
            while i < nodes.len()
                invariant
                    1 <= i <= nodes@.len(),
                    best_index < nodes@.len(),
                    best == nodes@[best_index as int],
                    forall|j: int| 0 <= j < i ==> best.value() <= #[trigger] nodes@[j].value(),
                decreases nodes@.len() - i,
            {
                let candidate = nodes[i];
                if candidate.raw() < best.raw() {
                    best = candidate;
                    best_index = i;
                }
                i = i + 1;
            }
            assert(nodes@[best_index as int] == best);
            Some(best)
        },
    }
}

} // verus!
