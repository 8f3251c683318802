use vstd::prelude::*;

use std::collections::HashSet;

use crate::id::NodeId;

verus! {

/// Output of a community detection algorithm.
///
/// Stores the community assignment for each node along with the overall
/// quality score (of type `Q`) achieved by the algorithm.
#[derive(Debug, Clone)]
pub struct Partition<Q> {
    membership: Vec<u32>,
    quality: Q,
    /// Number of iterations performed by the algorithm.
    ///
    /// For algorithms that support early termination (e.g., Leiden), this
    /// reflects the actual number of iterations before convergence, which
    /// may be less than `max_iterations`.
    pub iterations: usize,
    /// Whether the algorithm converged (`true`) or hit the iteration limit (`false`).
    pub converged: bool,
}

impl<Q> Partition<Q> {
    /// The community of every node, by 0-based node index.
    pub closed spec fn spec_membership(&self) -> Seq<u32> {
        self.membership@
    }

    /// The quality score.
    pub closed spec fn spec_quality(&self) -> Q {
        self.quality
    }

    /// The recorded iteration count.
    pub closed spec fn spec_iterations(&self) -> usize {
        self.iterations
    }

    /// The recorded convergence status.
    pub closed spec fn spec_converged(&self) -> bool {
        self.converged
    }

    /// Creates a new partition from a membership vector, quality score, iteration
    /// count, and convergence status.
    ///
    /// `membership[i]` is the community ID of node `i`.
    pub fn new(membership: Vec<u32>, quality: Q, iterations: usize, converged: bool) -> (p: Self)
        ensures
            p.spec_membership() == membership@,
            p.spec_quality() == quality,
            p.spec_iterations() == iterations,
            p.spec_converged() == converged,
    {
        Partition { membership, quality, iterations, converged }
    }

    /// Returns the community assignment for a node, if it exists.
    ///
    /// `NodeId` is 1-based while the membership vector is 0-based.
    pub fn community_of(&self, node: NodeId) -> (r: Option<&u32>)
        ensures
            node.value() - 1 < self.spec_membership().len() ==> r == Some(
                &self.spec_membership()[node.value() - 1],
            ),
            node.value() - 1 >= self.spec_membership().len() ==> r is None,
    {
        let idx = node.index() - 1;
        if idx < self.membership.len() {
            Some(&self.membership[idx])
        } else {
            None
        }
    }

    /// Returns the number of iterations performed by the algorithm.
    pub fn iterations(&self) -> (r: usize)
        ensures
            r == self.spec_iterations(),
    {
        self.iterations
    }

    /// Returns whether the algorithm converged (`true`) or hit the iteration limit (`false`).
    pub fn converged(&self) -> (r: bool)
        ensures
            r == self.spec_converged(),
    {
        self.converged
    }

    /// Returns the full membership vector.
    pub fn membership_vec(&self) -> (r: &[u32])
        ensures
            r@ == self.spec_membership(),
    {
        self.membership.as_slice()
    }

    /// Returns the number of distinct communities.
    pub fn community_count(&self) -> (r: usize)
        ensures
            r == self.spec_membership().to_set().len(),
    {
        let mut seen: HashSet<u32> = HashSet::new();
        let len = self.membership.len();
        let mut i: usize = 0;
        while i < len
            invariant
                i <= len,
                len == self.membership@.len(),
                seen@ == self.membership@.take(i as int).to_set(),
            decreases len - i,
        {
            let c = self.membership[i];
            seen.insert(c);
            assert(self.membership@.take(i + 1) =~= self.membership@.take(i as int).push(c));
            proof {
                self.membership@.take(i as int).lemma_push_to_set_commute(c);
            }
            assert(self.membership@.take(i + 1).to_set() =~= self.membership@.take(
                i as int,
            ).to_set().insert(c));
            i = i + 1;
        }
        assert(self.membership@.take(len as int) =~= self.membership@);
        seen.len()
    }
}

impl<Q: Copy> Partition<Q> {
    /// Returns the quality score of this partition.
    pub fn quality_score(&self) -> (r: Q)
        ensures
            r == self.spec_quality(),
    {
        self.quality
    }
}

} // verus!
