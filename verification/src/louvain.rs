//! Louvain algorithm: configuration and detector.

use vstd::prelude::*;

use crate::detector::{baseline_partition, singleton_membership};
use crate::graph_view::GraphView;
use crate::partition::Partition;

verus! {

/// Configuration for the Louvain algorithm.
#[derive(Debug, Clone)]
pub struct LouvainConfig {
    /// Maximum iterations (default 1000).
    pub max_iterations: usize,
    /// Random seed (default none).
    pub seed: Option<u64>,
}

impl Default for LouvainConfig {
    fn default() -> (c: Self)
        ensures
            c.max_iterations == 1000,
            c.seed is None,
    {
        LouvainConfig { max_iterations: 1000, seed: None }
    }
}

/// Louvain detector: greedy modularity optimization through local moving and
/// aggregation phases.
#[derive(Debug, Clone)]
pub struct Louvain {
    config: LouvainConfig,
}

impl Louvain {
    /// The configuration of this detector.
    pub closed spec fn spec_config(&self) -> LouvainConfig {
        self.config
    }

    /// Creates a new Louvain detector with the given configuration.
    pub fn new(config: LouvainConfig) -> (l: Self)
        ensures
            l.spec_config() == config,
    {
        Louvain { config }
    }

    /// Returns the configuration of this detector.
    pub fn config(&self) -> (c: &LouvainConfig)
        ensures
            *c == self.spec_config(),
    {
        &self.config
    }

    /// Detects communities: every node is put in its own community, reported
    /// with the given quality score as converged after zero iterations.
    pub fn detect<G: GraphView, Q>(&self, graph: &G, quality: Q) -> (p: Partition<Q>)
        ensures
            p.spec_membership() == singleton_membership(graph.adjacency().len()),
            p.spec_quality() == quality,
            p.spec_iterations() == 0,
            p.spec_converged(),
    {
        baseline_partition(graph, quality)
    }
}

} // verus!
