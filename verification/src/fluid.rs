//! Fluid Communities algorithm: configuration and detector.

use vstd::prelude::*;

use crate::detector::{baseline_partition, singleton_membership};
use crate::graph_view::GraphView;
use crate::partition::Partition;

verus! {

/// Configuration for the Fluid Communities algorithm.
///
/// Controls the target number of communities, iteration limits, and
/// deterministic seeding.
#[derive(Debug, Clone)]
pub struct FluidConfig {
    /// Target number of communities (default 2).
    pub target_communities: usize,
    /// Maximum iterations (default 1000).
    pub max_iterations: usize,
    /// Random seed (default none).
    pub seed: Option<u64>,
}

impl Default for FluidConfig {
    fn default() -> (c: Self)
        ensures
            c.target_communities == 2,
            c.max_iterations == 1000,
            c.seed is None,
    {
        FluidConfig { target_communities: 2, max_iterations: 1000, seed: None }
    }
}

/// Fluid Communities detector: fluids expand from initially seeded nodes and
/// compete to occupy the graph.
#[derive(Debug, Clone)]
pub struct Fluid {
    config: FluidConfig,
}

impl Fluid {
    /// The configuration of this detector.
    pub closed spec fn spec_config(&self) -> FluidConfig {
        self.config
    }

    /// Creates a new Fluid detector with the given configuration.
    pub fn new(config: FluidConfig) -> (f: Self)
        ensures
            f.spec_config() == config,
    {
        Fluid { config }
    }

    /// Returns the configuration of this detector.
    pub fn config(&self) -> (c: &FluidConfig)
        ensures
            *c == self.spec_config(),
    {
        &self.config
    }

    /// Detects communities: every node is put in its own community, reported
    /// with the given quality score as converged after zero iterations.
    pub fn detect<G: GraphView, Q>(&self, graph: &G, quality: Q) -> (p: Partition<Q>)
        ensures
            p.spec_membership() == singleton_membership(graph.adjacency().len()),
            p.spec_quality() == quality,
            p.spec_iterations() == 0,
            p.spec_converged(),
    {
        baseline_partition(graph, quality)
    }
}

} // verus!
