//! Label Propagation Algorithm: configuration and detector.

use vstd::prelude::*;

use crate::detector::{baseline_partition, singleton_membership};
use crate::graph_view::GraphView;
use crate::partition::Partition;

verus! {

/// Label Propagation update mode.
#[derive(Debug, Clone, Copy, PartialEq, Eq, Structural)]
pub enum LpaUpdateMode {
    /// Asynchronous update mode (sequential, random order).
    Asynchronous,
    /// Semi-synchronous update mode (two-phase: read then write).
    SemiSynchronous,
}

/// Configuration for the LPA algorithm.
#[derive(Debug, Clone)]
pub struct LpaConfig {
    /// Update mode for label propagation (default asynchronous).
    pub update_mode: LpaUpdateMode,
    /// Maximum iterations (default 1000).
    pub max_iterations: usize,
    /// Random seed (default none).
    pub seed: Option<u64>,
}

impl Default for LpaConfig {
    fn default() -> (c: Self)
        ensures
            c.update_mode == LpaUpdateMode::Asynchronous,
            c.max_iterations == 1000,
            c.seed is None,
    {
        LpaConfig { update_mode: LpaUpdateMode::Asynchronous, max_iterations: 1000, seed: None }
    }
}

/// Label Propagation detector: each node adopts the label held by the
/// majority of its neighbours, iteratively.
#[derive(Debug, Clone)]
pub struct Lpa {
    config: LpaConfig,
}

impl Lpa {
    /// The configuration of this detector.
    pub closed spec fn spec_config(&self) -> LpaConfig {
        self.config
    }

    /// Creates a new LPA detector with the given configuration.
    pub fn new(config: LpaConfig) -> (l: Self)
        ensures
            l.spec_config() == config,
    {
        Lpa { config }
    }

    /// Returns the configuration of this detector.
    pub fn config(&self) -> (c: &LpaConfig)
        ensures
            *c == self.spec_config(),
    {
        &self.config
    }

    /// Detects communities: every node is put in its own community, reported
    /// with the given quality score as converged after zero iterations.
    pub fn detect<G: GraphView, Q>(&self, graph: &G, quality: Q) -> (p: Partition<Q>)
        ensures
            p.spec_membership() == singleton_membership(graph.adjacency().len()),
            p.spec_quality() == quality,
            p.spec_iterations() == 0,
            p.spec_converged(),
    {
        baseline_partition(graph, quality)
    }
}

} // verus!
