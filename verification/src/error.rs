use vstd::prelude::*;

verus! {

/// Errors related to graph construction and validation.
///
/// `W` is the edge-weight type of the graph.
#[derive(Debug)]
pub enum GraphError<W> {
    /// An edge has a negative weight, which most algorithms cannot handle.
    NegativeWeight {
        /// Source node index.
        from: u32,
        /// Target node index.
        to: u32,
        /// The invalid weight value.
        weight: W,
    },
    /// The graph structure is invalid for a general reason.
    InvalidGraph {
        /// Human-readable explanation.
        reason: String,
    },
    /// The graph contains no nodes.
    EmptyGraph,
    /// A node index is out of bounds.
    InvalidNode {
        /// The offending index.
        index: u32,
    },
    /// The requested file or data format is not supported.
    UnsupportedFormat {
        /// The format identifier.
        format: String,
    },
}

/// Errors related to partition operations.
#[derive(Debug)]
pub enum PartitionError {
    /// A node ID is out of bounds for the partition.
    InvalidNodeId {
        /// The offending index.
        index: u32,
    },
    /// A community ID is out of bounds.
    InvalidCommunityId {
        /// The offending index.
        index: u32,
    },
    /// A hierarchy level is invalid.
    InvalidLevel {
        /// The offending level.
        level: usize,
    },
}

/// Errors related to metrics computation.
#[derive(Debug)]
pub enum MetricsError {
    /// The partition is empty.
    EmptyPartition,
    /// Partition size does not match the expected graph size.
    SizeMismatch {
        /// Actual partition size.
        partition_size: usize,
        /// Expected size.
        expected: usize,
    },
    /// The ground truth partition is malformed.
    InvalidGroundTruth,
    /// A numerical overflow occurred during computation.
    NumericalOverflow,
}

/// Errors related to algorithm execution.
#[derive(Debug)]
pub enum AlgorithmError {
    /// The configuration is invalid.
    InvalidConfiguration {
        /// Human-readable explanation.
        reason: String,
    },
    /// The algorithm did not converge within the allowed iterations.
    NonConvergence {
        /// Number of iterations attempted.
        iterations: usize,
    },
    /// A general execution error occurred.
    ExecutionError {
        /// Human-readable explanation.
        reason: String,
    },
}

} // verus!
