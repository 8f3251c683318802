use vstd::prelude::*;

use crate::error::PartitionError;

verus! {

/// Errors specific to dynamic operations.
#[derive(Debug)]
pub enum DynamicOperationError {
    /// The requested hierarchy level does not exist.
    InvalidLevel {
        /// The invalid level index.
        level: usize,
    },
    /// A community split operation failed.
    SplitFailure {
        /// Explanation of why the split failed.
        reason: String,
    },
    /// The update exceeded the allowed O(k) complexity bound.
    ComplexityExceeded,
    /// A graph mutation could not be applied.
    MutationError {
        /// Explanation of the mutation failure.
        reason: String,
    },
}

/// The partition error that a dynamic-operation error becomes: an invalid level
/// stays an invalid level; every other error becomes an invalid node ID 0.
pub open spec fn partition_error_of(e: DynamicOperationError) -> PartitionError {
    match e {
        DynamicOperationError::InvalidLevel { level } => PartitionError::InvalidLevel { level },
        _ => PartitionError::InvalidNodeId { index: 0 },
    }
}

impl From<DynamicOperationError> for PartitionError {
    fn from(e: DynamicOperationError) -> (r: Self) {
        match e {
            DynamicOperationError::InvalidLevel { level } => PartitionError::InvalidLevel { level },
            _ => PartitionError::InvalidNodeId { index: 0 },
        }
    }
}

impl vstd::std_specs::convert::FromSpecImpl<DynamicOperationError> for PartitionError {
    open spec fn obeys_from_spec() -> bool {
        true
    }

    open spec fn from_spec(e: DynamicOperationError) -> PartitionError {
        partition_error_of(e)
    }
}

} // verus!
