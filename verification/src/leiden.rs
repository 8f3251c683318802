//! Integer logic of the Leiden algorithm: connectivity checks and why moves
//! keep communities connected, the parent snapshot of the refinement phase,
//! community sizes, grouping and renumbering, convergence counters, the
//! checks of the iteration settings, cache counters and the stepping
//! callback.

pub mod aggregation;
pub mod config;
pub mod connectivity;
pub mod convergence;
pub mod local_moving;
pub mod refinement;
pub mod stepping;
