//! Incremental dynamic updates: hierarchies of partitions, local updates and
//! their errors.

pub mod error;
pub mod hierarchy;
pub mod update;
