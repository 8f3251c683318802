//! Community detection framework: graph representation, identifiers,
//! traversal, partitions and the integer logic of the detection algorithms.

pub mod id;
pub mod graph_view;
pub mod csr;
pub mod traversal;
pub mod leiden;
pub mod partition;
pub mod builder;
pub mod config;
pub mod error;
pub mod step;
pub mod io;
pub mod detector;
pub mod fluid;
pub mod louvain;
pub mod lpa;
pub mod quality;
pub mod subscribe;
pub mod tie_breaking;
pub mod dynamic;
pub mod stepping;
