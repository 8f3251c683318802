//! Graph input/output utilities.

pub mod text;
pub mod edgelist;
pub mod formats;
pub mod serialize;
