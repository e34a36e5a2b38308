//! Dependency-network preparation for the crates.io index: one node per
//! crate, with the kept dependencies of all its releases as edges,
//! computing degrees and the core subgraph of the most depended-upon
//! crates, and assembling per-crate category and keyword labels.

pub mod order;
pub mod sort;
pub mod index;
pub mod release;
pub mod graph;
pub mod dump;
pub mod labels;
