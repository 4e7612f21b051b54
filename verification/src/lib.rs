//! An undirected graph of named nodes with breadth-first shortest-path queries.

mod frontier;
pub mod graph;
pub mod guarantees;
pub mod paths;
mod relabel;
mod search;

pub use graph::Graph;
