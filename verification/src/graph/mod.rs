//! Directed graphs on vertices `0..n`, reachability, and strongly connected components.
pub mod digraph;
pub mod finish_order;
pub mod paths;
pub mod search;
pub mod scc;
