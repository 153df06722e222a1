//! The graph model: nodes, edges and the indices derived from them.

pub mod base;
pub mod labeled_graph;
pub mod hypergraph;
