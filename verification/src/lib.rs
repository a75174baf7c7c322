//! Approximate vertex coloring of undirected simple graphs by a greedy
//! randomized adaptive search procedure with a local-search refinement.

pub mod algorithms;
pub mod graph;
pub mod lists;
