//! Static Algorithms
//!
//! All of the Algorithms here assume that complete knowledge of the graph is known, and stored in local memory

pub mod bipartite;
pub mod coloring;
pub mod connected_components;
pub mod matching;
pub mod search;
pub mod shortest_paths;
