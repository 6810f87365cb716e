//! Streaming graph coloring in sublinear space.
//!
//! Edges of a simple undirected graph arrive as insertions and deletions. The
//! sketches in this crate keep a small summary of the stream and, when asked,
//! colour the vertices with few colours.

pub mod error;
pub mod graph;
pub mod random_graph;
pub mod utils;
