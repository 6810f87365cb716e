//! Coloring the vertices of a graph that arrives as a stream of edges.

pub mod bcg;
