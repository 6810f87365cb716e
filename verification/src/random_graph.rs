//! Random graphs, as the streams of edges that build them.

pub mod uniform;
