//! Sampling Functions
//!
//! Sketches that sample a coordinate of the vector that a stream leaves.

pub mod l0_sampling;
