//! Arithmetic and hashing that the sketches are built on.

pub mod collections;
pub mod finite_field;
pub mod hash_function;
pub mod random;
