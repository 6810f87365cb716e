//! The prime fields that the sketches compute their fingerprints in.

pub use crate::utils::finite_field::{FieldElement, FiniteField};
