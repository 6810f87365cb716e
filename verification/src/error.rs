//! The errors that the sketches report when they are made or fed.

use vstd::prelude::*;

verus! {

/// A parameter that a sketch cannot work with. It is reported by the call
/// that was given it.
#[derive(Debug, Clone, Copy, PartialEq, Eq, Structural)]
pub enum ParameterError {
    /// The domain has no element.
    EmptyDomain,
    /// The domain has more elements than the sketch has a field for.
    DomainTooLarge,
    /// The failure probability is not strictly between 0 and 1.
    FailureProbability,
    /// The guessed degeneracy is zero.
    ZeroDegeneracy,
    /// The guessed degeneracy is so large that twice its product with the
    /// number of vertices does not fit a `u64`.
    DegeneracyTooLarge,
    /// The sparsity is zero.
    ZeroSparsity,
    /// An edge of the stream has a vertex outside the vertex set, or joins a
    /// vertex to itself.
    MalformedEdge,
    /// The sketch has been fed as many tokens as its counters can hold.
    StreamTooLong,
    /// No prime of the wanted size was found in the number of draws allowed.
    NoPrime,
}

} // verus!
