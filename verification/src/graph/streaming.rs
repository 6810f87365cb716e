//! Graph Streaming Algorithms
//!
//! Many of the functions here are implemented based off of the lecture notes from Dartmouth's [CS35 Spring 2020 Lecture Notes](https://www.cs.dartmouth.edu/~ac/Teach/CS35-Spring20/Notes/lecnotes.pdf)

use vstd::prelude::*;

pub mod coloring;
pub mod counting;
pub mod distinct;
pub mod sampling;
pub mod sparse_recovery;

verus! {

/// A sketch that is still taking its stream, or the answer that it gave
/// when the stream had ended.
#[derive(Debug)]
pub enum Stream<S, Q> {
    InStream(S),
    Queried(Q),
}

impl<S, Q> Stream<S, Q> {
    /// The sketch that is taking the stream. The stream has not been
    /// consumed yet.
    pub fn as_stream(&mut self) -> (stream: &mut S)
        requires
            *old(self) is InStream,
        ensures
            *stream == old(self)->InStream_0,
            *final(self) == Stream::<S, Q>::InStream(*final(stream)),
    {
        match self {
            Self::InStream(s) => s,
            _ => unreached(),
        }
    }
}

/// A sketch that gives an answer when its stream has ended.
pub trait Query<T>: Sized {
    /// What the sketch needs to hold of itself to be asked.
    spec fn can_query(&self) -> bool;

    /// Whether `out` is an answer that the sketch can give.
    spec fn answers(&self, out: T) -> bool;

    /// Ends the stream and gives the answer.
    fn query(self) -> (out: T)
        requires
            self.can_query(),
        ensures
            self.answers(out),
    ;
}

impl<S, Q> Stream<S, Q> where S: Query<Q> {
    /// The answer: that of the sketch if it is still taking its stream, and
    /// the one that was given before otherwise.
    pub fn query(self) -> (out: Q)
        requires
            self matches Stream::InStream(s) ==> s.can_query(),
        ensures
            match self {
                Stream::InStream(s) => s.answers(out),
                Stream::Queried(res) => out == res,
            },
    {
        match self {
            Self::InStream(stream) => stream.query(),
            Self::Queried(res) => res,
        }
    }
}

} // verus!
