//! Approximate counting of a stream's tokens in a counter of a few bits.

use crate::utils::random::random_below;
use vstd::arithmetic::power2::{lemma2_to64, lemma_pow2_strictly_increases, lemma_pow2_unfold, pow2};
use vstd::prelude::*;

verus! {

/// The largest exponent that the counter reaches: the estimate made from
/// it still fits the result.
pub const MAX_EXPONENT: u32 = 30;

/// The exponent after one token: it grows by one where the draw is zero,
/// and stays once it has reached [`MAX_EXPONENT`].
pub open spec fn next_exponent(exponent: u32, draw: u64) -> u32 {
    if draw == 0 && exponent < MAX_EXPONENT {
        (exponent + 1) as u32
    } else {
        exponent
    }
}

/// The number of tokens that an exponent stands for.
pub open spec fn estimate_of(exponent: u32) -> int {
    pow2(exponent as nat) - 1
}

/// Takes one token into the counter. `draw` is a number drawn uniformly
/// below two to the power `exponent`, so that the counter grows with
/// probability one in that many.
pub fn advance(exponent: u32, draw: u64) -> (next: u32)
    ensures
        next == next_exponent(exponent, draw),
{
    if draw == 0 && exponent < MAX_EXPONENT {
        exponent + 1
    } else {
        exponent
    }
}

/// Two to the power `exponent`.
pub fn draws_for(exponent: u32) -> (bound: u64)
    requires
        exponent <= MAX_EXPONENT,
    ensures
        bound == pow2(exponent as nat),
        0 < bound <= 0x4000_0000,
{
    let mut bound: u64 = 1;
    let mut at: u32 = 0;
    proof {
        lemma2_to64();
    }
    while at < exponent
        invariant
            at <= exponent <= MAX_EXPONENT,
            bound == pow2(at as nat),
            0 < bound <= 0x4000_0000,
        decreases exponent - at,
    {
        proof {
            lemma_pow2_unfold((at + 1) as nat);
            lemma2_to64();
            if at + 1 < 30 {
                lemma_pow2_strictly_increases((at + 1) as nat, 30);
            }
        }
        bound = bound * 2;
        at = at + 1;
    }
    bound
}

/// The estimate that the counter gives: one less than two to the power
/// `exponent`.
pub fn estimate(exponent: u32) -> (count: i32)
    requires
        exponent <= MAX_EXPONENT,
    ensures
        count == estimate_of(exponent),
{
    let bound: u64 = draws_for(exponent);
    (bound - 1) as i32
}

/// A stream whose tokens can be counted approximately.
pub trait Counting: Sized {
    /// The number of tokens in the stream.
    spec fn tokens(&self) -> nat;

    /// Morris's counter: an exponent that starts at zero and grows, at each
    /// token, with probability one in two to its power. The estimate is
    /// that of an exponent which is at most the number of tokens.
    fn morris(self) -> (count: i32)
        ensures
            exists|exponent: u32|
                exponent <= MAX_EXPONENT && exponent <= self.tokens() && count == estimate_of(
                    exponent,
                ),
    ;
}

impl Counting for Vec<(i32, i32)> {
    open spec fn tokens(&self) -> nat {
        self@.len()
    }

    fn morris(self) -> (count: i32) {
        let mut exponent: u32 = 0;
        let mut at: usize = 0;
        while at < self.len()
            invariant
                at <= self.len(),
                exponent <= MAX_EXPONENT,
                exponent <= at,
            decreases self.len() - at,
        {
            let draw: u64 = random_below(draws_for(exponent));
            exponent = advance(exponent, draw);
            at = at + 1;
        }
        estimate(exponent)
    }
}

} // verus!
