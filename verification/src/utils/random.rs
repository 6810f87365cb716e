//! The source of the random numbers that the sketches draw when they are made.

use rand::seq::IteratorRandom;
use rand::Rng;
use vstd::prelude::*;

verus! {

/// Draws a number below `bound` from the thread's random number generator.
///
/// Calls `rand::Rng::gen_range` on `rand::thread_rng()` with the range
/// `0..bound`. The range must hold a number, so `bound` is positive, and the
/// draw lies in the range. Nothing more is known of it.
#[verifier::external_body]
pub(crate) fn random_below(bound: u64) -> (r: u64)
    requires
        bound > 0,
    ensures
        r < bound,
{
    rand::thread_rng().gen_range(0..bound)
}

/// Draws `amount` different numbers below `length` from the thread's
/// random number generator.
///
/// Calls `rand::seq::IteratorRandom::choose_multiple` on the range
/// `0..length`. It fills a vector with the first `amount` numbers of the
/// range and then puts each later number in the place of an earlier one,
/// or nowhere: no number comes twice, and the vector is as long as
/// `amount`, since the range is no shorter. It makes room for `amount`
/// numbers at once, so `amount` is kept to what a vector can be asked to
/// hold. Nothing more is known of the numbers.
#[verifier::external_body]
pub(crate) fn choose_below(length: u64, amount: usize) -> (picks: Vec<u64>)
    requires
        amount <= length,
        amount <= 0xFFFF_FFFF,
    ensures
        picks@.no_duplicates(),
        forall|i: int| 0 <= i < picks@.len() ==> #[trigger] picks@[i] < length,
        picks@.len() == amount,
{
    (0..length).choose_multiple(&mut rand::thread_rng(), amount)
}

} // verus!
