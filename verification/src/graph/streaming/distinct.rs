//! Counting the distinct tokens of a stream.

use vstd::arithmetic::power2::*;
use vstd::prelude::*;

verus! {

/// The largest number up to half of `p` whose power of two divides `p`.
pub fn zeros(p: u64) -> (max: u64)
    requires
        p <= 127,
    ensures
        max <= p / 2,
        (p as int) % (pow2(max as nat) as int) == 0,
        forall|c: nat| max < c <= p / 2 ==> (p as int) % (#[trigger] pow2(c) as int) != 0,
{
    let (mut max, mut curr): (u64, u64) = (0, 0);
    proof {
        lemma2_to64();
    }
    while curr <= p / 2
        invariant
            curr <= p / 2 + 1,
            p <= 127,
            max <= p / 2,
            max < curr || curr == 0,
            (p as int) % (pow2(max as nat) as int) == 0,
            forall|c: nat| max < c < curr ==> (p as int) % (#[trigger] pow2(c) as int) != 0,
        decreases p / 2 + 1 - curr,
    {
        proof {
            lemma_pow2_strictly_increases(curr as nat, 64);
            lemma2_to64();
            lemma_pow2_pos(curr as nat);
            vstd::bits::lemma_u64_shl_is_mul(1, curr);
        }
        let power: u64 = 1u64 << curr;
        if p % power == 0 {
            max = curr
        }
        curr += 1;
    }
    max
}

} // verus!
