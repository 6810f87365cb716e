//! Sparse Recovery
//!
//! Data structures that recover the few coordinates of a vector that a
//! stream of insertions and deletions leaves other than zero.

use vstd::prelude::*;

pub mod finite_field;
pub mod one_sparse;
pub mod s_sparse;

verus! {

/// The number of primes in [`bertrand_prime`].
pub const BERTRAND_PRIMES: u32 = 34;

/// A list of Bertrands primes to aid in computing a prime number between n and 2n
pub open spec fn bertrand_prime(i: int) -> u64 {
    seq![
        2u64,
        3,
        5,
        7,
        13,
        23,
        43,
        83,
        163,
        317,
        631,
        1259,
        2503,
        5003,
        9973,
        19937,
        39869,
        79699,
        159389,
        318751,
        637499,
        1274989,
        2549951,
        5099893,
        10199767,
        20399531,
        40799041,
        81598067,
        163196129,
        326392249,
        652784471,
        1305568919,
        2611137817,
        5222275627,
    ][i]
}

/// What a search of the primes between the places `left` and `right` gives
/// for `n`. The search looks at the prime in the middle. If that is `n`, it
/// gives the next prime. Otherwise it goes on above the middle if `n` is
/// larger and below it if `n` is smaller, and gives the prime in the middle
/// when no place is left.
pub open spec fn bertrand_search(n: u32, left: int, right: int) -> u64
    decreases right - left,
{
    if !(0 <= left < right <= 34) {
        0
    } else {
        let middle = (right - left) / 2 + left;
        let value = bertrand_prime(middle);
        if n == value {
            bertrand_prime(middle + 1)
        } else if n > value {
            if right <= middle + 1 {
                value
            } else {
                bertrand_search(n, middle + 1, right)
            }
        } else {
            if middle - 1 <= left {
                value
            } else {
                bertrand_search(n, left, middle - 1)
            }
        }
    }
}

/// Computes a prime value between n and 2n, using BERTRAND_PRIMES and Chebyshev's Theorem
pub fn find_prime_n_n2(n: u32) -> (prime: u64)
    ensures
        prime == bertrand_search(n, 0, 34),
{
    let primes: [u64; 34] = [
        2,
        3,
        5,
        7,
        13,
        23,
        43,
        83,
        163,
        317,
        631,
        1259,
        2503,
        5003,
        9973,
        19937,
        39869,
        79699,
        159389,
        318751,
        637499,
        1274989,
        2549951,
        5099893,
        10199767,
        20399531,
        40799041,
        81598067,
        163196129,
        326392249,
        652784471,
        1305568919,
        2611137817,
        5222275627,
    ];
    let mut left: u32 = 0;
    let mut right: u32 = BERTRAND_PRIMES;
    loop
        invariant
            0 <= left < right <= 34,
            left == 0 ==> right == 34 || right == 16 || right == 7 || right == 2,
            forall|i: int| 0 <= i < 34 ==> primes@[i] == bertrand_prime(i),
            bertrand_search(n, left as int, right as int) == bertrand_search(n, 0, 34),
        decreases right - left,
    {
        let insertion_point = ((right - left) / 2) + left;
        let value = primes[insertion_point as usize];
        if n as u64 > value {
            left = insertion_point + 1
        } else if (n as u64) < value {
            right = insertion_point - 1;
        } else {
            return primes[insertion_point as usize + 1];
        }
        if right <= left {
            return value;
        }
    }
}

} // verus!
