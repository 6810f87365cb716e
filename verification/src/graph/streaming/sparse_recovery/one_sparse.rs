//! One Sparse Recovery

use vstd::arithmetic::div_mod::*;
use vstd::arithmetic::mul::*;
use vstd::prelude::*;

use crate::error::ParameterError;
use crate::utils::finite_field::{bits, pow_mod, FieldElement, FiniteField};
use crate::utils::random::random_below;

verus! {

/// The largest domain for which a prime of the wanted size fits a `u64`.
pub const MAX_DOMAIN: u64 = 0x20_0000;

/// The number of tokens that a sketch can be fed.
pub const STREAM_LIMIT: u64 = 0x7FFF_FFFF_FFFF_FFFF;

/// The number of candidates that are drawn in search of a prime.
pub const PRIME_DRAWS: u64 = 4096;

/// What a query of a one sparse recovery answers.
#[derive(Debug, Clone, Copy, PartialEq, Eq, Structural)]
pub enum OneSparseRecoveryOutput {
    Zero,
    /// First element is the value, second element is the index
    VeryLikely(i64, u64),
    NotOneSparse,
}

/// What a one sparse recovery holds, as numbers: the fingerprint `l`, `z`,
/// `p` of the stream so far, and the values `r`, `n` and `order` that it was
/// made with.
pub struct Fingerprint {
    /// The sum of the weights.
    pub l: int,
    /// The sum of the weights, each times its coordinate.
    pub z: int,
    /// The sum of the weights, each times `r` to the power of its
    /// coordinate, in the field.
    pub p: int,
    /// The random base.
    pub r: int,
    /// The size of the domain.
    pub n: nat,
    /// The size of the field.
    pub order: int,
}

/// The weight of a token: 1 for an insertion, -1 for a deletion.
pub open spec fn weight(ins: bool) -> int {
    if ins {
        1
    } else {
        -1
    }
}

impl Fingerprint {
    /// The fingerprint of the empty stream.
    pub open spec fn empty(n: nat, order: int, r: int) -> Fingerprint {
        Fingerprint { l: 0, z: 0, p: 0, r, n, order }
    }

    /// The fingerprint after one more token.
    pub open spec fn step(self, j: u64, ins: bool) -> Fingerprint {
        Fingerprint {
            l: self.l + weight(ins),
            z: self.z + weight(ins) * j,
            p: (self.p + weight(ins) * pow_mod(self.r, j as nat, self.order)) % self.order,
            ..self
        }
    }

    /// The fingerprint after a stream of tokens.
    pub open spec fn after(self, stream: Seq<(u64, bool)>) -> Fingerprint
        decreases stream.len(),
    {
        if stream.len() == 0 {
            self
        } else {
            self.after(stream.drop_last()).step(stream.last().0, stream.last().1)
        }
    }

    /// Whether the fingerprint is that of the vector with the weight `l` at
    /// the coordinate `i` and zero elsewhere.
    pub open spec fn fits(self, i: int) -> bool {
        &&& 0 <= i < self.n
        &&& self.z == self.l * i
        &&& self.p == ((self.l % self.order) * pow_mod(self.r, i as nat, self.order)) % self.order
    }

    /// What a query answers.
    pub open spec fn answer(self) -> OneSparseRecoveryOutput {
        if self.l == 0 && self.z == 0 && self.p == 0 {
            OneSparseRecoveryOutput::Zero
        } else if self.l != 0 && exists|i: int| self.fits(i) {
            OneSparseRecoveryOutput::VeryLikely(
                self.l as i64,
                (choose|i: int| self.fits(i)) as u64,
            )
        } else {
            OneSparseRecoveryOutput::NotOneSparse
        }
    }
}

/// A fingerprint with a weight other than zero fits one coordinate at most.
pub proof fn lemma_fits_once(fp: Fingerprint, i: int, k: int)
    requires
        fp.l != 0,
        fp.fits(i),
        fp.fits(k),
    ensures
        i == k,
{
    assert(fp.l * i == fp.l * k ==> i == k) by (nonlinear_arith)
        requires
            fp.l != 0,
    ;
}

/// One Sparse Recovery Data Structure. This includes both the Fingerprint values, and the initializing values, including a finite field to person arithmetic within
#[derive(Clone, Debug)]
pub struct OneSparseRecovery {
    /// Fingerprint
    l: i64,
    z: i128,
    p: FieldElement,
    /// Init values
    r: FieldElement,
    n: u64,
    field: FiniteField,
    /// The number of tokens fed
    fed: u64,
}

impl View for OneSparseRecovery {
    type V = Fingerprint;

    closed spec fn view(&self) -> Fingerprint {
        Fingerprint {
            l: self.l as int,
            z: self.z as int,
            p: self.p@,
            r: self.r@,
            n: self.n as nat,
            order: self.field.order(),
        }
    }
}

/// The number of bits of the primes that a sketch over `n` coordinates
/// works with: one more than the least `b` with `2^b >= n^3`, and three
/// where that is less, since no prime has fewer bits than the draws can
/// take.
pub open spec fn prime_bits(n: u64) -> nat {
    if n <= 1 {
        3
    } else {
        crate::utils::finite_field::bit_length((n * n * n - 1) as u64) + 1
    }
}

/// The number of bits of the primes for a domain of `n` coordinates.
pub fn prime_bits_of(n: u64) -> (b: u64)
    requires
        n <= MAX_DOMAIN,
    ensures
        b == prime_bits(n),
        3 <= b <= 64,
{
    if n <= 1 {
        return 3;
    }
    assert(8 <= n * n * n <= 0x20_0000 * 0x20_0000 * 0x20_0000) by (nonlinear_arith)
        requires
            2 <= n <= 0x20_0000,
    ;
    assert(n * n <= 0x20_0000 * 0x20_0000) by (nonlinear_arith)
        requires
            n <= 0x20_0000,
    ;
    let cube: u64 = n * n * n;
    let last: u64 = cube - 1;
    let b = bits(&last);
    assert(3 <= b <= 63) by (bit_vector)
        requires
            7 <= last < 0x8000_0000_0000_0000,
            b <= 64,
            b < 64 ==> last >> b == 0,
            b > 0 ==> (last >> ((b - 1) as u64)) & 1 == 1,
    ;
    b + 1
}

/// Tests whether a number is a prime, with a small chance of taking a
/// composite number for one.
///
/// Calls `num_primes::Verification::is_prime`, which divides by small
/// primes and then runs Fermat's and the Miller-Rabin test on random bases.
/// The crate draws a base between 2 and `candidate - 1`, which it can do from
/// 5 on. The answer depends on the bases drawn, so nothing is stated of it.
#[verifier::external_body]
fn probably_prime(candidate: u64) -> (b: bool)
    requires
        candidate >= 5,
{
    num_primes::Verification::is_prime(&num_primes::BigUint::from(candidate))
}

/// Looks for a prime of exactly `bits` bits: it draws odd numbers of that
/// size at random and returns the first that passes the primality test, or
/// `None` if none of [`PRIME_DRAWS`] draws does.
///
/// Only numbers from 5 on are put to the test, so there is none of fewer
/// than three bits. For three bits and more the test decides: it draws its
/// bases and may turn down any number.
pub fn find_prime(bits: u64) -> (prime: Option<u64>)
    requires
        1 <= bits <= 64,
    ensures
        prime matches Some(p) ==> {
            &&& p >= 5
            &&& p % 2 == 1
            &&& p >> ((bits - 1) as u64) == 1
        },
        bits <= 2 ==> prime is None,
{
    let low: u64 = 1u64 << (bits - 1);
    assert(low >= 1 && low <= 0x8000_0000_0000_0000) by (bit_vector)
        requires
            1 <= bits <= 64,
            low == 1u64 << ((bits - 1) as u64),
    ;
    let mut draws: u64 = 0;
    while draws < PRIME_DRAWS
        invariant
            1 <= bits <= 64,
            low == 1u64 << ((bits - 1) as u64),
            1 <= low <= 0x8000_0000_0000_0000,
        decreases PRIME_DRAWS - draws,
    {
        let offset = random_below(low);
        let candidate: u64 = (low + offset) | 1;
        assert(candidate % 2 == 1 && candidate >> ((bits - 1) as u64) == 1 && (bits <= 2
            ==> candidate < 5)) by (bit_vector)
            requires
                1 <= bits <= 64,
                low == 1u64 << ((bits - 1) as u64),
                offset < low,
                candidate == ((low + offset) as u64) | 1,
        ;
        if candidate >= 5 && probably_prime(candidate) {
            return Some(candidate);
        }
        draws = draws + 1;
    }
    None
}

/// What links a fingerprint to the coordinate that it fits: the sizes of `z`
/// and `l` divide without rest, and the signs agree.
proof fn lemma_quotient(l: int, z: int, i: int)
    requires
        l != 0,
        i >= 0,
        z == l * i,
    ensures
        (if z < 0 {
            -z
        } else {
            z
        }) == (if l < 0 {
            -l
        } else {
            l
        }) * i,
        z != 0 ==> (z < 0 <==> l < 0),
{
    assert(l < 0 && i > 0 ==> l * i < 0) by (nonlinear_arith);
    assert(l > 0 && i > 0 ==> l * i > 0) by (nonlinear_arith);
    assert(i == 0 ==> l * i == 0) by (nonlinear_arith);
    assert((-l) * i == -(l * i)) by (nonlinear_arith);
}

impl OneSparseRecovery {
    /// The number of tokens that the sketch has been fed.
    pub closed spec fn tokens(&self) -> nat {
        self.fed as nat
    }

    /// The sketch holds a field and elements of it, and its counters are
    /// no larger than the tokens fed can have made them.
    pub closed spec fn wf(&self) -> bool {
        &&& self.field.wf()
        &&& 0 <= self.r@ < self.field.order()
        &&& 0 <= self.p@ < self.field.order()
        &&& self.fed <= STREAM_LIMIT
        &&& -(self.fed as int) <= self.l <= self.fed
        &&& -(self.fed * self.n) <= self.z <= self.fed * self.n
    }

    /// A sketch that holds a field keeps the domain, the field and the
    /// base that it was made with, and its `p` lies in the field.
    pub proof fn lemma_wf(&self)
        requires
            self.wf(),
        ensures
            self@.order >= 2,
            0 <= self@.r < self@.order,
            0 <= self@.p < self@.order,
            self.tokens() <= STREAM_LIMIT,
    {
    }

    /// The number of tokens that the sketch has been fed.
    pub fn tokens_fed(&self) -> (fed: u64)
        ensures
            fed == self.tokens(),
    {
        self.fed
    }

    /// A new sketch over the coordinates below `n`, in the field of `order`
    /// elements, with the base `r`.
    pub fn with_base(n: u64, order: u64, r: u64) -> (sketch: Self)
        requires
            order >= 2,
            r < order,
        ensures
            sketch.wf(),
            sketch.tokens() == 0,
            sketch@ == Fingerprint::empty(n as nat, order as int, r as int),
    {
        assert(0 * n == 0) by (nonlinear_arith);
        OneSparseRecovery {
            l: 0,
            z: 0,
            p: FieldElement(0),
            r: FieldElement(r),
            n,
            field: FiniteField::new(order),
            fed: 0,
        }
    }

    /// Initialize a new `OneSparseRecovery` DS, where the size of our universe is given as `n`.
    ///
    /// The field is that of a prime of [`prime_bits`] bits, found by
    /// [`find_prime`], and the base is drawn at random from it.
    pub fn init(n: u64) -> (made: Result<Self, ParameterError>)
        ensures
            n == 0 ==> made == Err::<Self, ParameterError>(ParameterError::EmptyDomain),
            n > MAX_DOMAIN ==> made == Err::<Self, ParameterError>(ParameterError::DomainTooLarge),
            0 < n <= MAX_DOMAIN ==> (made matches Err(e) ==> e == ParameterError::NoPrime),
            made matches Ok(sketch) ==> {
                &&& 0 < n <= MAX_DOMAIN
                &&& sketch.wf()
                &&& sketch.tokens() == 0
                &&& sketch@ == Fingerprint::empty(n as nat, sketch@.order, sketch@.r)
                &&& sketch@.order >= 5
                &&& (sketch@.order as u64) >> ((prime_bits(n) - 1) as u64) == 1
            },
    {
        if n == 0 {
            return Err(ParameterError::EmptyDomain);
        }
        if n > MAX_DOMAIN {
            return Err(ParameterError::DomainTooLarge);
        }
        let prime_bits = prime_bits_of(n);
        match find_prime(prime_bits) {
            Some(order) => Ok(Self::init_with_order(n, order)),
            None => Err(ParameterError::NoPrime),
        }
    }

    /// A new sketch over the coordinates below `n` in the field of `order`
    /// elements, with a base drawn at random from the field.
    pub fn init_with_order(n: u64, order: u64) -> (sketch: Self)
        requires
            order >= 2,
        ensures
            sketch.wf(),
            sketch.tokens() == 0,
            sketch@ == Fingerprint::empty(n as nat, order as int, sketch@.r),
            0 <= sketch@.r < order,
    {
        let r = random_below(order);
        Self::with_base(n, order, r)
    }

    /// Process a token of some stream into the stream of the `OneSparseRecovery` DS.
    ///
    /// `token = (j, c)`
    ///
    /// Expectations:
    /// 1. `j \in [n]`
    /// 2. `c \in {-1, 1} - false -> -1; true -> 1`
    pub fn feed(&mut self, token: (u64, bool))
        requires
            old(self).wf(),
            token.0 < old(self)@.n,
            old(self).tokens() < STREAM_LIMIT,
        ensures
            final(self).wf(),
            final(self)@ == old(self)@.step(token.0, token.1),
            final(self).tokens() == old(self).tokens() + 1,
    {
        let (coordinate, value) = token;
        let ghost before = *self;
        let ghost order = self.field.order();
        assert((self.fed + 1) * self.n == self.fed * self.n + self.n) by (nonlinear_arith);
        assert((self.fed + 1) * self.n <= 0x7FFF_FFFF_FFFF_FFFF * 0xFFFF_FFFF_FFFF_FFFF)
            by (nonlinear_arith)
            requires
                self.fed + 1 <= 0x7FFF_FFFF_FFFF_FFFF,
                self.n <= 0xFFFF_FFFF_FFFF_FFFF,
        ;
        let power = self.field.pow(self.r, coordinate);
        if value {
            self.l = self.l + 1;
            self.z = self.z + coordinate as i128;
            self.p = self.field.add(self.p, power);
        } else {
            self.l = self.l - 1;
            self.z = self.z - coordinate as i128;
            let minus = self.field.neg(power);
            proof {
                lemma_add_mod_noop_right(before.p@, -power@, order);
            }
            self.p = self.field.add(self.p, minus);
        }
        self.fed = self.fed + 1;
        proof {
            let want = before@.step(coordinate, value);
            let w = weight(value);
            assert(w * coordinate == if value {
                coordinate as int
            } else {
                -(coordinate as int)
            }) by (nonlinear_arith)
                requires
                    w == 1 && value || w == -1 && !value,
            ;
            assert(w * power@ == if value {
                power@
            } else {
                -power@
            }) by (nonlinear_arith)
                requires
                    w == 1 && value || w == -1 && !value,
            ;
            assert(self@.l == want.l);
            assert(self@.z == want.z);
            assert(self@.p == want.p);
        }
    }

    /// Query a `OneSparseRecovery` DS. using the mathematical proof from [lecture notes](https://www.cs.dartmouth.edu/~ac/Teach/CS35-Spring20/Notes/lecnotes.pdf#page=41&zoom=100,96,854)
    /// we know that provided the values of our fingerprints we will reach either guaranteed not-one-sparse or very likely one-sparse
    ///
    /// This outputs a false positive with probability: O(1/n^2)
    pub fn query(self) -> (out: OneSparseRecoveryOutput)
        requires
            self.wf(),
        ensures
            out == self@.answer(),
    {
        self.peek()
    }

    /// What a query would answer, with the sketch left in place.
    pub fn peek(&self) -> (out: OneSparseRecoveryOutput)
        requires
            self.wf(),
        ensures
            out == self@.answer(),
    {
        let l = self.l;
        let z = self.z;
        let ghost fp = self@;
        if self.p.0 == 0 && z == 0 && l == 0 {
            return OneSparseRecoveryOutput::Zero;
        }
        if l == 0 {
            return OneSparseRecoveryOutput::NotOneSparse;
        }
        assert(self.fed * self.n <= 0x7FFF_FFFF_FFFF_FFFF * 0xFFFF_FFFF_FFFF_FFFF)
            by (nonlinear_arith)
            requires
                self.fed <= 0x7FFF_FFFF_FFFF_FFFF,
                self.n <= 0xFFFF_FFFF_FFFF_FFFF,
        ;
        let z_size: u128 = if z < 0 {
            (-z) as u128
        } else {
            z as u128
        };
        let l_size: u128 = if l < 0 {
            (-(l as i128)) as u128
        } else {
            l as u128
        };
        proof {
            assert forall|k: int| fp.fits(k) implies {
                &&& z_size == l_size * k
                &&& (z != 0 ==> (z < 0 <==> l < 0))
            } by {
                lemma_quotient(l as int, z as int, k);
            }
        }
        if z != 0 && ((z < 0) != (l < 0)) {
            return OneSparseRecoveryOutput::NotOneSparse;
        }
        if z_size % l_size != 0 {
            proof {
                assert forall|k: int| !fp.fits(k) by {
                    if fp.fits(k) {
                        lemma_fundamental_div_mod_converse_mod(
                            z_size as int,
                            l_size as int,
                            k,
                            0,
                        );
                    }
                }
            }
            return OneSparseRecoveryOutput::NotOneSparse;
        }
        let index: u128 = z_size / l_size;
        proof {
            lemma_fundamental_div_mod(z_size as int, l_size as int);
            lemma_mul_is_commutative(l_size as int, index as int);
            lemma_quotient(l as int, l as int * index as int, index as int);
            assert(z == l * index) by {
                if z < 0 {
                    assert(z_size == -z);
                } else {
                    assert(z_size == z);
                }
                assert(l * index == l_size * index || l * index == -(l_size * index))
                    by (nonlinear_arith)
                    requires
                        l_size == l || l_size == -l,
                ;
                lemma_quotient(l as int, l as int * index as int, index as int);
            }
        }
        if index >= self.n as u128 {
            proof {
                assert forall|k: int| !fp.fits(k) by {
                    if fp.fits(k) {
                        assert(l * k == l * index ==> k == index) by (nonlinear_arith)
                            requires
                                l != 0,
                        ;
                    }
                }
            }
            return OneSparseRecoveryOutput::NotOneSparse;
        }
        let expected = self.field.mul(self.field.mod_p_i64(l), self.field.pow(self.r, index as u64));
        if self.p.0 == expected.0 {
            proof {
                assert(fp.fits(index as int));
                let k = choose|k: int| fp.fits(k);
                lemma_fits_once(fp, index as int, k);
            }
            OneSparseRecoveryOutput::VeryLikely(l, index as u64)
        } else {
            proof {
                assert forall|k: int| !fp.fits(k) by {
                    if fp.fits(k) {
                        assert(l * k == l * index ==> k == index) by (nonlinear_arith)
                            requires
                                l != 0,
                        ;
                    }
                }
            }
            OneSparseRecoveryOutput::NotOneSparse
        }
    }
}

/// The weight that a stream leaves at the coordinate `j`: its insertions of
/// `j` less its deletions of `j`.
pub open spec fn net_weight(stream: Seq<(u64, bool)>, j: u64) -> int
    decreases stream.len(),
{
    if stream.len() == 0 {
        0
    } else {
        net_weight(stream.drop_last(), j) + if stream.last().0 == j {
            weight(stream.last().1)
        } else {
            0
        }
    }
}

/// Whether every token of the stream has a coordinate below `n`.
pub open spec fn in_domain(stream: Seq<(u64, bool)>, n: nat) -> bool {
    forall|k: int| 0 <= k < stream.len() ==> (#[trigger] stream[k]).0 < n
}

/// What a unit of weight at the coordinate `j` adds to a part of the
/// fingerprint: 1 to `l`, `j` to `z`, and `r^j` to `p`.
spec fn share(part: int, r: int, order: int, j: u64) -> int {
    if part == 0 {
        1
    } else if part == 1 {
        j as int
    } else {
        pow_mod(r, j as nat, order)
    }
}

/// A part of the fingerprint, summed token by token.
spec fn token_sum(stream: Seq<(u64, bool)>, part: int, r: int, order: int) -> int
    decreases stream.len(),
{
    if stream.len() == 0 {
        0
    } else {
        token_sum(stream.drop_last(), part, r, order) + weight(stream.last().1) * share(
            part,
            r,
            order,
            stream.last().0,
        )
    }
}

/// A part of the fingerprint, summed coordinate by coordinate over the
/// coordinates below `n`.
spec fn coordinate_sum(stream: Seq<(u64, bool)>, n: nat, part: int, r: int, order: int) -> int
    decreases n,
{
    if n == 0 {
        0
    } else {
        let j = (n - 1) as u64;
        coordinate_sum(stream, (n - 1) as nat, part, r, order) + net_weight(stream, j) * share(
            part,
            r,
            order,
            j,
        )
    }
}

proof fn lemma_coordinate_sum_step(stream: Seq<(u64, bool)>, n: nat, part: int, r: int, order: int)
    requires
        stream.len() > 0,
        n <= 0x1_0000_0000_0000_0000,
    ensures
        coordinate_sum(stream, n, part, r, order) == coordinate_sum(
            stream.drop_last(),
            n,
            part,
            r,
            order,
        ) + if stream.last().0 < n {
            weight(stream.last().1) * share(part, r, order, stream.last().0)
        } else {
            0
        },
    decreases n,
{
    if n > 0 {
        let j = (n - 1) as u64;
        lemma_coordinate_sum_step(stream, (n - 1) as nat, part, r, order);
        let before = net_weight(stream.drop_last(), j);
        let w = weight(stream.last().1);
        let sh = share(part, r, order, j);
        if stream.last().0 == j {
            assert((before + w) * sh == before * sh + w * sh) by (nonlinear_arith);
        }
    }
}

proof fn lemma_token_sum_by_coordinate(
    stream: Seq<(u64, bool)>,
    n: nat,
    part: int,
    r: int,
    order: int,
)
    requires
        in_domain(stream, n),
        n <= 0x1_0000_0000_0000_0000,
    ensures
        token_sum(stream, part, r, order) == coordinate_sum(stream, n, part, r, order),
    decreases stream.len(),
{
    if stream.len() == 0 {
        lemma_coordinate_sum_of_one(stream, n, 0, part, r, order);
    } else {
        assert(stream.last() == stream[stream.len() - 1]);
        assert forall|k: int| 0 <= k < stream.drop_last().len() implies (
        #[trigger] stream.drop_last()[k]).0 < n by {
            assert(stream.drop_last()[k] == stream[k]);
        }
        lemma_token_sum_by_coordinate(stream.drop_last(), n, part, r, order);
        lemma_coordinate_sum_step(stream, n, part, r, order);
    }
}

/// Where all coordinates below `n` but `i` have weight zero, the sum over
/// the coordinates is the share of `i`.
proof fn lemma_coordinate_sum_of_one(
    stream: Seq<(u64, bool)>,
    n: nat,
    i: u64,
    part: int,
    r: int,
    order: int,
)
    requires
        n <= 0x1_0000_0000_0000_0000,
        forall|j: u64| j < n && j != i ==> net_weight(stream, j) == 0,
    ensures
        coordinate_sum(stream, n, part, r, order) == if i < n {
            net_weight(stream, i) * share(part, r, order, i)
        } else {
            0
        },
    decreases n,
{
    if n > 0 {
        lemma_coordinate_sum_of_one(stream, (n - 1) as nat, i, part, r, order);
        let j = (n - 1) as u64;
        if j != i {
            assert(net_weight(stream, j) == 0);
            assert(0 * share(part, r, order, j) == 0) by (nonlinear_arith);
        }
    }
}

proof fn lemma_fingerprint_sums(start: Fingerprint, stream: Seq<(u64, bool)>)
    requires
        start.l == 0,
        start.z == 0,
        start.p == 0,
        start.order >= 2,
    ensures
        start.after(stream).l == token_sum(stream, 0, start.r, start.order),
        start.after(stream).z == token_sum(stream, 1, start.r, start.order),
        start.after(stream).p == token_sum(stream, 2, start.r, start.order) % start.order,
        start.after(stream).r == start.r,
        start.after(stream).n == start.n,
        start.after(stream).order == start.order,
    decreases stream.len(),
{
    if stream.len() == 0 {
        lemma_small_mod(0, start.order as nat);
    } else {
        lemma_fingerprint_sums(start, stream.drop_last());
        let w = weight(stream.last().1);
        let j = stream.last().0;
        assert(w * 1 == w) by (nonlinear_arith);
        lemma_add_mod_noop(
            token_sum(stream.drop_last(), 2, start.r, start.order),
            w * pow_mod(start.r, j as nat, start.order),
            start.order,
        );
        lemma_mod_twice(w * pow_mod(start.r, j as nat, start.order), start.order);
        lemma_add_mod_noop(
            start.after(stream.drop_last()).p,
            w * pow_mod(start.r, j as nat, start.order),
            start.order,
        );
        lemma_mod_twice(token_sum(stream.drop_last(), 2, start.r, start.order), start.order);
    }
}

/// A coordinate's weight is no larger than the stream is long.
pub proof fn lemma_net_weight_bound(stream: Seq<(u64, bool)>, j: u64)
    ensures
        -stream.len() <= net_weight(stream, j) <= stream.len(),
    decreases stream.len(),
{
    if stream.len() > 0 {
        lemma_net_weight_bound(stream.drop_last(), j);
    }
}

/// A stream that leaves the zero vector is answered with `Zero`, whatever
/// the base and the field.
pub proof fn lemma_zero_vector_is_recognised(
    n: nat,
    order: int,
    r: int,
    stream: Seq<(u64, bool)>,
)
    requires
        order >= 2,
        n <= 0x1_0000_0000_0000_0000,
        in_domain(stream, n),
        forall|j: u64| net_weight(stream, j) == 0,
    ensures
        Fingerprint::empty(n, order, r).after(stream).answer() == OneSparseRecoveryOutput::Zero,
{
    let start = Fingerprint::empty(n, order, r);
    lemma_fingerprint_sums(start, stream);
    lemma_token_sum_by_coordinate(stream, n, 0, r, order);
    lemma_token_sum_by_coordinate(stream, n, 1, r, order);
    lemma_token_sum_by_coordinate(stream, n, 2, r, order);
    lemma_coordinate_sum_of_one(stream, n, 0, 0, r, order);
    lemma_coordinate_sum_of_one(stream, n, 0, 1, r, order);
    lemma_coordinate_sum_of_one(stream, n, 0, 2, r, order);
    assert(0 * share(0, r, order, 0) == 0) by (nonlinear_arith);
    assert(0 * share(1, r, order, 0) == 0) by (nonlinear_arith);
    assert(0 * share(2, r, order, 0) == 0) by (nonlinear_arith);
    lemma_small_mod(0, order as nat);
}

/// A stream that leaves the weight `m`, other than zero, at the one
/// coordinate `i` and zero elsewhere is answered with `VeryLikely(m, i)`,
/// whatever the base and the field.
pub proof fn lemma_one_sparse_is_recovered(
    n: nat,
    order: int,
    r: int,
    stream: Seq<(u64, bool)>,
    i: u64,
    m: int,
)
    requires
        order >= 2,
        n <= 0x1_0000_0000_0000_0000,
        stream.len() <= STREAM_LIMIT,
        in_domain(stream, n),
        i < n,
        m != 0,
        net_weight(stream, i) == m,
        forall|j: u64| j != i ==> net_weight(stream, j) == 0,
    ensures
        Fingerprint::empty(n, order, r).after(stream).answer()
            == OneSparseRecoveryOutput::VeryLikely(m as i64, i),
        i64::MIN <= m <= i64::MAX,
{
    let start = Fingerprint::empty(n, order, r);
    let fp = start.after(stream);
    lemma_fingerprint_sums(start, stream);
    lemma_token_sum_by_coordinate(stream, n, 0, r, order);
    lemma_token_sum_by_coordinate(stream, n, 1, r, order);
    lemma_token_sum_by_coordinate(stream, n, 2, r, order);
    lemma_coordinate_sum_of_one(stream, n, i, 0, r, order);
    lemma_coordinate_sum_of_one(stream, n, i, 1, r, order);
    lemma_coordinate_sum_of_one(stream, n, i, 2, r, order);
    lemma_net_weight_bound(stream, i);
    assert(m * 1 == m) by (nonlinear_arith);
    assert(fp.l == m);
    assert(fp.z == m * i);
    lemma_mul_mod_noop_left(m, pow_mod(r, i as nat, order), order);
    assert(fp.fits(i as int));
    let k = choose|k: int| fp.fits(k);
    lemma_fits_once(fp, i as int, k);
}

} // verus!
