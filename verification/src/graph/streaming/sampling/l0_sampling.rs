//! L0 Sampling

use vstd::prelude::*;

use crate::error::ParameterError;
use crate::graph::streaming::sparse_recovery::one_sparse::{
    Fingerprint, OneSparseRecovery, OneSparseRecoveryOutput, MAX_DOMAIN, STREAM_LIMIT,
};
use crate::graph::streaming::sparse_recovery::s_sparse::{ceil_power_of_two, next_power_of_two};
use crate::utils::finite_field::bit_length;
use crate::utils::hash_function::HashFunction;

verus! {

/// The logarithm to base two of a number, rounded up.
///
/// Calls `algebraics::traits::CeilLog2::ceil_log2` on a `u64`. The crate
/// gives `None` for zero, and for any other number 64 less the leading zeros
/// of its predecessor, which is the predecessor's number of significant bits.
#[verifier::external_body]
fn ceil_log2(x: u64) -> (log: Option<usize>)
    ensures
        x == 0 ==> log is None,
        x > 0 ==> log == Some(bit_length((x - 1) as u64) as usize),
{
    algebraics::traits::CeilLog2::ceil_log2(&x)
}

/// A sampler of a coordinate of the vector that a stream leaves: one
/// sketch for each level, and a hash function that lets a coordinate into
/// the level where it hashes to zero.
pub struct L0Sampler<H> where H: HashFunction {
    inner: Vec<(OneSparseRecovery, H)>,
    /// The number of tokens fed
    fed: u64,
}

/// The number of levels of a sampler over `n` coordinates: the logarithm
/// to base two of `n`, rounded up.
pub open spec fn levels_for(n: u64) -> nat {
    if n <= 1 {
        0
    } else {
        bit_length((ceil_power_of_two(n) - 1) as u64)
    }
}

/// Whether a sketch answers with a coordinate.
pub open spec fn finds(fp: Fingerprint) -> bool {
    fp.answer() is VeryLikely
}

/// The coordinate and the weight that the first of the levels from `from`
/// on that finds a coordinate answers with, if one does.
pub open spec fn first_found(levels: Seq<Fingerprint>, from: int) -> Option<(u64, i64)>
    decreases levels.len() - from,
{
    if from < 0 || from >= levels.len() {
        None
    } else {
        match levels[from].answer() {
            OneSparseRecoveryOutput::VeryLikely(lambda, i) => Some((i, lambda)),
            _ => first_found(levels, from + 1),
        }
    }
}

impl<H> L0Sampler<H> where H: HashFunction {
    /// The fingerprints of the levels.
    pub closed spec fn levels(&self) -> Seq<Fingerprint> {
        Seq::new(self.inner@.len(), |l: int| self.inner@[l].0@)
    }

    /// The hash functions of the levels.
    pub closed spec fn hashers(&self) -> Seq<H> {
        Seq::new(self.inner@.len(), |l: int| self.inner@[l].1)
    }

    /// The number of tokens fed.
    pub closed spec fn tokens(&self) -> nat {
        self.fed as nat
    }

    /// Each level has a sketch and a hash function that are well formed, and
    /// no sketch has been fed more tokens than the sampler.
    pub closed spec fn wf(&self) -> bool {
        &&& self.fed <= STREAM_LIMIT
        &&& forall|l: int|
            0 <= l < self.inner@.len() ==> {
                &&& (#[trigger] self.inner@[l]).0.wf()
                &&& self.inner@[l].0.tokens() <= self.fed
                &&& self.inner@[l].1.wf()
            }
    }

    /// A sampler over the coordinates below `n`, rounded up to a power of
    /// two. The level `l` has a hash function to the numbers below `2^l`.
    pub fn init(n: u64) -> (made: Result<Self, ParameterError>)
        requires
            0 < n <= MAX_DOMAIN ==> forall|l: u64|
                l < 64 ==> H::can_init(ceil_power_of_two(n), #[trigger] (1u64 << l)),
        ensures
            n == 0 ==> made == Err::<Self, ParameterError>(ParameterError::EmptyDomain),
            n > MAX_DOMAIN ==> made == Err::<Self, ParameterError>(ParameterError::DomainTooLarge),
            0 < n <= MAX_DOMAIN ==> (made matches Err(e) ==> e == ParameterError::NoPrime),
            made matches Ok(made) ==> {
                &&& 0 < n <= MAX_DOMAIN
                &&& made.wf()
                &&& made.tokens() == 0
                &&& made.levels().len() == levels_for(n)
                &&& made.hashers().len() == levels_for(n)
                &&& forall|l: int|
                    0 <= l < made.levels().len() ==> {
                        let fp = #[trigger] made.levels()[l];
                        &&& fp == Fingerprint::empty(ceil_power_of_two(n) as nat, fp.order, fp.r)
                        &&& made.hashers()[l].range() == 1u64 << (l as u64)
                    }
            },
    {
        if n == 0 {
            return Err(ParameterError::EmptyDomain);
        }
        if n > MAX_DOMAIN {
            return Err(ParameterError::DomainTooLarge);
        }
        let mut inner: Vec<(OneSparseRecovery, H)> = Vec::new();
        let n_pow = next_power_of_two(n);
        proof {
            assert(n_pow <= 0x20_0000) by (bit_vector)
                requires
                    n > 1 ==> n_pow < 2 * n,
                    n <= 1 ==> n_pow == 1,
                    n <= 0x20_0000,
                    exists|k: u64| k < 64 && n_pow == 1u64 << k,
            ;
        }
        let top: usize = match ceil_log2(n_pow) {
            Some(top) => top,
            None => 0,
        };
        let ghost last = (n_pow - 1) as u64;
        proof {
            if n <= 1 {
                assert(bit_length(0) == 0);
            }
            crate::utils::finite_field::lemma_bit_length_bound(last);
        }
        let mut l: usize = 0;
        while l < top
            invariant
                l <= top <= 64,
                0 < n <= MAX_DOMAIN,
                0 < n_pow <= MAX_DOMAIN,
                n_pow == ceil_power_of_two(n),
                inner@.len() == l,
                forall|l: u64| l < 64 ==> H::can_init(ceil_power_of_two(n), #[trigger] (1u64 << l)),
                forall|k: int|
                    0 <= k < l ==> {
                        let fp = (#[trigger] inner@[k]).0@;
                        &&& inner@[k].0.wf()
                        &&& inner@[k].0.tokens() == 0
                        &&& inner@[k].1.wf()
                        &&& fp == Fingerprint::empty(n_pow as nat, fp.order, fp.r)
                        &&& inner@[k].1.range() == 1u64 << (k as u64)
                    },
            decreases top - l,
        {
            let recover = match OneSparseRecovery::init(n_pow) {
                Ok(recover) => recover,
                Err(e) => {
                    return Err(e);
                },
            };
            let hash_function = H::init(n_pow, 1u64 << (l as u64));
            inner.push((recover, hash_function));
            l = l + 1;
        }
        Ok(Self { inner, fed: 0 })
    }

    /// Feeds a token to the sketch of each level that lets its coordinate
    /// in.
    pub fn feed(&mut self, token: (u64, bool))
        requires
            old(self).wf(),
            forall|l: int|
                0 <= l < old(self).levels().len() ==> token.0 < (#[trigger] old(
                    self,
                ).levels()[l]).n,
            old(self).tokens() < STREAM_LIMIT,
        ensures
            final(self).wf(),
            final(self).tokens() == old(self).tokens() + 1,
            final(self).hashers() == old(self).hashers(),
            final(self).levels().len() == old(self).levels().len(),
            forall|l: int|
                0 <= l < old(self).levels().len() ==> #[trigger] final(self).levels()[l] == if old(
                    self,
                ).hashers()[l].hash(token.0) == 0 {
                    old(self).levels()[l].step(token.0, token.1)
                } else {
                    old(self).levels()[l]
                },
    {
        let (j, c) = token;
        let ghost before = *self;
        let mut l: usize = 0;
        while l < self.inner.len()
            invariant
                l <= self.inner@.len(),
                self.inner@.len() == before.inner@.len(),
                self.fed == before.fed,
                before.wf(),
                before.fed < STREAM_LIMIT,
                j == token.0,
                c == token.1,
                forall|k: int|
                    0 <= k < before.inner@.len() ==> token.0 < (#[trigger] before.levels()[k]).n,
                forall|k: int| l <= k < self.inner@.len() ==> #[trigger] self.inner@[k] == before.inner@[k],
                forall|k: int|
                    0 <= k < l ==> {
                        &&& (#[trigger] self.inner@[k]).0.wf()
                        &&& self.inner@[k].0.tokens() <= before.fed + 1
                        &&& self.inner@[k].1 == before.inner@[k].1
                        &&& self.inner@[k].0@ == if before.inner@[k].1.hash(token.0) == 0 {
                            before.inner@[k].0@.step(token.0, token.1)
                        } else {
                            before.inner@[k].0@
                        }
                    },
            decreases self.inner@.len() - l,
        {
            assert(before.levels()[l as int] == before.inner@[l as int].0@);
            if self.inner[l].1.is_zero(j) {
                self.inner[l].0.feed((j, c));
            }
            l = l + 1;
        }
        self.fed = self.fed + 1;
        proof {
            assert(self.hashers() =~= before.hashers());
        }
    }

    /// The first coordinate that a level finds, with its weight.
    pub fn query(self) -> (out: Option<(u64, i64)>)
        requires
            self.wf(),
        ensures
            out == first_found(self.levels(), 0),
    {
        let mut l: usize = 0;
        while l < self.inner.len()
            invariant
                l <= self.inner@.len(),
                self.wf(),
                first_found(self.levels(), 0) == first_found(self.levels(), l as int),
            decreases self.inner@.len() - l,
        {
            assert(self.levels()[l as int] == self.inner@[l as int].0@);
            match self.inner[l].0.peek() {
                OneSparseRecoveryOutput::VeryLikely(lambda, i) => {
                    return Some((i, lambda));
                },
                _ => {},
            }
            l = l + 1;
        }
        None
    }
}

/// The first level that finds a coordinate is the one that answers: no
/// level before it finds one.
pub proof fn lemma_first_found(levels: Seq<Fingerprint>, from: int)
    requires
        0 <= from <= levels.len(),
    ensures
        match first_found(levels, from) {
            Some((i, lambda)) => exists|l: int|
                from <= l < levels.len() && (#[trigger] levels[l]).answer()
                    == OneSparseRecoveryOutput::VeryLikely(lambda, i) && forall|k: int|
                    from <= k < l ==> !finds(#[trigger] levels[k]),
            None => forall|l: int| from <= l < levels.len() ==> !finds(#[trigger] levels[l]),
        },
    decreases levels.len() - from,
{
    if from < levels.len() {
        lemma_first_found(levels, from + 1);
        match levels[from].answer() {
            OneSparseRecoveryOutput::VeryLikely(lambda, i) => {
                assert(from <= from < levels.len() && levels[from].answer()
                    == OneSparseRecoveryOutput::VeryLikely(lambda, i));
            },
            _ => {
                match first_found(levels, from + 1) {
                    Some((i, lambda)) => {
                        let l = choose|l: int|
                            from + 1 <= l < levels.len() && (#[trigger] levels[l]).answer()
                                == OneSparseRecoveryOutput::VeryLikely(lambda, i) && forall|k: int|
                                from + 1 <= k < l ==> !finds(#[trigger] levels[k]);
                        assert(from <= l < levels.len() && levels[l].answer()
                            == OneSparseRecoveryOutput::VeryLikely(lambda, i) && forall|k: int|
                            from <= k < l ==> !finds(#[trigger] levels[k]));
                    },
                    None => {},
                }
            },
        }
    }
}

/// The coordinates that the first `upto` of the samplers find, in the order
/// of the samplers.
pub open spec fn found_by<H: HashFunction>(samplers: Seq<L0Sampler<H>>, upto: int) -> Seq<u64>
    decreases upto,
{
    if upto <= 0 {
        Seq::empty()
    } else {
        match first_found(samplers[upto - 1].levels(), 0) {
            Some((i, _)) => found_by(samplers, upto - 1).push(i),
            None => found_by(samplers, upto - 1),
        }
    }
}

/// Several samplers of one stream, each with hash functions of its own.
pub struct KSampler<H> where H: HashFunction {
    samplers: Vec<L0Sampler<H>>,
}

impl<H> KSampler<H> where H: HashFunction {
    /// The samplers.
    pub closed spec fn samplers(&self) -> Seq<L0Sampler<H>> {
        self.samplers@
    }

    /// The samplers are well formed.
    pub open spec fn wf(&self) -> bool {
        forall|i: int| 0 <= i < self.samplers().len() ==> (#[trigger] self.samplers()[i]).wf()
    }

    /// `k` samplers over the coordinates below `n`.
    pub fn init(n: u64, k: u64) -> (made: Result<Self, ParameterError>)
        requires
            0 < n <= MAX_DOMAIN ==> forall|l: u64|
                l < 64 ==> H::can_init(ceil_power_of_two(n), #[trigger] (1u64 << l)),
        ensures
            k > 0 && n == 0 ==> made == Err::<Self, ParameterError>(ParameterError::EmptyDomain),
            k > 0 && n > MAX_DOMAIN ==> made == Err::<Self, ParameterError>(
                ParameterError::DomainTooLarge,
            ),
            k > 0 && 0 < n <= MAX_DOMAIN ==> (made matches Err(e) ==> e == ParameterError::NoPrime),
            k == 0 ==> made is Ok,
            made matches Ok(made) ==> {
                &&& made.wf()
                &&& made.samplers().len() == k
                &&& forall|i: int|
                    0 <= i < made.samplers().len() ==> {
                        let sampler = #[trigger] made.samplers()[i];
                        &&& sampler.tokens() == 0
                        &&& sampler.levels().len() == levels_for(n)
                        &&& forall|l: int|
                            0 <= l < sampler.levels().len() ==> (#[trigger] sampler.levels()[l]).n
                                == ceil_power_of_two(n)
                    }
            },
    {
        let mut samplers: Vec<L0Sampler<H>> = Vec::new();
        let mut i: u64 = 0;
        while i < k
            invariant
                i <= k,
                samplers@.len() == i,
                i > 0 ==> 0 < n <= MAX_DOMAIN,
                0 < n <= MAX_DOMAIN ==> forall|l: u64|
                    l < 64 ==> H::can_init(ceil_power_of_two(n), #[trigger] (1u64 << l)),
                forall|j: int|
                    0 <= j < samplers@.len() ==> {
                        let sampler = #[trigger] samplers@[j];
                        &&& sampler.wf()
                        &&& sampler.tokens() == 0
                        &&& sampler.levels().len() == levels_for(n)
                        &&& forall|l: int|
                            0 <= l < sampler.levels().len() ==> (#[trigger] sampler.levels()[l]).n
                                == ceil_power_of_two(n)
                    },
            decreases k - i,
        {
            match L0Sampler::init(n) {
                Ok(sampler) => {
                    samplers.push(sampler);
                },
                Err(e) => {
                    return Err(e);
                },
            }
            i = i + 1;
        }
        Ok(Self { samplers })
    }

    /// Feeds a token to every sampler.
    pub fn feed(&mut self, token: (u64, bool))
        requires
            old(self).wf(),
            forall|i: int, l: int|
                0 <= i < old(self).samplers().len() && 0 <= l < old(self).samplers()[i].levels().len()
                    ==> token.0 < (#[trigger] old(self).samplers()[i].levels()[l]).n,
            forall|i: int|
                0 <= i < old(self).samplers().len() ==> (#[trigger] old(self).samplers()[i]).tokens()
                    < STREAM_LIMIT,
        ensures
            final(self).wf(),
            final(self).samplers().len() == old(self).samplers().len(),
            forall|i: int|
                0 <= i < old(self).samplers().len() ==> {
                    let before = old(self).samplers()[i];
                    let after = #[trigger] final(self).samplers()[i];
                    &&& after.tokens() == before.tokens() + 1
                    &&& after.hashers() == before.hashers()
                    &&& after.levels().len() == before.levels().len()
                    &&& forall|l: int|
                        0 <= l < before.levels().len() ==> #[trigger] after.levels()[l]
                            == if before.hashers()[l].hash(token.0) == 0 {
                            before.levels()[l].step(token.0, token.1)
                        } else {
                            before.levels()[l]
                        }
                },
    {
        let ghost before = self.samplers@;
        let mut i: usize = 0;
        while i < self.samplers.len()
            invariant
                i <= self.samplers@.len(),
                self.samplers@.len() == before.len(),
                forall|j: int| 0 <= j < before.len() ==> (#[trigger] before[j]).wf(),
                forall|j: int, l: int|
                    0 <= j < before.len() && 0 <= l < before[j].levels().len() ==> token.0 < (
                    #[trigger] before[j].levels()[l]).n,
                forall|j: int|
                    0 <= j < before.len() ==> (#[trigger] before[j]).tokens() < STREAM_LIMIT,
                forall|j: int| i <= j < before.len() ==> #[trigger] self.samplers@[j] == before[j],
                forall|j: int|
                    0 <= j < i ==> {
                        let after = #[trigger] self.samplers@[j];
                        &&& after.wf()
                        &&& after.tokens() == before[j].tokens() + 1
                        &&& after.hashers() == before[j].hashers()
                        &&& after.levels().len() == before[j].levels().len()
                        &&& forall|l: int|
                            0 <= l < before[j].levels().len() ==> #[trigger] after.levels()[l]
                                == if before[j].hashers()[l].hash(token.0) == 0 {
                                before[j].levels()[l].step(token.0, token.1)
                            } else {
                                before[j].levels()[l]
                            }
                    },
            decreases self.samplers@.len() - i,
        {
            self.samplers[i].feed(token);
            i = i + 1;
        }
    }

    /// The coordinates that the samplers find, in the order of the
    /// samplers: one for each sampler that finds one.
    pub fn query(self) -> (found: Vec<u64>)
        requires
            self.wf(),
        ensures
            found@ == found_by(self.samplers(), self.samplers().len() as int),
    {
        let mut samplers = self.samplers;
        let ghost all = samplers@;
        let mut rest: Vec<L0Sampler<H>> = Vec::new();
        while samplers.len() > 0
            invariant
                samplers@.len() <= all.len(),
                forall|i: int| 0 <= i < samplers@.len() ==> #[trigger] samplers@[i] == all[i],
                rest@.len() + samplers@.len() == all.len(),
                forall|i: int|
                    0 <= i < rest@.len() ==> #[trigger] rest@[i] == all[all.len() - 1 - i],
            decreases samplers@.len(),
        {
            let sampler = samplers.pop().unwrap();
            rest.push(sampler);
        }
        let mut found: Vec<u64> = Vec::new();
        while rest.len() > 0
            invariant
                all == self.samplers(),
                rest@.len() <= all.len(),
                forall|i: int| 0 <= i < all.len() ==> (#[trigger] all[i]).wf(),
                forall|i: int|
                    0 <= i < rest@.len() ==> #[trigger] rest@[i] == all[all.len() - 1 - i],
                found@ == found_by(all, all.len() - rest@.len()),
            decreases rest@.len(),
        {
            let ghost at = all.len() - rest@.len();
            let sampler = rest.pop().unwrap();
            assert(sampler == all[at]);
            match sampler.query() {
                Some((e, _)) => {
                    found.push(e);
                },
                None => {},
            }
        }
        found
    }
}

} // verus!
