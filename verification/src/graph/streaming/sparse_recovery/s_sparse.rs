//! Generalized `s`-Sparse Recovery

use std::collections::HashMap;
use vstd::arithmetic::power2::*;
use vstd::prelude::*;

use super::one_sparse::{
    find_prime, prime_bits, prime_bits_of, Fingerprint, OneSparseRecovery,
    OneSparseRecoveryOutput, MAX_DOMAIN, STREAM_LIMIT,
};
use crate::error::ParameterError;
use crate::graph::streaming::Query;
use crate::utils::collections::map_keys;
use crate::utils::finite_field::{bit_length, bits, lemma_bit_length_places};
use crate::utils::hash_function::{is_power_of_two, HashFunction};

verus! {

/// The least power of two that is no smaller than `x`.
pub open spec fn ceil_power_of_two(x: u64) -> u64 {
    if x <= 1 {
        1
    } else {
        1u64 << (bit_length((x - 1) as u64) as u64)
    }
}

/// The least power of two that is no smaller than `x`.
pub fn next_power_of_two(x: u64) -> (p: u64)
    requires
        x <= 0x8000_0000_0000_0000,
    ensures
        p == ceil_power_of_two(x),
        is_power_of_two(p),
        x <= p,
        x > 1 ==> p < 2 * x,
{
    if x <= 1 {
        assert(1u64 == 1u64 << 0) by (bit_vector);
        return 1;
    }
    let last: u64 = x - 1;
    let b = bits(&last);
    assert(1 <= b <= 63 && last < 1u64 << b && (1u64 << b) <= 2 * last) by (bit_vector)
        requires
            1 <= last < 0x8000_0000_0000_0000,
            b <= 64,
            b < 64 ==> last >> b == 0,
            b > 0 ==> (last >> ((b - 1) as u64)) & 1 == 1,
    ;
    1u64 << b
}

/// Rounding up to a power of two gives a power of two that is no smaller
/// than the number and smaller than twice the number.
pub proof fn lemma_ceil_power_of_two(x: u64)
    requires
        x <= 0x8000_0000_0000_0000,
    ensures
        is_power_of_two(ceil_power_of_two(x)),
        x <= ceil_power_of_two(x),
        x > 1 ==> ceil_power_of_two(x) < 2 * x,
{
    if x <= 1 {
        assert(1u64 == 1u64 << 0) by (bit_vector);
    } else {
        let last = (x - 1) as u64;
        let b = bit_length(last) as u64;
        lemma_bit_length_places(last);
        assert(1 <= b <= 63 && last < 1u64 << b && (1u64 << b) <= 2 * last) by (bit_vector)
            requires
                1 <= last < 0x8000_0000_0000_0000,
                b <= 64,
                b < 64 ==> last >> b == 0,
                b > 0 ==> (last >> ((b - 1) as u64)) & 1 == 1,
        ;
    }
}

/// Whether `t` rows are enough for the sparsity `s` and the failure
/// probability `num / den`: whether `2^t >= s / (num / den)`.
pub open spec fn enough_rows(t: nat, s: u64, num: u64, den: u64) -> bool {
    num * pow2(t) >= s * den
}

/// The least number of rows that is enough: the logarithm to base two of
/// `s / (num / den)`, rounded up, and zero where that is negative.
pub fn rows_for(s: u64, num: u64, den: u64) -> (t: u64)
    requires
        0 < num,
    ensures
        enough_rows(t as nat, s, num, den),
        t > 0 ==> !enough_rows((t - 1) as nat, s, num, den),
        t <= 128,
{
    assert(s * den <= 0xFFFF_FFFF_FFFF_FFFF * 0xFFFF_FFFF_FFFF_FFFF) by (nonlinear_arith);
    let target: u128 = (s as u128) * (den as u128);
    let mut reach: u128 = num as u128;
    let mut t: u64 = 0;
    proof {
        lemma2_to64();
    }
    while reach < target
        invariant
            reach == num * pow2(t as nat),
            target == s * den,
            0 < num,
            reach >= 1,
            t > 0 ==> !enough_rows((t - 1) as nat, s, num, den),
            t <= 127,
            pow2(t as nat) <= reach,
        decreases 128 - t,
    {
        proof {
            lemma_pow2_unfold((t + 1) as nat);
            assert(num * (2 * pow2(t as nat)) == 2 * (num * pow2(t as nat))) by (nonlinear_arith);
            assert(pow2(t as nat) <= num * pow2(t as nat)) by (nonlinear_arith)
                requires
                    0 < num,
            ;
            if t == 127 {
                lemma2_to64_rest();
                lemma_pow2_adds(64, 63);
            }
        }
        if reach >= 0x8000_0000_0000_0000_0000_0000_0000_0000 {
            return t + 1;
        }
        reach = reach * 2;
        t = t + 1;
    }
    t
}

/// `S`-Sparse Recovery Data Structure
///
/// Algorithm for recovery and detection is based off of [Algorithm 15](https://www.cs.dartmouth.edu/~ac/Teach/CS35-Spring20/Notes/lecnotes.pdf)
///
/// Storage: O(tlog(t) + tlog(n))
pub struct SparseRecovery<F: HashFunction> {
    /// The domain of the sparse recover structure
    n: u64,
    /// Sparsity Parameter
    ///
    /// Constant Space
    s: u64,
    /// The Sparse Recovery Data Structures
    ///
    /// Stores O(2st) = O(slog(s/del))
    structures: Vec<HashMap<u64, OneSparseRecovery>>,
    /// Hash Functions for hashing to the Sparse recovery systems
    /// Store O(t * HF bits)
    functions: Vec<F>,
    /// One sparse recovery order calculation,
    // this helps speed up finding a prime number for the OneSparseRecover finite field
    order: u64,
    /// The number of tokens fed
    fed: u64,
}

/// The cells of a row after a token: the cell at `bucket` has taken the
/// token, a new one if the row had none there, and the others are as they
/// were.
pub open spec fn row_fed(
    before: Map<u64, Fingerprint>,
    after: Map<u64, Fingerprint>,
    bucket: u64,
    token: (u64, bool),
    n: nat,
    order: int,
) -> bool {
    &&& after.dom() == before.dom().insert(bucket)
    &&& forall|b: u64| b != bucket && before.contains_key(b) ==> after[b] == before[b]
    &&& if before.contains_key(bucket) {
        after[bucket] == before[bucket].step(token.0, token.1)
    } else {
        exists|r: int|
            0 <= r < order && after[bucket] == (#[trigger] Fingerprint::empty(n, order, r)).step(
                token.0,
                token.1,
            )
    }
}

/// Whether `after` is `before` fed one token: each row's cell at the
/// bucket of the token's coordinate has taken the token, and all else is as
/// it was.
pub open spec fn fed_with<F: HashFunction>(
    before: SparseRecovery<F>,
    after: SparseRecovery<F>,
    token: (u64, bool),
) -> bool {
    &&& after.domain() == before.domain()
    &&& after.sparsity() == before.sparsity()
    &&& after.order() == before.order()
    &&& after.hashers() == before.hashers()
    &&& after.tokens() == before.tokens() + 1
    &&& after.grid().len() == before.grid().len()
    &&& forall|row: int|
        0 <= row < before.grid().len() ==> row_fed(
            before.grid()[row],
            #[trigger] after.grid()[row],
            before.hashers()[row].hash(token.0),
            token,
            before.domain() as nat,
            before.order() as int,
        )
}

/// The fingerprints of the cells of a row.
pub open spec fn row_view(row: Map<u64, OneSparseRecovery>) -> Map<u64, Fingerprint> {
    Map::new(|b: u64| row.contains_key(b), |b: u64| row[b]@)
}

/// Whether every cell of a row is a sketch over `n` coordinates in the
/// field of `order` elements that has been fed `fed` tokens at most.
spec fn row_wf(row: Map<u64, OneSparseRecovery>, n: u64, order: u64, fed: nat) -> bool {
    forall|b: u64| #[trigger]
        row.contains_key(b) ==> {
            let cell = row[b];
            &&& cell.wf()
            &&& cell@.n == n
            &&& cell@.order == order
            &&& cell.tokens() <= fed
        }
}

/// Feeds a token to the cell of a row at `bucket`, which is made if the row
/// has none there.
fn feed_row(
    row: &mut HashMap<u64, OneSparseRecovery>,
    bucket: u64,
    token: (u64, bool),
    n: u64,
    order: u64,
    fed: Ghost<nat>,
)
    requires
        row_wf(old(row)@, n, order, fed@),
        fed@ < STREAM_LIMIT,
        token.0 < n,
        order >= 2,
    ensures
        row_wf(final(row)@, n, order, fed@ + 1),
        row_fed(row_view(old(row)@), row_view(final(row)@), bucket, token, n as nat, order as int),
{
    broadcast use vstd::std_specs::hash::group_hash_axioms;

    let ghost before = row@;
    let mut cell = match row.remove(&bucket) {
        Some(cell) => cell,
        None => OneSparseRecovery::init_with_order(n, order),
    };
    let ghost start = cell@;
    cell.feed(token);
    row.insert(bucket, cell);
    proof {
        assert(row@ == before.remove(bucket).insert(bucket, cell));
        assert(row_view(row@).dom() =~= row_view(before).dom().insert(bucket));
        if !before.contains_key(bucket) {
            assert(start == Fingerprint::empty(n as nat, order as int, start.r));
        }
    }
}

/// Whether the cell at `bucket` of the row `row` answers that the
/// coordinate `i` is very likely to have the weight `lambda`.
pub open spec fn reports(
    grid: Seq<Map<u64, Fingerprint>>,
    row: int,
    bucket: u64,
    lambda: i64,
    i: u64,
) -> bool {
    &&& 0 <= row < grid.len()
    &&& grid[row].contains_key(bucket)
    &&& grid[row][bucket].answer() == OneSparseRecoveryOutput::VeryLikely(lambda, i)
}

/// Whether some cell answers that `i` is very likely to have the weight
/// `lambda`.
pub open spec fn reported(grid: Seq<Map<u64, Fingerprint>>, lambda: i64, i: u64) -> bool {
    exists|row: int, bucket: u64| reports(grid, row, bucket, lambda, i)
}

/// Whether two cells give one coordinate different weights.
pub open spec fn conflicting(grid: Seq<Map<u64, Fingerprint>>) -> bool {
    exists|i: u64, a: i64, b: i64|
        a != b && #[trigger] reported(grid, a, i) && #[trigger] reported(grid, b, i)
}

/// Whether the cells report more than `s` coordinates.
pub open spec fn saturated(grid: Seq<Map<u64, Fingerprint>>, s: u64) -> bool {
    exists|d: Set<u64>|
        #![trigger d.finite()]
        d.finite() && d.len() > s && forall|i: u64|
            d.contains(i) ==> exists|lambda: i64| reported(grid, lambda, i)
}

/// Whether no cell reports a coordinate.
pub open spec fn silent(grid: Seq<Map<u64, Fingerprint>>) -> bool {
    forall|lambda: i64, i: u64| !reported(grid, lambda, i)
}

/// Whether each entry of the map is reported by a cell.
spec fn sound(grid: Seq<Map<u64, Fingerprint>>, found: Map<u64, i64>) -> bool {
    forall|i: u64| #[trigger] found.contains_key(i) ==> reported(grid, found[i], i)
}

/// Whether the map holds what the cells of the rows before `rows` report.
spec fn complete(grid: Seq<Map<u64, Fingerprint>>, found: Map<u64, i64>, rows: int) -> bool {
    forall|row: int, bucket: u64, lambda: i64, i: u64| #[trigger]
        reports(grid, row, bucket, lambda, i) && row < rows ==> found.contains_key(i) && found[i]
            == lambda
}

/// Adds what the cells of one row report to the map. Gives `false` where a
/// cell contradicts the map, or the map grows beyond `s` entries.
fn sweep_row(
    cells: &HashMap<u64, OneSparseRecovery>,
    found: &mut HashMap<u64, i64>,
    s: u64,
    grid: Ghost<Seq<Map<u64, Fingerprint>>>,
    row: Ghost<int>,
    n: Ghost<u64>,
    order: Ghost<u64>,
    fed: Ghost<nat>,
) -> (ok: bool)
    requires
        0 <= row@ < grid@.len(),
        grid@[row@] == row_view(cells@),
        row_wf(cells@, n@, order@, fed@),
        sound(grid@, old(found)@),
        complete(grid@, old(found)@, row@),
        old(found)@.len() <= s,
    ensures
        ok ==> sound(grid@, final(found)@),
        ok ==> complete(grid@, final(found)@, row@ + 1),
        ok ==> final(found)@.len() <= s,
        !ok ==> conflicting(grid@) || saturated(grid@, s),
{
    broadcast use vstd::std_specs::hash::group_hash_axioms;

    let keys = map_keys(cells);
    let mut at: usize = 0;
    while at < keys.len()
        invariant
            at <= keys@.len(),
            keys@.to_set() == cells@.dom(),
            0 <= row@ < grid@.len(),
            grid@[row@] == row_view(cells@),
            row_wf(cells@, n@, order@, fed@),
            sound(grid@, found@),
            complete(grid@, found@, row@),
            found@.len() <= s,
            forall|k: int, lambda: i64, i: u64|
                0 <= k < at && #[trigger] reports(grid@, row@, keys@[k], lambda, i)
                    ==> found@.contains_key(i) && found@[i] == lambda,
        decreases keys@.len() - at,
    {
        let bucket = keys[at];
        assert(keys@.to_set().contains(keys@[at as int]));
        let cell = cells.get(&bucket).unwrap();
        let ghost before = found@;
        match cell.peek() {
            OneSparseRecoveryOutput::VeryLikely(lambda, i) => {
                assert(reports(grid@, row@, bucket, lambda, i));
                match found.get(&i) {
                    Some(other) => {
                        if *other != lambda {
                            assert(reported(grid@, *other, i));
                            assert(reported(grid@, lambda, i));
                            return false;
                        }
                    },
                    None => {},
                }
                found.insert(i, lambda);
                assert(sound(grid@, found@)) by {
                    assert forall|k: u64| #[trigger] found@.contains_key(k) implies reported(
                        grid@,
                        found@[k],
                        k,
                    ) by {
                        if k != i {
                            assert(before.contains_key(k));
                        }
                    }
                }
                if found.len() as u64 > s {
                    assert(saturated(grid@, s)) by {
                        let d = found@.dom();
                        assert(d.finite());
                        assert forall|k: u64| d.contains(k) implies exists|lambda: i64|
                            reported(grid@, lambda, k) by {
                            assert(found@.contains_key(k));
                            assert(reported(grid@, found@[k], k));
                        }
                    }
                    return false;
                }
            },
            _ => {},
        }
        at = at + 1;
    }
    proof {
        assert forall|r: int, bucket: u64, lambda: i64, i: u64| #[trigger]
            reports(grid@, r, bucket, lambda, i) && r < row@ + 1 implies found@.contains_key(i)
            && found@[i] == lambda by {
            if r == row@ {
                assert(cells@.dom().contains(bucket));
                assert(keys@.to_set().contains(bucket));
                let k = choose|k: int| 0 <= k < keys@.len() && keys@[k] == bucket;
                assert(reports(grid@, row@, keys@[k], lambda, i));
            }
        }
    }
    true
}

impl<F: HashFunction> SparseRecovery<F> {
    /// The size of the domain.
    pub closed spec fn domain(&self) -> u64 {
        self.n
    }

    /// The sparsity that the structure recovers.
    pub closed spec fn sparsity(&self) -> u64 {
        self.s
    }

    /// The size of the field that the cells work in.
    pub closed spec fn order(&self) -> u64 {
        self.order
    }

    /// The number of tokens fed.
    pub closed spec fn tokens(&self) -> nat {
        self.fed as nat
    }

    /// The hash functions, one for each row.
    pub closed spec fn hashers(&self) -> Seq<F> {
        self.functions@
    }

    /// The cells of each row, by their bucket.
    pub closed spec fn grid(&self) -> Seq<Map<u64, Fingerprint>> {
        Seq::new(self.structures@.len(), |row: int| row_view(self.structures@[row]@))
    }

    /// Each row has its hash function, and each cell is a sketch over the
    /// structure's domain and field that has been fed no more tokens than
    /// the structure.
    pub closed spec fn wf(&self) -> bool {
        &&& self.structures@.len() == self.functions@.len()
        &&& self.order >= 2
        &&& self.fed <= STREAM_LIMIT
        &&& forall|row: int| 0 <= row < self.functions@.len() ==> (#[trigger] self.functions@[row]).wf()
        &&& forall|row: int|
            0 <= row < self.structures@.len() ==> row_wf(
                (#[trigger] self.structures@[row])@,
                self.n,
                self.order,
                self.fed as nat,
            )
    }

    /// What a well-formed structure shows of itself.
    pub proof fn lemma_wf(&self)
        requires
            self.wf(),
        ensures
            self.grid().len() == self.hashers().len(),
            self.order() >= 2,
            self.tokens() <= STREAM_LIMIT,
            forall|row: int| 0 <= row < self.hashers().len() ==> (#[trigger] self.hashers()[row]).wf(),
    {
    }

    /// What a cell reports is a coordinate of the domain.
    pub proof fn lemma_reported_in_domain(&self, lambda: i64, i: u64)
        requires
            self.wf(),
            reported(self.grid(), lambda, i),
        ensures
            i < self.domain(),
    {
        let (row, bucket) = choose|row: int, bucket: u64|
            reports(self.grid(), row, bucket, lambda, i);
        assert(reports(self.grid(), row, bucket, lambda, i));
        assert(self.structures@[row]@.contains_key(bucket));
        let fp = self.structures@[row]@[bucket]@;
        assert(fp.l != 0 && exists|k: int| fp.fits(k));
        let k = choose|k: int| fp.fits(k);
        assert(fp.fits(k));
    }

    /// A structure with the domain, the sparsity, the field and the number
    /// of rows of this one, with hash functions drawn anew and no cell.
    pub fn renewed(&self) -> (made: Self)
        requires
            self.wf(),
        ensures
            made.wf(),
            made.domain() == self.domain(),
            made.sparsity() == self.sparsity(),
            made.order() == self.order(),
            made.tokens() == 0,
            made.grid().len() == self.grid().len(),
            made.hashers().len() == self.hashers().len(),
            forall|row: int|
                0 <= row < made.grid().len() ==> {
                    &&& (#[trigger] made.grid()[row]) == Map::<u64, Fingerprint>::empty()
                    &&& made.hashers()[row].range() == self.hashers()[row].range()
                },
    {
        let mut structures: Vec<HashMap<u64, OneSparseRecovery>> = Vec::new();
        let mut functions: Vec<F> = Vec::new();
        let mut row: usize = 0;
        while row < self.functions.len()
            invariant
                self.wf(),
                row <= self.functions@.len(),
                structures@.len() == row,
                functions@.len() == row,
                forall|i: int|
                    0 <= i < row ==> (#[trigger] structures@[i])@ == Map::<
                        u64,
                        OneSparseRecovery,
                    >::empty(),
                forall|i: int|
                    0 <= i < row ==> (#[trigger] functions@[i]).wf() && functions@[i].range()
                        == self.functions@[i].range(),
            decreases self.functions@.len() - row,
        {
            structures.push(HashMap::new());
            functions.push(self.functions[row].random_copy());
            row = row + 1;
        }
        let made = Self { n: self.n, s: self.s, structures, functions, order: self.order, fed: 0 };
        proof {
            assert forall|row: int| 0 <= row < made.grid().len() implies (
            #[trigger] made.grid()[row]) == Map::<u64, Fingerprint>::empty() by {
                assert(made.structures@[row]@ == Map::<u64, OneSparseRecovery>::empty());
                assert(made.grid()[row] =~= Map::<u64, Fingerprint>::empty());
            }
        }
        made
    }

    /// Initialize a new S-Sparse Detection and Recovery Data Structure
    ///
    /// - *n* : Universe Size
    /// - *s* : Sparsity we wish to detect
    /// - *delta_num / delta_den* : Error probability controller
    ///
    /// The sparsity is `s` or `n`, whichever is smaller. There are as many
    /// rows as [`rows_for`] says, each with a hash function from the domain
    /// to twice the sparsity, rounded up to a power of two, and no cell. The
    /// cells will work in the field of a prime that [`find_prime`] finds.
    pub fn init(n: u64, s: u64, delta_num: u64, delta_den: u64) -> (made: Result<
        Self,
        ParameterError,
    >)
        requires
            0 < n <= MAX_DOMAIN ==> F::can_init(
                ceil_power_of_two(n),
                ceil_power_of_two(
                    (2 * if n < s {
                        n
                    } else {
                        s
                    }) as u64,
                ),
            ),
        ensures
            n == 0 ==> made == Err::<Self, ParameterError>(ParameterError::EmptyDomain),
            n > 0 && !(0 < delta_num < delta_den) ==> made == Err::<Self, ParameterError>(
                ParameterError::FailureProbability,
            ),
            n > MAX_DOMAIN && 0 < delta_num < delta_den ==> made == Err::<Self, ParameterError>(
                ParameterError::DomainTooLarge,
            ),
            0 < n <= MAX_DOMAIN && 0 < delta_num < delta_den ==> (made matches Err(e) ==> e
                == ParameterError::NoPrime),
            made matches Ok(made) ==> {
                let sparsity = if n < s {
                    n
                } else {
                    s
                };
                &&& 0 < n <= MAX_DOMAIN
                &&& 0 < delta_num < delta_den
                &&& made.wf()
                &&& made.domain() == n
                &&& made.sparsity() == sparsity
                &&& made.tokens() == 0
                &&& made.order() >= 5
                &&& made.order() >> ((prime_bits(n) - 1) as u64) == 1
                &&& enough_rows(made.grid().len(), sparsity, delta_num, delta_den)
                &&& made.grid().len() > 0 ==> !enough_rows(
                    (made.grid().len() - 1) as nat,
                    sparsity,
                    delta_num,
                    delta_den,
                )
                &&& made.hashers().len() == made.grid().len()
                &&& forall|row: int|
                    0 <= row < made.grid().len() ==> {
                        &&& (#[trigger] made.grid()[row]) == Map::<u64, Fingerprint>::empty()
                        &&& made.hashers()[row].range() == ceil_power_of_two((2 * sparsity) as u64)
                    }
            },
    {
        if n == 0 {
            return Err(ParameterError::EmptyDomain);
        }
        if !(0 < delta_num && delta_num < delta_den) {
            return Err(ParameterError::FailureProbability);
        }
        if n > MAX_DOMAIN {
            return Err(ParameterError::DomainTooLarge);
        }
        let s = if n < s {
            n
        } else {
            s
        };
        let t = rows_for(s, delta_num, delta_den);
        let order = match find_prime(prime_bits_of(n)) {
            Some(order) => order,
            None => {
                return Err(ParameterError::NoPrime);
            },
        };
        let n_pow = next_power_of_two(n);
        let s_pow = next_power_of_two(2 * s);
        let mut structures: Vec<HashMap<u64, OneSparseRecovery>> = Vec::new();
        let mut row: u64 = 0;
        while row < t
            invariant
                row <= t,
                structures@.len() == row,
                forall|i: int|
                    0 <= i < row ==> (#[trigger] structures@[i])@ == Map::<
                        u64,
                        OneSparseRecovery,
                    >::empty(),
            decreases t - row,
        {
            structures.push(HashMap::new());
            row = row + 1;
        }
        let hash_base = F::init(n_pow, s_pow);
        let mut functions: Vec<F> = Vec::new();
        let mut row: u64 = 0;
        while row < t
            invariant
                row <= t,
                functions@.len() == row,
                hash_base.wf(),
                hash_base.range() == s_pow,
                forall|i: int|
                    0 <= i < row ==> (#[trigger] functions@[i]).wf() && functions@[i].range()
                        == s_pow,
            decreases t - row,
        {
            functions.push(hash_base.random_copy());
            row = row + 1;
        }
        let made = Self { n, s, structures, functions, order, fed: 0 };
        proof {
            assert forall|row: int| 0 <= row < made.grid().len() implies (
            #[trigger] made.grid()[row]) == Map::<u64, Fingerprint>::empty() by {
                assert(made.structures@[row]@ == Map::<u64, OneSparseRecovery>::empty());
                assert(made.grid()[row] =~= Map::<u64, Fingerprint>::empty());
            }
        }
        Ok(made)
    }

    /// Feed a token into the Structure
    ///
    /// In each row the cell at the bucket that the row's hash function
    /// gives the coordinate takes the token.
    pub fn feed(&mut self, token: (u64, bool))
        requires
            old(self).wf(),
            token.0 < old(self).domain(),
            old(self).tokens() < STREAM_LIMIT,
        ensures
            final(self).wf(),
            fed_with(*old(self), *final(self), token),
    {
        let (j, _) = token;
        let ghost before = *self;
        let rows = self.structures.len();
        let mut row: usize = 0;
        while row < rows
            invariant
                row <= rows,
                rows == self.structures@.len(),
                rows == before.structures@.len(),
                self.functions@ == before.functions@,
                self.n == before.n,
                self.s == before.s,
                self.order == before.order,
                self.fed == before.fed,
                before.wf(),
                token.0 < before.n,
                j == token.0,
                before.fed < STREAM_LIMIT,
                forall|i: int|
                    row <= i < rows ==> (#[trigger] self.structures@[i]) == before.structures@[i],
                forall|i: int|
                    0 <= i < row ==> {
                        &&& row_wf(
                            (#[trigger] self.structures@[i])@,
                            self.n,
                            self.order,
                            (before.fed + 1) as nat,
                        )
                        &&& row_fed(
                            row_view(before.structures@[i]@),
                            row_view(self.structures@[i]@),
                            before.functions@[i].hash(token.0),
                            token,
                            before.n as nat,
                            before.order as int,
                        )
                    },
            decreases rows - row,
        {
            let bucket = self.functions[row].compute(j);
            let n = self.n;
            let order = self.order;
            feed_row(&mut self.structures[row], bucket, token, n, order, Ghost(before.fed as nat));
            row = row + 1;
        }
        self.fed = self.fed + 1;
    }

    /// Query the Structure for detection and recovery
    ///
    /// The HashMap contains a mapping from indices which are part of the recovery to the values they contained.
    ///
    /// If the stream was not s-sparse, or if one of the one-sparse recovery systems got an answer wrong, then we return `None`.
    pub fn query(self) -> (out: Option<HashMap<u64, i64>>)
        requires
            self.wf(),
        ensures
            out is None <==> conflicting(self.grid()) || saturated(self.grid(), self.sparsity())
                || silent(self.grid()),
            out matches Some(found) ==> {
                &&& forall|i: u64| #[trigger]
                    found@.contains_key(i) <==> exists|lambda: i64| reported(self.grid(), lambda, i)
                &&& forall|i: u64| #[trigger]
                    found@.contains_key(i) ==> reported(self.grid(), found@[i], i)
            },
    {
        self.peek()
    }

    /// What a query would answer, with the structure left in place.
    pub fn peek(&self) -> (out: Option<HashMap<u64, i64>>)
        requires
            self.wf(),
        ensures
            out is None <==> conflicting(self.grid()) || saturated(self.grid(), self.sparsity())
                || silent(self.grid()),
            out matches Some(found) ==> {
                &&& forall|i: u64| #[trigger]
                    found@.contains_key(i) <==> exists|lambda: i64| reported(self.grid(), lambda, i)
                &&& forall|i: u64| #[trigger]
                    found@.contains_key(i) ==> reported(self.grid(), found@[i], i)
            },
    {
        broadcast use vstd::std_specs::hash::group_hash_axioms;

        let mut recovery: HashMap<u64, i64> = HashMap::new();
        let ghost grid = self.grid();
        let mut row: usize = 0;
        while row < self.structures.len()
            invariant
                row <= self.structures@.len(),
                self.wf(),
                grid == self.grid(),
                sound(grid, recovery@),
                complete(grid, recovery@, row as int),
                recovery@.len() <= self.s,
            decreases self.structures@.len() - row,
        {
            let ok = sweep_row(
                &self.structures[row],
                &mut recovery,
                self.s,
                Ghost(grid),
                Ghost(row as int),
                Ghost(self.n),
                Ghost(self.order),
                Ghost(self.fed as nat),
            );
            if !ok {
                return None;
            }
            row = row + 1;
        }
        if recovery.len() > 0 {
            proof {
                let found = recovery@;
                assert(found.dom().finite());
                assert(found.dom().len() > 0);
                let i = found.dom().choose();
                assert(found.contains_key(i));
                assert(reported(grid, found[i], i));
                assert(!silent(grid));
                assert(!conflicting(grid)) by {
                    if conflicting(grid) {
                        let (i, a, b) = choose|i: u64, a: i64, b: i64|
                            a != b && #[trigger] reported(grid, a, i) && #[trigger] reported(
                                grid,
                                b,
                                i,
                            );
                        let (ra, ba) = choose|row: int, bucket: u64|
                            reports(grid, row, bucket, a, i);
                        let (rb, bb) = choose|row: int, bucket: u64|
                            reports(grid, row, bucket, b, i);
                        assert(reports(grid, ra, ba, a, i));
                        assert(reports(grid, rb, bb, b, i));
                    }
                }
                assert(!saturated(grid, self.s)) by {
                    if saturated(grid, self.s) {
                        let d = choose|d: Set<u64>|
                            #![trigger d.finite()]
                            d.finite() && d.len() > self.s && forall|i: u64|
                                d.contains(i) ==> exists|lambda: i64| reported(grid, lambda, i);
                        assert forall|i: u64| d.contains(i) implies found.dom().contains(i) by {
                            let lambda = choose|lambda: i64| reported(grid, lambda, i);
                            let (r, b) = choose|row: int, bucket: u64|
                                reports(grid, row, bucket, lambda, i);
                            assert(reports(grid, r, b, lambda, i));
                        }
                        vstd::set_lib::lemma_len_subset(d, found.dom());
                    }
                }
                assert forall|i: u64| (exists|lambda: i64| reported(grid, lambda, i))
                    implies #[trigger] found.contains_key(i) by {
                    let lambda = choose|lambda: i64| reported(grid, lambda, i);
                    let (r, b) = choose|row: int, bucket: u64|
                        reports(grid, row, bucket, lambda, i);
                    assert(reports(grid, r, b, lambda, i));
                }
            }
            Some(recovery)
        } else {
            proof {
                assert(recovery@.dom().len() == 0);
                assert forall|lambda: i64, i: u64| !reported(grid, lambda, i) by {
                    if reported(grid, lambda, i) {
                        let (r, b) = choose|row: int, bucket: u64|
                            reports(grid, row, bucket, lambda, i);
                        assert(reports(grid, r, b, lambda, i));
                        assert(recovery@.dom().contains(i));
                    }
                }
            }
            None
        }
    }

    /// The number of tokens fed.
    pub fn tokens_fed(&self) -> (fed: u64)
        ensures
            fed == self.tokens(),
    {
        self.fed
    }

    /// The number of rows.
    pub fn rows(&self) -> (t: usize)
        ensures
            t == self.grid().len(),
    {
        self.structures.len()
    }
}

/// Where the cells report the coordinates of a vector that are not zero,
/// each with its weight, and no other, a query gives the vector: it fails
/// only if the vector is zero or has more than `s` coordinates that are
/// not, and the map that it gives otherwise holds the coordinates that are
/// not zero with their weights.
///
/// `weights` is the vector, as the map from the coordinates that are not
/// zero to their weights.
pub proof fn lemma_truthful_cells_recover<F: HashFunction>(
    recovery: SparseRecovery<F>,
    weights: Map<u64, i64>,
    out: Option<HashMap<u64, i64>>,
)
    requires
        recovery.answers(out),
        weights.dom().finite(),
        forall|lambda: i64, i: u64| #[trigger]
            reported(recovery.grid(), lambda, i) ==> weights.contains_key(i) && weights[i]
                == lambda,
        forall|i: u64| #[trigger]
            weights.contains_key(i) ==> reported(recovery.grid(), weights[i], i),
    ensures
        out is None <==> weights.dom().len() == 0 || weights.dom().len() > recovery.sparsity(),
        out matches Some(found) ==> found@ == weights,
{
    let grid = recovery.grid();
    let s = recovery.sparsity();
    assert(!conflicting(grid)) by {
        if conflicting(grid) {
            let (i, a, b) = choose|i: u64, a: i64, b: i64|
                a != b && #[trigger] reported(grid, a, i) && #[trigger] reported(grid, b, i);
            assert(weights[i] == a && weights[i] == b);
        }
    }
    assert(silent(grid) <==> weights.dom().len() == 0) by {
        if weights.dom().len() == 0 {
            assert forall|lambda: i64, i: u64| !reported(grid, lambda, i) by {
                if reported(grid, lambda, i) {
                    assert(weights.dom().contains(i));
                }
            }
        } else {
            let i = weights.dom().choose();
            assert(weights.contains_key(i));
            assert(reported(grid, weights[i], i));
        }
    }
    assert(saturated(grid, s) <==> weights.dom().len() > s) by {
        if weights.dom().len() > s {
            let d = weights.dom();
            assert(d.finite() && d.len() > s);
            assert forall|i: u64| d.contains(i) implies exists|lambda: i64|
                reported(grid, lambda, i) by {
                assert(weights.contains_key(i));
                assert(reported(grid, weights[i], i));
            }
        }
        if saturated(grid, s) {
            let d = choose|d: Set<u64>|
                #![trigger d.finite()]
                d.finite() && d.len() > s && forall|i: u64|
                    d.contains(i) ==> exists|lambda: i64| reported(grid, lambda, i);
            assert forall|i: u64| d.contains(i) implies weights.dom().contains(i) by {
                let lambda = choose|lambda: i64| reported(grid, lambda, i);
                assert(reported(grid, lambda, i));
            }
            vstd::set_lib::lemma_len_subset(d, weights.dom());
        }
    }
    if out is Some {
        let found = out->Some_0;
        assert(found@ =~= weights) by {
            assert forall|i: u64| found@.contains_key(i) <==> weights.contains_key(i) by {
                if found@.contains_key(i) {
                    assert(reported(grid, found@[i], i));
                }
                if weights.contains_key(i) {
                    assert(reported(grid, weights[i], i));
                }
            }
            assert forall|i: u64| found@.contains_key(i) implies found@[i] == weights[i] by {
                assert(reported(grid, found@[i], i));
            }
        }
    }
}

impl<F> Query<Option<HashMap<u64, i64>>> for SparseRecovery<F> where F: HashFunction {
    open spec fn can_query(&self) -> bool {
        self.wf()
    }

    open spec fn answers(&self, out: Option<HashMap<u64, i64>>) -> bool {
        &&& out is None <==> conflicting(self.grid()) || saturated(self.grid(), self.sparsity())
            || silent(self.grid())
        &&& out matches Some(found) ==> {
            &&& forall|i: u64| #[trigger]
                found@.contains_key(i) <==> exists|lambda: i64| reported(self.grid(), lambda, i)
            &&& forall|i: u64| #[trigger]
                found@.contains_key(i) ==> reported(self.grid(), found@[i], i)
        }
    }

    fn query(self) -> (out: Option<HashMap<u64, i64>>) {
        self.peek()
    }
}

} // verus!
