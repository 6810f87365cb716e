//! Supporting Finite Field Arithmetic

use vstd::arithmetic::div_mod::*;
use vstd::arithmetic::mul::*;
use vstd::arithmetic::power::*;
use vstd::prelude::*;

use crate::utils::random::random_below;

verus! {

/// An element of some field.
///
/// Given some FieldElement, we do not know in fact, what field it is from. This computation would happen at runtime, so typing it is not an option.
/// What we can do, is semantically enforce that values passed into the FiniteField functions are FieldElements, rather than simply u64s.
///
/// Since we are using only one field at a time, this should suffice.
#[derive(Clone, Copy, Debug, PartialEq, Eq, Structural)]
pub struct FieldElement(pub u64);

impl View for FieldElement {
    type V = int;

    open spec fn view(&self) -> int {
        self.0 as int
    }
}

impl FieldElement {
    /// The element that holds `n`.
    pub fn from(n: u64) -> (e: Self)
        ensures
            e@ == n,
    {
        FieldElement(n)
    }

    /// The number that the element holds.
    pub fn value(self) -> (n: u64)
        ensures
            n == self@,
    {
        self.0
    }
}

/// A structure for containing a finite field, and arithmetic within that field.
///
/// The value contained within the structure is the size of the field
#[derive(Clone, Copy, Debug)]
pub struct FiniteField {
    order: u64,
}

/// `base` to the power `expo`, reduced modulo `order`.
pub open spec fn pow_mod(base: int, expo: nat, order: int) -> int {
    pow(base, expo) % order
}

/// The residue of `-a` from the residue of `a`.
pub proof fn lemma_mod_of_negation(a: int, p: int)
    requires
        p > 0,
    ensures
        (-a) % p == if a % p == 0 {
            0
        } else {
            p - a % p
        },
        0 <= (-a) % p < p,
{
    let q = a / p;
    let r = a % p;
    lemma_fundamental_div_mod(a, p);
    lemma_mod_bound(a, p);
    lemma_mod_bound(-a, p);
    if r == 0 {
        assert(-a == (-q) * p + 0) by (nonlinear_arith)
            requires
                a == p * q + r,
                r == 0,
        ;
        lemma_fundamental_div_mod_converse_mod(-a, p, -q, 0);
    } else {
        assert(-a == (-q - 1) * p + (p - r)) by (nonlinear_arith)
            requires
                a == p * q + r,
        ;
        lemma_fundamental_div_mod_converse_mod(-a, p, -q - 1, p - r);
    }
}

impl FiniteField {
    /// The size of the field.
    pub closed spec fn order(&self) -> int {
        self.order as int
    }

    /// A field has at least two elements.
    pub open spec fn wf(&self) -> bool {
        self.order() >= 2
    }

    /// Generate a new field of size `size`.
    pub fn new(order: u64) -> (field: Self)
        requires
            order >= 2,
        ensures
            field.wf(),
            field.order() == order,
    {
        Self { order }
    }

    /// The size of the field.
    pub fn size(&self) -> (order: u64)
        ensures
            order == self.order(),
    {
        self.order
    }

    /// Converts an i32 into a field element of the current field
    pub fn mod_p_i32(&self, val: i32) -> (r: FieldElement)
        requires
            self.wf(),
        ensures
            r@ == (val as int) % self.order(),
    {
        self.mod_p_i64(val as i64)
    }

    /// Converts an i64 into a field element of the current field
    pub fn mod_p_i64(&self, val: i64) -> (r: FieldElement)
        requires
            self.wf(),
        ensures
            r@ == (val as int) % self.order(),
    {
        if val >= 0 {
            self.mod_p(val as u64)
        } else {
            let size: u64 = if val == i64::MIN {
                0x8000_0000_0000_0000
            } else {
                (-val) as u64
            };
            let rest: u64 = size % self.order;
            proof {
                lemma_mod_of_negation(-(val as int), self.order());
            }
            if rest == 0 {
                FieldElement(0)
            } else {
                FieldElement(self.order - rest)
            }
        }
    }

    /// Converts a u64 into a field element of the current field
    pub fn mod_p(&self, val: u64) -> (r: FieldElement)
        requires
            self.wf(),
        ensures
            r@ == (val as int) % self.order(),
    {
        FieldElement(val % self.order)
    }

    /// Compute base^expo within the field
    pub fn pow(&self, base: FieldElement, expo: u64) -> (r: FieldElement)
        requires
            self.wf(),
        ensures
            r@ == pow_mod(base@, expo as nat, self.order()),
        decreases expo,
    {
        let ghost p = self.order();
        let ghost b = base@;
        if expo == 0 {
            proof {
                lemma_pow0(b);
                lemma_small_mod(1, p as nat);
            }
            return FieldElement(1);
        }
        // If the exponent is odd, get it to even, and continue

        if expo % 2 == 1 {
            let rest = self.pow(base, expo - 1);
            proof {
                reveal(pow);
                assert(pow(b, expo as nat) == b * pow(b, (expo - 1) as nat));
                lemma_mul_mod_noop_right(b, pow(b, (expo - 1) as nat), p);
            }
            self.mul(base, rest)
        } else {
            let square = self.mul(base, base);
            proof {
                let half = (expo / 2) as nat;
                lemma_pow_mod_noop(b * b, half, p);
                lemma_square_is_pow2(b);
                lemma_pow_multiplies(b, 2, half);
            }
            self.pow(square, expo / 2)
        }
    }

    /// Computer v1 * v2 within the field
    pub fn mul(&self, v1: FieldElement, v2: FieldElement) -> (r: FieldElement)
        requires
            self.wf(),
        ensures
            r@ == (v1@ * v2@) % self.order(),
            0 <= r@ < self.order(),
    {
        assert(v1.0 * v2.0 <= 0xFFFF_FFFF_FFFF_FFFF * 0xFFFF_FFFF_FFFF_FFFF) by (nonlinear_arith);
        let prod: u128 = (v1.0 as u128) * (v2.0 as u128);
        proof {
            lemma_mod_bound(prod as int, self.order());
        }
        FieldElement((prod % (self.order as u128)) as u64)
    }

    /// Compute v1 + v2 within the field
    pub fn add(&self, v1: FieldElement, v2: FieldElement) -> (r: FieldElement)
        requires
            self.wf(),
        ensures
            r@ == (v1@ + v2@) % self.order(),
            0 <= r@ < self.order(),
    {
        let sum: u128 = (v1.0 as u128) + (v2.0 as u128);
        proof {
            lemma_mod_bound(sum as int, self.order());
        }
        FieldElement((sum % (self.order as u128)) as u64)
    }

    /// Compute -v1 within the field
    pub fn neg(&self, v1: FieldElement) -> (r: FieldElement)
        requires
            self.wf(),
        ensures
            r@ == (-v1@) % self.order(),
            0 <= r@ < self.order(),
    {
        let rest: u64 = v1.0 % self.order;
        proof {
            lemma_mod_of_negation(v1@, self.order());
        }
        if rest == 0 {
            FieldElement(0)
        } else {
            FieldElement(self.order - rest)
        }
    }
}

/// Powers of a product are products of powers: in every field,
/// `pow(x, e) * pow(y, e) == pow(x * y, e)`.
pub proof fn lemma_pow_of_product(x: int, y: int, e: nat, order: int)
    requires
        order >= 2,
    ensures
        (pow_mod(x, e, order) * pow_mod(y, e, order)) % order == pow_mod(
            (x * y) % order,
            e,
            order,
        ),
{
    lemma_pow_distributes(x, y, e);
    lemma_mul_mod_noop(pow(x, e), pow(y, e), order);
    lemma_pow_mod_noop(x * y, e, order);
}

/// The primitive polynomials over GF(2) that the fields are built from.
pub struct Primitive;

/// The primitive polynomial of a degree from 2 to 22, its coefficients as the
/// bits of a number, the constant term lowest.
pub open spec fn primitive_of_degree(degree: int) -> u64 {
    if degree == 2 {
        7
    } else if degree == 3 {
        11
    } else if degree == 4 {
        25
    } else if degree == 5 {
        37
    } else if degree == 6 {
        67
    } else if degree == 7 {
        185
    } else if degree == 8 {
        355
    } else if degree == 9 {
        623
    } else if degree == 10 {
        1933
    } else if degree == 11 {
        2091
    } else if degree == 12 {
        4179
    } else if degree == 13 {
        14513
    } else if degree == 14 {
        16707
    } else if degree == 15 {
        32771
    } else if degree == 16 {
        66525
    } else if degree == 17 {
        131081
    } else if degree == 18 {
        262207
    } else if degree == 19 {
        524327
    } else if degree == 20 {
        1048585
    } else if degree == 21 {
        2097157
    } else {
        4194307
    }
}

impl Primitive {
    /// The primitive polynomial of the degree, where the table holds one.
    pub fn of_degree(deg: &u8) -> (poly: Option<u64>)
        ensures
            poly is Some <==> 2 <= *deg <= 22,
            poly matches Some(p) ==> p == primitive_of_degree(*deg as int) && p >> (*deg as u64)
                == 1,
    {
        let table: [u64; 21] = [
            7,
            11,
            25,
            37,
            67,
            185,
            355,
            623,
            1933,
            2091,
            4179,
            14513,
            16707,
            32771,
            66525,
            131081,
            262207,
            524327,
            1048585,
            2097157,
            4194307,
        ];
        if *deg < 2 || *deg > 22 {
            return None;
        }
        let d: u64 = *deg as u64;
        let p: u64 = table[(*deg - 2) as usize];
        assert(p >> d == 1) by (bit_vector)
            requires
                d == 2 && p == 7 || d == 3 && p == 11 || d == 4 && p == 25 || d == 5 && p == 37 || d
                    == 6 && p == 67 || d == 7 && p == 185 || d == 8 && p == 355 || d == 9 && p
                    == 623 || d == 10 && p == 1933 || d == 11 && p == 2091 || d == 12 && p == 4179
                    || d == 13 && p == 14513 || d == 14 && p == 16707 || d == 15 && p == 32771 || d
                    == 16 && p == 66525 || d == 17 && p == 131081 || d == 18 && p == 262207 || d
                    == 19 && p == 524327 || d == 20 && p == 1048585 || d == 21 && p == 2097157 || d
                    == 22 && p == 4194307,
        ;
        Some(p)
    }
}

/// The number of significant bits of `val`: the place of its highest set
/// bit, counted from one, and zero for zero.
pub open spec fn bit_length(val: u64) -> nat
    decreases val,
{
    if val == 0 {
        0
    } else {
        1 + bit_length(val / 2)
    }
}

/// No number has more than 64 significant bits.
pub proof fn lemma_bit_length_bound(val: u64)
    ensures
        bit_length(val) <= 64,
{
    if val != 0 {
        lemma_bit_length_floor(val);
        let top = (bit_length(val) - 1) as nat;
        vstd::arithmetic::power2::lemma2_to64();
        if top > 64 {
            vstd::arithmetic::power2::lemma_pow2_strictly_increases(64, top);
        }
    }
}

/// A number of `b` significant bits is at least `2^(b - 1)`.
pub proof fn lemma_bit_length_floor(val: u64)
    requires
        val != 0,
    ensures
        vstd::arithmetic::power2::pow2((bit_length(val) - 1) as nat) <= val,
    decreases val,
{
    vstd::arithmetic::power2::lemma2_to64();
    if val / 2 != 0 {
        lemma_bit_length_floor(val / 2);
        vstd::arithmetic::power2::lemma_pow2_unfold((bit_length(val) - 1) as nat);
    } else {
        assert(bit_length(val / 2) == 0);
    }
}

/// A number has no bit at the place of its number of significant bits or
/// above it, and has one below it.
pub proof fn lemma_bit_length_places(val: u64)
    ensures
        bit_length(val) <= 64,
        bit_length(val) < 64 ==> val >> (bit_length(val) as u64) == 0,
        bit_length(val) > 0 ==> (val >> ((bit_length(val) - 1) as u64)) & 1 == 1,
    decreases val,
{
    lemma_bit_length_bound(val);
    if val != 0 {
        let half = val / 2;
        let b = bit_length(half) as u64;
        lemma_bit_length_places(half);
        lemma_bit_length_bound(half);
        assert(half == val >> 1) by (bit_vector)
            requires
                half == val / 2,
        ;
        if b == 0 {
            assert(val >> 1 == 0);
            assert((val >> 0) & 1 == 1) by (bit_vector)
                requires
                    val != 0,
                    val >> 1 == 0,
            ;
        } else {
            assert(b < 64 && (val >> b) & 1 == 1 && (b < 63 ==> val >> ((b + 1) as u64) == 0))
                by (bit_vector)
                requires
                    0 < b <= 64,
                    b < 64 ==> (val >> 1) >> b == 0,
                    ((val >> 1) >> ((b - 1) as u64)) & 1 == 1,
            ;
        }
    } else {
        assert(val >> 0 == 0) by (bit_vector)
            requires
                val == 0,
        ;
    }
}

/// The number of significant bits of a value.
pub fn bits(val: &u64) -> (n: u64)
    ensures
        n == bit_length(*val),
        n <= 64,
        n < 64 ==> *val >> n == 0,
        n > 0 ==> (*val >> ((n - 1) as u64)) & 1 == 1,
{
    let mut rest: u64 = *val;
    let mut n: u64 = 0;
    assert(rest >> 0 == rest) by (bit_vector);
    while rest != 0
        invariant
            n <= 64,
            n < 64 ==> rest == *val >> n,
            n == 64 ==> rest == 0,
            bit_length(*val) == n + bit_length(rest),
            n > 0 && rest == 0 ==> (*val >> ((n - 1) as u64)) & 1 == 1,
        decreases rest,
    {
        let ghost before = rest;
        let ghost v = *val;
        assert(rest / 2 == rest >> 1) by (bit_vector);
        assert(n < 63 ==> (v >> n) >> 1 == v >> ((n + 1) as u64)) by (bit_vector)
            requires
                n < 64,
        ;
        assert(n == 63 ==> (v >> n) >> 1 == 0) by (bit_vector);
        assert((v >> n) >> 1 == 0 && v >> n != 0 ==> (v >> n) & 1 == 1) by (bit_vector)
            requires
                n < 64,
        ;
        rest = rest >> 1;
        n = n + 1;
    }
    n
}

/// The primitive polynomial of a degree, as [`Primitive::of_degree`] holds it.
pub fn find_primitive(degree: &u8) -> (poly: u64)
    requires
        2 <= *degree <= 22,
    ensures
        poly == primitive_of_degree(*degree as int),
        poly >> (*degree as u64) == 1,
{
    match Primitive::of_degree(degree) {
        Some(poly) => poly,
        None => 0,
    }
}

/// An element of a field of `2^n` elements: a polynomial over GF(2) of
/// degree below `n`, its coefficients the low `n` bits of `value`.
#[derive(Clone, Copy, Debug)]
pub struct PrimePowerFieldElement {
    pub value: u64,
}

/// The polynomial `value` with its terms of degree `degree` to `top - 1`
/// cancelled, from the highest down, by multiples of `irreducible`.
pub open spec fn reduce_from(value: u64, irreducible: u64, degree: u64, top: nat) -> u64
    decreases top,
{
    if top <= degree || top > 64 {
        value
    } else {
        let place = (top - 1) as u64;
        let next = if (value >> place) & 1 == 1 {
            value ^ (irreducible << ((place - degree) as u64))
        } else {
            value
        };
        reduce_from(next, irreducible, degree, (top - 1) as nat)
    }
}

/// The product of the polynomials `x` and `y` over GF(2), counting the
/// terms of `y` of degree below `terms` only.
pub open spec fn carryless_product(x: u64, y: u64, terms: nat) -> u64
    decreases terms,
{
    if terms == 0 || terms > 64 {
        0
    } else {
        let place = (terms - 1) as u64;
        let rest = carryless_product(x, y, (terms - 1) as nat);
        if (y >> place) & 1 == 1 {
            rest ^ (x << place)
        } else {
            rest
        }
    }
}

/// Terms of `y` above its highest set bit add nothing to a product.
pub proof fn lemma_carryless_product_stops(x: u64, y: u64, from: nat, to: nat)
    requires
        from <= to <= 64,
        forall|i: u64| from <= i < 64 ==> (#[trigger] (y >> i)) & 1 == 0,
    ensures
        carryless_product(x, y, to) == carryless_product(x, y, from),
    decreases to - from,
{
    if from < to {
        lemma_carryless_product_stops(x, y, from, (to - 1) as nat);
    }
}

/// The binary digits of a number, the lowest first.
///
/// Calls `num_bigint::BigUint::to_radix_le` with radix 2 on the number. The
/// crate gives the single digit 0 for zero, and for any other number its
/// bits up to the highest set one: a digit is the bit at its place, and no
/// bit is set at a place that has no digit.
#[verifier::external_body]
fn binary_digits(value: u64) -> (digits: Vec<u8>)
    ensures
        1 <= digits@.len() <= 64,
        forall|i: int| 0 <= i < digits@.len() ==> #[trigger] digits@[i] as u64 == (value >> (i as u64)) & 1,
        forall|i: u64| digits@.len() <= i < 64 ==> (#[trigger] (value >> i)) & 1 == 0,
{
    num_bigint::BigUint::from(value).to_radix_le(2)
}

/// A field of `2^n` elements, with the polynomial that its products are
/// reduced by.
#[derive(Clone, Copy, PartialEq, Eq, Debug)]
pub struct FField {
    order: u64,
    irreducible: u64,
    degree: u64,
}

impl FField {
    /// The number of elements.
    pub closed spec fn order(&self) -> u64 {
        self.order
    }

    /// The polynomial that products are reduced by.
    pub closed spec fn irreducible(&self) -> u64 {
        self.irreducible
    }

    /// The `n` of a field of `2^n` elements.
    pub closed spec fn degree(&self) -> u64 {
        self.degree
    }

    /// The field has `2^n` elements for an `n` from 1 to 31, and its
    /// polynomial has degree `n`.
    pub open spec fn wf(&self) -> bool {
        &&& 1 <= self.degree() <= 31
        &&& self.order() == 1u64 << self.degree()
        &&& self.irreducible() >> self.degree() == 1
    }

    /// What [`FField::reduce`] gives.
    pub open spec fn reduce_spec(&self, value: u64) -> u64 {
        reduce_from(value, self.irreducible(), self.degree(), 64)
    }

    /// What [`FField::mult`] gives.
    pub open spec fn mult_spec(&self, lhs: u64, rhs: u64) -> u64 {
        self.reduce_spec(carryless_product(lhs, rhs, 64))
    }

    /// A field of `order` elements with the given polynomial.
    pub fn init_with_irreducible(order: u64, irreducible: u64) -> (field: Self)
        requires
            exists|n: u64| 1 <= n <= 31 && order == 1u64 << n && irreducible >> n == 1,
        ensures
            field.wf(),
            field.order() == order,
            field.irreducible() == irreducible,
    {
        let b = bits(&order);
        proof {
            let n = choose|n: u64| 1 <= n <= 31 && order == 1u64 << n && irreducible >> n == 1;
            assert(order != 0) by (bit_vector)
                requires
                    1 <= n <= 31,
                    order == 1u64 << n,
            ;
            assert(b == n + 1) by (bit_vector)
                requires
                    1 <= n <= 31,
                    order == 1u64 << n,
                    1 <= b <= 64,
                    b < 64 ==> order >> b == 0,
                    (order >> ((b - 1) as u64)) & 1 == 1,
            ;
        }
        let degree = b - 1;
        Self { order, irreducible, degree }
    }

    /// A field of `order` elements with the primitive polynomial of its
    /// degree.
    pub fn init(order: u64) -> (field: Self)
        requires
            exists|n: u64| 2 <= n <= 22 && order == 1u64 << n,
        ensures
            field.wf(),
            field.order() == order,
            2 <= field.degree() <= 22,
            field.irreducible() == primitive_of_degree(field.degree() as int),
    {
        let b = bits(&order);
        proof {
            let n = choose|n: u64| 2 <= n <= 22 && order == 1u64 << n;
            assert(b == n + 1) by (bit_vector)
                requires
                    2 <= n <= 22,
                    order == 1u64 << n,
                    b <= 64,
                    b < 64 ==> order >> b == 0,
                    b > 0 ==> (order >> ((b - 1) as u64)) & 1 == 1,
            ;
        }
        let degree: u8 = (b - 1) as u8;
        let irreducible = find_primitive(&degree);
        Self { order, irreducible, degree: degree as u64 }
    }

    /// The number of elements.
    pub fn size(&self) -> (order: u64)
        ensures
            order == self.order(),
    {
        self.order
    }

    /// The remainder of the polynomial `value` on division by the field's
    /// polynomial.
    pub fn reduce(self, value: u64) -> (r: u64)
        requires
            self.wf(),
        ensures
            r == self.reduce_spec(value),
            r < self.order(),
    {
        let mut v: u64 = value;
        let mut k: u64 = 64;
        let n: u64 = self.degree;
        let irr: u64 = self.irreducible;
        while k > n
            invariant
                n <= k <= 64,
                1 <= n <= 31,
                irr >> n == 1,
                n == self.degree(),
                irr == self.irreducible(),
                k < 64 ==> v >> k == 0,
                reduce_from(v, irr, n, k as nat) == reduce_from(value, irr, n, 64),
            decreases k,
        {
            let ghost before = v;
            k = k - 1;
            if (v >> k) & 1 == 1 {
                v = v ^ (irr << (k - n));
                assert(v >> k == 0) by (bit_vector)
                    requires
                        1 <= n <= 31,
                        n <= k < 64,
                        irr >> n == 1,
                        k < 63 ==> before >> ((k + 1) as u64) == 0,
                        (before >> k) & 1 == 1,
                        v == before ^ (irr << ((k - n) as u64)),
                ;
            } else {
                assert(v >> k == 0) by (bit_vector)
                    requires
                        k < 64,
                        k < 63 ==> v >> ((k + 1) as u64) == 0,
                        (v >> k) & 1 != 1,
                ;
            }
        }
        assert(v < 1u64 << n) by (bit_vector)
            requires
                n < 64,
                v >> n == 0,
        ;
        v
    }

    /// An element of the field drawn at random.
    pub fn sample(&self) -> (e: PrimePowerFieldElement)
        requires
            self.wf(),
        ensures
            e.value < self.order(),
    {
        let n: u64 = self.degree;
        assert(1u64 << n > 0) by (bit_vector)
            requires
                n <= 31,
        ;
        let value = random_below(self.order);
        PrimePowerFieldElement { value }
    }

    /// The element that the polynomial `value` stands for.
    pub fn elem(&self, value: u64) -> (e: PrimePowerFieldElement)
        requires
            self.wf(),
        ensures
            e.value == self.reduce_spec(value),
            e.value < self.order(),
    {
        PrimePowerFieldElement { value: self.reduce(value) }
    }

    /// The sum of two elements.
    pub fn add(self, lhs: PrimePowerFieldElement, rhs: PrimePowerFieldElement) -> (e:
        PrimePowerFieldElement)
        ensures
            e.value == lhs.value ^ rhs.value,
            self.wf() && lhs.value < self.order() && rhs.value < self.order() ==> e.value
                < self.order(),
    {
        let value = lhs.value ^ rhs.value;
        proof {
            let a = lhs.value;
            let b = rhs.value;
            let n = self.degree();
            if self.wf() && a < self.order() && b < self.order() {
                assert(a ^ b < 1u64 << n) by (bit_vector)
                    requires
                        n <= 31,
                        a < 1u64 << n,
                        b < 1u64 << n,
                ;
            }
        }
        PrimePowerFieldElement { value }
    }

    /// The product of two elements.
    pub fn mult(self, lhs: PrimePowerFieldElement, rhs: PrimePowerFieldElement) -> (e:
        PrimePowerFieldElement)
        requires
            self.wf(),
        ensures
            e.value == self.mult_spec(lhs.value, rhs.value),
            e.value < self.order(),
    {
        let upper = lhs;
        let lower = rhs;
        let mut value: u64 = 0;
        let digits = binary_digits(lower.value);
        let mut loc: usize = 0;
        while loc < digits.len()
            invariant
                loc <= digits@.len() <= 64,
                value == carryless_product(upper.value, lower.value, loc as nat),
                forall|i: int|
                    0 <= i < digits@.len() ==> #[trigger] digits@[i] as u64 == (lower.value >> (
                    i as u64)) & 1,
            decreases digits@.len() - loc,
        {
            if digits[loc] == 1u8 {
                value = value ^ (upper.value << (loc as u64));
            }
            loc = loc + 1;
        }
        proof {
            lemma_carryless_product_stops(upper.value, lower.value, digits@.len(), 64);
        }
        PrimePowerFieldElement { value: self.reduce(value) }
    }
}

} // verus!
