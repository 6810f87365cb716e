//! Supporting randomized Hash Functions

use vstd::prelude::*;

use crate::utils::finite_field::{bits, FField, PrimePowerFieldElement};

verus! {

/// Whether `l` is a power of two.
pub open spec fn is_power_of_two(l: u64) -> bool {
    exists|n: u64| n < 64 && l == 1u64 << n
}

/// Describes a Hashing Function from n bits to l bits
///
/// HashFunction the trait provides no guarantee for implementation.
/// As a result, universality of the functions are not consistent across different implementations.
pub trait HashFunction: Sized {
    /// What the function needs to hold of itself.
    spec fn wf(&self) -> bool;

    /// The number of values that the function takes: all lie below it.
    spec fn range(&self) -> u64;

    /// The value of the function at `x`.
    spec fn hash(&self, x: u64) -> u64;

    /// The domains and ranges for which a function can be made.
    spec fn can_init(n: u64, l: u64) -> bool;

    /// Initialize a new hash function from the numbers below `n` to those
    /// below `l`.
    fn init(n: u64, l: u64) -> (h: Self)
        requires
            Self::can_init(n, l),
        ensures
            h.wf(),
            h.range() == l,
    ;

    /// Computes the value of h(x), where h is the current hash function
    fn compute(&self, x: u64) -> (v: u64)
        requires
            self.wf(),
        ensures
            v == self.hash(x),
            v < self.range(),
    ;

    /// Computes the boolean value of h(x) = *0*, where h is the current hash function
    fn is_zero(&self, x: u64) -> (z: bool)
        requires
            self.wf(),
        ensures
            z == (self.hash(x) == 0),
    {
        self.compute(x) == 0
    }

    /// Random copy; copy the hash function, using identical domain and range, but initialize new random components
    fn random_copy(&self) -> (h: Self)
        requires
            self.wf(),
        ensures
            h.wf(),
            h.range() == self.range(),
    ;
}

/// A Hash Function implementation that performs calculations within a prime power field using the following methodology
///
/// f(x) = ax + b; calculations all performed within F_{2^n} (the polynomial finite field of order 2^n)
/// g(x) = rightmost l bits of f(x)
///
/// a and b are initialized at random upon generation of the function, they are both elements of F_{2^n}
#[derive(Debug, Clone)]
pub struct PowerFiniteFieldHasher {
    field: FField,
    a: PrimePowerFieldElement,
    b: PrimePowerFieldElement,
    mask: u64,
}

/// The largest domain that [`PowerFiniteFieldHasher`] has a field for.
pub const MAX_HASH_DOMAIN: u64 = 0x40_0000;

impl PowerFiniteFieldHasher {
    /// The field that the function computes in.
    pub closed spec fn field(&self) -> FField {
        self.field
    }

    /// The factor `a` of `a * x + b`.
    pub closed spec fn factor(&self) -> u64 {
        self.a.value
    }

    /// The summand `b` of `a * x + b`.
    pub closed spec fn summand(&self) -> u64 {
        self.b.value
    }

    /// The bits of `a * x + b` that the function keeps.
    pub closed spec fn mask(&self) -> u64 {
        self.mask
    }

    /// The function `x -> (a * x + b) & (l - 1)` over `field`.
    pub fn init_a_b(
        field: FField,
        a: PrimePowerFieldElement,
        b: PrimePowerFieldElement,
        l: u64,
    ) -> (h: Self)
        requires
            field.wf(),
            is_power_of_two(l),
        ensures
            h.wf(),
            h.field() == field,
            h.factor() == a.value,
            h.summand() == b.value,
            h.mask() == l - 1,
            h.range() == l,
    {
        proof {
            let n = choose|n: u64| n < 64 && l == 1u64 << n;
            assert(l >= 1) by (bit_vector)
                requires
                    n < 64,
                    l == 1u64 << n,
            ;
        }
        let mask = l - 1;
        Self { field, a, b, mask }
    }
}

impl HashFunction for PowerFiniteFieldHasher {
    open spec fn wf(&self) -> bool {
        &&& self.field().wf()
        &&& self.mask() < u64::MAX
    }

    open spec fn range(&self) -> u64 {
        (self.mask() + 1) as u64
    }

    open spec fn hash(&self, x: u64) -> u64 {
        let f = self.field();
        (f.mult_spec(self.factor(), f.reduce_spec(x)) ^ self.summand()) & self.mask()
    }

    open spec fn can_init(n: u64, l: u64) -> bool {
        n <= MAX_HASH_DOMAIN && is_power_of_two(l)
    }

    /// A function with random `a` and `b` over the smallest field that has
    /// at least four and at least `n` elements.
    fn init(n: u64, l: u64) -> (h: Self) {
        let wanted: u64 = if n <= 4 {
            2
        } else {
            bits(&(n - 1))
        };
        proof {
            if n > 4 {
                let v = (n - 1) as u64;
                assert(3 <= wanted <= 22) by (bit_vector)
                    requires
                        4 <= v < 0x40_0000,
                        wanted <= 64,
                        wanted < 64 ==> v >> wanted == 0,
                        wanted > 0 ==> (v >> ((wanted - 1) as u64)) & 1 == 1,
                ;
            }
        }
        let field = FField::init(1u64 << wanted);
        let a = field.sample();
        let b = field.sample();
        Self::init_a_b(field, a, b, l)
    }

    fn compute(&self, x: u64) -> (v: u64) {
        let x = self.field.elem(x);
        let y = self.field.add(self.field.mult(self.a, x), self.b).value;
        let mask = self.mask;
        assert(y & mask <= mask) by (bit_vector);
        assert(self.range() == mask + 1);
        y & mask
    }

    fn random_copy(&self) -> (h: Self) {
        let field = self.field;
        Self { field, a: field.sample(), b: field.sample(), mask: self.mask }
    }
}

} // verus!
