//! Edges, and the numbering of the undirected edges of a vertex set.

use vstd::prelude::*;
use vstd::std_specs::cmp::PartialEqSpec;

verus! {

/// The largest edge number plus one that a pair of `u32` vertices can have.
pub const EDGE_NUMBERS: u64 = 0x7FFF_FFFF_8000_0000;

/// An edge between two vertices, with a label.
///
/// An edge made with [`Edge::init`] is undirected, one made with
/// [`Edge::init_directed`] runs from its first vertex to its second.
#[derive(Debug, PartialEq, Eq, Hash, Default, Clone, Copy)]
pub struct Edge<T, W> {
    /// If directed, the source
    v1: T,
    /// If directed, the destination
    v2: T,
    /// The weight, or any label associated with the edge
    label: W,
    /// Whether the edge runs from `v1` to `v2` only
    directed: bool,
}

/// The number of pairs `u < v` below `v`: `v * (v - 1) / 2`.
pub open spec fn triangle(v: nat) -> nat {
    ((v * (v - 1)) / 2) as nat
}

/// The number of the undirected edge between `a` and `b`.
pub open spec fn edge_number(a: nat, b: nat) -> nat {
    if a <= b {
        triangle(b) + a
    } else {
        triangle(a) + b
    }
}

impl<T, W> Edge<T, W> {
    /// The first vertex.
    pub closed spec fn first(&self) -> T {
        self.v1
    }

    /// The second vertex.
    pub closed spec fn second(&self) -> T {
        self.v2
    }

    /// The label.
    pub closed spec fn spec_label(&self) -> W {
        self.label
    }

    /// Whether the edge is directed.
    pub closed spec fn is_directed(&self) -> bool {
        self.directed
    }
}

impl<T, W> Edge<T, W> where T: Eq + PartialOrd, W: Default {
    /// Creates an edge given two vertices
    pub fn init(v1: T, v2: T) -> (e: Self)
        ensures
            e.first() == v1,
            e.second() == v2,
            !e.is_directed(),
    {
        Self { v1, v2, label: W::default(), directed: false }
    }

    /// Creates a directed edge between two vertices
    pub fn init_directed(v1: T, v2: T) -> (e: Self)
        ensures
            e.first() == v1,
            e.second() == v2,
            e.is_directed(),
    {
        Self { v1, v2, label: W::default(), directed: true }
    }

    /// Whether the edge is directed.
    pub fn directed(&self) -> (d: bool)
        ensures
            d == self.is_directed(),
    {
        self.directed
    }

    /// Updates the label, or places in a label if none exists
    pub fn update_label(&mut self, new: W)
        ensures
            final(self).spec_label() == new,
            final(self).first() == old(self).first(),
            final(self).second() == old(self).second(),
            final(self).is_directed() == old(self).is_directed(),
    {
        self.label = new;
    }

    /// Determines whether a vertex is incident to an edge
    pub fn is_incident(&self, vertex: &T) -> (r: bool)
        ensures
            T::obeys_eq_spec() ==> r == (self.first().eq_spec(vertex) || self.second().eq_spec(
                vertex,
            )),
    {
        self.v1 == *vertex || self.v2 == *vertex
    }

    /// Returns the vertices indicent to an edge
    pub fn vertices(&self) -> (r: (&T, &T))
        ensures
            *r.0 == self.first(),
            *r.1 == self.second(),
    {
        (&self.v1, &self.v2)
    }

    /// Reverse the direction of the edge, but swapping v1 and v2
    pub fn reverse(self) -> (e: Self)
        ensures
            e.first() == self.second(),
            e.second() == self.first(),
            e.spec_label() == self.spec_label(),
            e.is_directed() == self.is_directed(),
    {
        Self { v1: self.v2, v2: self.v1, label: self.label, directed: self.directed }
    }
}

/// The destination of an edge, used in an adjacency list representation
#[derive(Debug, Clone, Hash, PartialEq, Eq)]
pub struct EdgeDestination<T, W> {
    pub destination: T,
    pub label: W,
}

impl<T, W> EdgeDestination<T, W> where W: Default {
    /// The destination with the given label.
    pub fn init_with_label(destination: T, label: W) -> (d: Self)
        ensures
            d.destination == destination,
            d.label == label,
    {
        Self { destination, label }
    }

    /// The destination with the default label.
    pub fn init(destination: T) -> (d: Self)
        ensures
            d.destination == destination,
    {
        Self { destination, label: W::default() }
    }
}

impl<T: Copy, W: Copy> EdgeDestination<T, W> {
    /// The destination of an edge, with the label of the edge.
    pub fn from(edge: &Edge<T, W>) -> (d: Self)
        ensures
            d.destination == edge.second(),
            d.label == edge.spec_label(),
    {
        EdgeDestination { destination: edge.v2, label: edge.label }
    }
}

/// Each vertex count adds its predecessor's pairs: `triangle(v + 1) == triangle(v) + v`.
pub proof fn lemma_triangle_step(v: nat)
    ensures
        triangle(v + 1) == triangle(v) + v,
{
    if v > 0 {
        assert((v + 1) * v == v * (v - 1) + 2 * v) by (nonlinear_arith)
            requires
                v > 0,
        ;
    } else {
        assert((v + 1) * v == 0) by (nonlinear_arith)
            requires
                v == 0,
        ;
        assert(v * (v - 1) == 0) by (nonlinear_arith)
            requires
                v == 0,
        ;
    }
}

/// `triangle` grows with its argument.
pub proof fn lemma_triangle_monotonic(a: nat, b: nat)
    requires
        a <= b,
    ensures
        triangle(a) <= triangle(b),
    decreases b - a,
{
    if a < b {
        lemma_triangle_monotonic(a, (b - 1) as nat);
        lemma_triangle_step((b - 1) as nat);
    }
}

/// Two pairs `u < v` with the same number are the same pair.
pub proof fn lemma_edge_number_injective(u1: nat, v1: nat, u2: nat, v2: nat)
    requires
        u1 < v1,
        u2 < v2,
        edge_number(u1, v1) == edge_number(u2, v2),
    ensures
        u1 == u2,
        v1 == v2,
{
    if v1 < v2 {
        lemma_triangle_step(v1);
        lemma_triangle_monotonic(v1 + 1, v2);
    } else if v2 < v1 {
        lemma_triangle_step(v2);
        lemma_triangle_monotonic(v2 + 1, v1);
    }
}

/// The edges among the vertices below `n` are exactly those numbered below
/// `triangle(n)`.
pub proof fn lemma_edge_number_range(u: nat, v: nat, n: nat)
    requires
        u < v,
    ensures
        v < n <==> edge_number(u, v) < triangle(n),
{
    lemma_triangle_step(v);
    if v < n {
        lemma_triangle_monotonic(v + 1, n);
    } else {
        lemma_triangle_monotonic(n, v);
    }
}

impl<W> Edge<u32, W> where W: Default {
    /// The number of the edge among the undirected edges, whichever way
    /// round its vertices are held.
    pub open spec fn number(&self) -> nat {
        edge_number(self.first() as nat, self.second() as nat)
    }

    /// Creates an edge from a 1-dimensional space value, assuming a total possible number of edges being n Choose 2
    ///
    /// Assumes default weight. The edge is the one pair `u < v` whose
    /// number is `d1`.
    pub fn from_d1(d1: u64) -> (e: Self)
        requires
            d1 < EDGE_NUMBERS,
        ensures
            e.first() < e.second(),
            e.number() == d1,
            !e.is_directed(),
    {
        let mut lo: u64 = 1;
        let mut hi: u64 = 0x1_0000_0000;
        proof {
            assert(triangle(1) == 0) by (nonlinear_arith);
            assert(triangle(0x1_0000_0000) == EDGE_NUMBERS) by (nonlinear_arith);
        }
        while hi - lo > 1
            invariant
                1 <= lo < hi <= 0x1_0000_0000,
                triangle(lo as nat) <= d1 < triangle(hi as nat),
            decreases hi - lo,
        {
            let mid: u64 = lo + (hi - lo) / 2;
            assert(mid * (mid - 1) <= 0x1_0000_0000 * 0xFFFF_FFFF) by (nonlinear_arith)
                requires
                    1 <= mid <= 0x1_0000_0000,
            ;
            let below: u64 = mid * (mid - 1) / 2;
            if below <= d1 {
                lo = mid;
            } else {
                hi = mid;
            }
        }
        assert(lo * (lo - 1) <= 0x1_0000_0000 * 0xFFFF_FFFF) by (nonlinear_arith)
            requires
                1 <= lo <= 0x1_0000_0000,
        ;
        let below: u64 = lo * (lo - 1) / 2;
        proof {
            lemma_triangle_step(lo as nat);
        }
        let min: u64 = d1 - below;
        Self { v1: min as u32, v2: lo as u32, label: W::default(), directed: false }
    }

    /// Converts an edge in `n Choose 2` space to `n` space, provided a number of vertices in the graph
    pub fn to_d1(&self) -> (d1: u64)
        ensures
            d1 == self.number(),
            d1 < EDGE_NUMBERS + 0xFFFF_FFFF,
    {
        let (min, max) = self.vertices_ord();
        Self::formula(min, max)
    }

    /// The two vertices, the smaller one first.
    pub fn vertices_ord(&self) -> (r: (&u32, &u32))
        ensures
            *r.0 <= *r.1,
            (*r.0 == self.first() && *r.1 == self.second()) || (*r.0 == self.second() && *r.1
                == self.first()),
    {
        if self.v1 <= self.v2 {
            (&self.v1, &self.v2)
        } else {
            (&self.v2, &self.v1)
        }
    }

    fn formula(min: &u32, max: &u32) -> (d1: u64)
        requires
            *min <= *max,
        ensures
            d1 == edge_number(*min as nat, *max as nat),
            d1 < EDGE_NUMBERS + 0xFFFF_FFFF,
    {
        if *max == 0 {
            assert(triangle(0) == 0) by (nonlinear_arith);
            return 0;
        }
        let m: u64 = *max as u64;
        assert(m * (m - 1) <= 0xFFFF_FFFF * 0xFFFF_FFFE) by (nonlinear_arith)
            requires
                1 <= m <= 0xFFFF_FFFF,
        ;
        m * (m - 1) / 2 + *min as u64
    }
}

} // verus!
