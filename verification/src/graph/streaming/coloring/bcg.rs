//! Coloring a stream with palettes sized for a guessed degeneracy.
//!
//! Each vertex draws a color from a palette. An edge whose two ends drew
//! the same color goes into a sparse recovery structure. When the stream
//! has ended, the edges that the structure gives back are colored again,
//! palette class by palette class, by the smallest-last colorer.

use std::collections::HashMap;
use vstd::prelude::*;

use crate::error::ParameterError;
use crate::graph::edge::{
    edge_number, lemma_edge_number_injective, lemma_edge_number_range, triangle, Edge,
    EDGE_NUMBERS,
};
use crate::graph::static_a::coloring::{proper, Colorer};
use crate::graph::streaming::sparse_recovery::one_sparse::{Fingerprint, MAX_DOMAIN, STREAM_LIMIT};
use crate::graph::streaming::sparse_recovery::s_sparse::{
    conflicting, fed_with, lemma_ceil_power_of_two, reported, saturated, silent, SparseRecovery,
};
use crate::graph::{loop_free, symmetric, with_arc, with_edge, GraphWithRecaller, Graphed};
use crate::utils::collections::map_keys;
use crate::utils::finite_field::bits;
use crate::utils::hash_function::{HashFunction, PowerFiniteFieldHasher};
use crate::utils::random::random_below;

verus! {

/// The color of a vertex: the batch that gave it, and its place in the
/// batch's palette.
pub type Color = (u64, u64);

/// The number of colors of the palette for `n` vertices, the guessed
/// degeneracy `k` and the sparsity `s`: `2 * n * k / s`, rounded up.
pub open spec fn palette_size_for(n: u32, k: u64, s: u64) -> int {
    (2 * n * k + s - 1) / (s as int)
}

/// The number of edges that `n` vertices can have.
pub open spec fn edge_domain(n: u32) -> nat {
    triangle(n as nat)
}

/// Whether the graph is one of the palette class `c`: its edges go both
/// ways, none joins a vertex to itself, and its vertices drew the color `c`.
pub open spec fn class_graph(colors: Seq<Color>, c: u64, adj: Map<u32, Set<u32>>) -> bool {
    &&& symmetric(adj)
    &&& loop_free(adj)
    &&& forall|w: u32| #[trigger] adj.contains_key(w) ==> w < colors.len() && colors[w as int] == (
        0u64,
        c,
    )
}

/// Whether the graph of the palette class of `u` holds the edge from `u` to
/// `v`.
pub open spec fn class_holds(classes: Map<u64, GraphWithRecaller>, c: u64, u: u32, v: u32) -> bool {
    &&& classes.contains_key(c)
    &&& classes[c].adjacency().contains_key(u)
    &&& classes[c].adjacency()[u].contains(v)
}

/// An edge between two vertices keeps a graph's edges going both ways and
/// none joining a vertex to itself.
proof fn lemma_with_edge_simple(adj: Map<u32, Set<u32>>, u: u32, v: u32)
    requires
        symmetric(adj),
        loop_free(adj),
        u != v,
    ensures
        symmetric(with_edge(adj, u, v, false)),
        loop_free(with_edge(adj, u, v, false)),
        with_edge(adj, u, v, false).dom() == adj.dom().insert(u).insert(v),
        with_edge(adj, u, v, false)[u].contains(v),
        with_edge(adj, u, v, false)[v].contains(u),
{
    let one = with_arc(adj, u, v);
    let two = with_edge(adj, u, v, false);
    assert(two.dom() =~= adj.dom().insert(u).insert(v));
    assert forall|a: u32, b: u32| two.contains_key(a) && #[trigger] two[a].contains(
        b,
    ) implies two.contains_key(b) && two[b].contains(a) by {
        if a == u && b == v {
        } else if a == v && b == u {
        } else {
            assert(adj.contains_key(a) && adj[a].contains(b));
        }
    }
}

/// The graph of each palette class that has a recovered edge: the edges
/// among the recovered ones whose two ends drew that color.
fn class_graphs(colors: &Vec<Color>, recovered: &HashMap<u64, i64>) -> (classes: HashMap<
    u64,
    GraphWithRecaller,
>)
    requires
        colors@.len() <= 0xFFFF_FFFF,
        forall|v: int| 0 <= v < colors@.len() ==> (#[trigger] colors@[v]).0 == 0,
    ensures
        forall|c: u64| #[trigger]
            classes@.contains_key(c) ==> classes@[c].wf() && class_graph(
                colors@,
                c,
                classes@[c].adjacency(),
            ),
        forall|u: u32, v: u32|
            u < v < colors@.len() && recovered@.contains_key(
                #[trigger] edge_number(u as nat, v as nat) as u64,
            ) && colors@[u as int] == colors@[v as int] ==> class_holds(
                classes@,
                colors@[u as int].1,
                u,
                v,
            ),
{
    broadcast use vstd::std_specs::hash::group_hash_axioms;

    let n = colors.len();
    let domain: u64 = if n == 0 {
        0
    } else {
        assert(n * (n - 1) <= 0xFFFF_FFFF * 0xFFFF_FFFE) by (nonlinear_arith)
            requires
                1 <= n <= 0xFFFF_FFFF,
        ;
        (n as u64) * ((n - 1) as u64) / 2
    };
    proof {
        assert(n == 0 ==> triangle(0) == 0) by (nonlinear_arith);
        assert(domain == triangle(n as nat));
        assert(triangle(0x1_0000_0000) == EDGE_NUMBERS) by (nonlinear_arith);
        crate::graph::edge::lemma_triangle_monotonic(n as nat, 0x1_0000_0000);
    }
    let numbers = map_keys(recovered);
    let mut classes: HashMap<u64, GraphWithRecaller> = HashMap::new();
    let mut at: usize = 0;
    while at < numbers.len()
        invariant
            at <= numbers@.len(),
            n == colors@.len(),
            n <= 0xFFFF_FFFF,
            domain == triangle(n as nat),
            domain <= EDGE_NUMBERS,
            numbers@.to_set() == recovered@.dom(),
            forall|v: int| 0 <= v < colors@.len() ==> (#[trigger] colors@[v]).0 == 0,
            forall|c: u64| #[trigger]
                classes@.contains_key(c) ==> classes@[c].wf() && class_graph(
                    colors@,
                    c,
                    classes@[c].adjacency(),
                ),
            forall|u: u32, v: u32, k: int|
                u < v < n && 0 <= k < at && #[trigger] numbers@[k] == #[trigger] edge_number(
                    u as nat,
                    v as nat,
                ) && colors@[u as int] == colors@[v as int] ==> class_holds(
                    classes@,
                    colors@[u as int].1,
                    u,
                    v,
                ),
        decreases numbers@.len() - at,
    {
        let d = numbers[at];
        let ghost before = classes@;
        if d < domain {
            let edge: Edge<u32, ()> = Edge::from_d1(d);
            let (u, v) = edge.vertices();
            let (u, v) = (*u, *v);
            proof {
                lemma_edge_number_range(u as nat, v as nat, n as nat);
            }
            let c_u = colors[u as usize];
            let c_v = colors[v as usize];
            if c_u.0 == c_v.0 && c_u.1 == c_v.1 {
                let c = c_u.1;
                let mut graph = match classes.remove(&c) {
                    Some(graph) => graph,
                    None => {
                        let graph = GraphWithRecaller::new(HashMap::new());
                        assert(graph.adjacency() =~= Map::<u32, Set<u32>>::empty());
                        graph
                    },
                };
                let ghost adj = graph.adjacency();
                graph.add_edge(edge);
                proof {
                    lemma_with_edge_simple(adj, u, v);
                }
                classes.insert(c, graph);
                proof {
                    assert forall|a: u32, b: u32, k: int|
                        a < b < n && 0 <= k < at + 1 && #[trigger] numbers@[k]
                            == #[trigger] edge_number(a as nat, b as nat) && colors@[a as int]
                            == colors@[b as int] implies class_holds(
                        classes@,
                        colors@[a as int].1,
                        a,
                        b,
                    ) by {
                        if k == at {
                            lemma_edge_number_injective(a as nat, b as nat, u as nat, v as nat);
                        } else {
                            assert(class_holds(before, colors@[a as int].1, a, b));
                            if colors@[a as int].1 == c {
                                assert(adj.contains_key(a) && adj[a].contains(b));
                            }
                        }
                    }
                }
            } else {
                proof {
                    assert forall|a: u32, b: u32, k: int|
                        a < b < n && 0 <= k < at + 1 && #[trigger] numbers@[k]
                            == #[trigger] edge_number(a as nat, b as nat) && colors@[a as int]
                            == colors@[b as int] implies class_holds(
                        classes@,
                        colors@[a as int].1,
                        a,
                        b,
                    ) by {
                        if k == at {
                            lemma_edge_number_injective(a as nat, b as nat, u as nat, v as nat);
                        }
                    }
                }
            }
        } else {
            proof {
                assert forall|a: u32, b: u32, k: int|
                    a < b < n && 0 <= k < at + 1 && #[trigger] numbers@[k]
                        == #[trigger] edge_number(a as nat, b as nat) && colors@[a as int]
                        == colors@[b as int] implies class_holds(
                    classes@,
                    colors@[a as int].1,
                    a,
                    b,
                ) by {
                    if k == at {
                        lemma_edge_number_range(a as nat, b as nat, n as nat);
                    }
                }
            }
        }
        at = at + 1;
    }
    proof {
        assert forall|u: u32, v: u32|
            u < v < colors@.len() && recovered@.contains_key(
                #[trigger] edge_number(u as nat, v as nat) as u64,
            ) && colors@[u as int] == colors@[v as int] implies class_holds(
            classes@,
            colors@[u as int].1,
            u,
            v,
        ) by {
            lemma_edge_number_range(u as nat, v as nat, n as nat);
            let d = edge_number(u as nat, v as nat) as u64;
            assert(numbers@.to_set().contains(d));
            let k = choose|k: int| 0 <= k < numbers@.len() && numbers@[k] == d;
            assert(numbers@[k] == edge_number(u as nat, v as nat));
        }
    }
    classes
}

/// The color of a vertex of the palette class `c` that the class's colorer
/// gave the color `color`: its first color if that is 0, and the color
/// `color` of the batch `c + 1` otherwise.
pub open spec fn recolored(c: u64, color: usize) -> Color {
    if color > 0 {
        ((c + 1) as u64, color as u64)
    } else {
        (0u64, c)
    }
}

/// Colors the vertices of one palette class again: the smallest-last
/// colorer colors the class's graph, and each vertex that it gives a color
/// other than 0 moves to the batch of the class.
fn recolor_class(
    out: &mut Vec<Color>,
    c: u64,
    graph: &GraphWithRecaller,
    colors: Ghost<Seq<Color>>,
)
    requires
        graph.wf(),
        class_graph(colors@, c, graph.adjacency()),
        old(out)@.len() == colors@.len(),
        colors@.len() <= 0xFFFF_FFFF,
        c < u64::MAX,
        forall|w: u32| #[trigger]
            graph.adjacency().contains_key(w) ==> old(out)@[w as int] == colors@[w as int],
    ensures
        final(out)@.len() == old(out)@.len(),
        forall|w: u32|
            w < old(out)@.len() && !graph.adjacency().contains_key(w)
                ==> #[trigger] final(out)@[w as int] == old(out)@[w as int],
        forall|w: u32| #[trigger]
            graph.adjacency().contains_key(w) ==> final(out)@[w as int] == colors@[w as int] || (
            final(out)@[w as int].0 == c + 1 && final(out)@[w as int].1 > 0),
        forall|u: u32, v: u32|
            graph.adjacency().contains_key(u) && #[trigger] graph.adjacency()[u].contains(v)
                ==> final(out)@[u as int] != final(out)@[v as int],
{
    broadcast use vstd::std_specs::hash::group_hash_axioms;

    let ghost adj = graph.adjacency();
    let coloring = graph.color_degeneracy();
    let vertices = map_keys(&coloring);
    let mut at: usize = 0;
    proof {
        assert forall|k: int| 0 <= k < vertices@.len() implies adj.contains_key(
            #[trigger] vertices@[k],
        ) by {
            assert(vertices@.to_set().contains(vertices@[k]));
        }
    }
    while at < vertices.len()
        invariant
            at <= vertices@.len(),
            vertices@.no_duplicates(),
            vertices@.to_set() == coloring@.dom(),
            coloring@.dom() == adj.dom(),
            class_graph(colors@, c, adj),
            c < u64::MAX,
            out@.len() == old(out)@.len(),
            out@.len() == colors@.len(),
            forall|k: int| 0 <= k < vertices@.len() ==> adj.contains_key(#[trigger] vertices@[k]),
            forall|w: u32|
                w < out@.len() && !adj.contains_key(w) ==> #[trigger] out@[w as int] == old(
                    out,
                )@[w as int],
            forall|k: int|
                0 <= k < at ==> out@[#[trigger] vertices@[k] as int] == recolored(
                    c,
                    coloring@[vertices@[k]],
                ),
            forall|k: int|
                at <= k < vertices@.len() ==> out@[#[trigger] vertices@[k] as int]
                    == colors@[vertices@[k] as int],
        decreases vertices@.len() - at,
    {
        let w = vertices[at];
        assert(vertices@.to_set().contains(vertices@[at as int]));
        assert(adj.contains_key(w));
        let color = *coloring.get(&w).unwrap();
        if color > 0 {
            out.set(w as usize, (c + 1, color as u64));
        }
        at = at + 1;
    }
    proof {
        assert forall|w: u32| #[trigger] adj.contains_key(w) implies out@[w as int] == recolored(
            c,
            coloring@[w],
        ) by {
            assert(vertices@.to_set().contains(w));
            let k = choose|k: int| 0 <= k < vertices@.len() && vertices@[k] == w;
            assert(out@[vertices@[k] as int] == recolored(c, coloring@[vertices@[k]]));
        }
        assert forall|u: u32, v: u32| adj.contains_key(u) && #[trigger] adj[u].contains(
            v,
        ) implies out@[u as int] != out@[v as int] by {
            assert(adj.contains_key(v));
            assert(proper(adj, coloring@));
            assert(coloring@[u] != coloring@[v]);
        }
    }
}

/// Colors the vertices again from the edges that the recovery gave back.
///
/// `colors` holds the color that each vertex drew, and `recovered` the
/// numbers of the edges. For each palette class the smallest-last colorer
/// colors the recovered edges whose two ends drew the class's color. A
/// vertex that it gives the color 0 keeps the color that it drew; another
/// moves to the batch of its class, which is the class's number and one, and
/// has there the color that the colorer gave it.
///
/// The two ends of a recovered edge come out with different colors, and so
/// do two vertices that drew different colors.
pub fn recolor(colors: Vec<Color>, recovered: &HashMap<u64, i64>) -> (out: Vec<Color>)
    requires
        colors@.len() <= 0xFFFF_FFFF,
        forall|v: int|
            0 <= v < colors@.len() ==> (#[trigger] colors@[v]).0 == 0 && colors@[v].1 < u64::MAX,
    ensures
        out@.len() == colors@.len(),
        forall|w: int|
            0 <= w < out@.len() ==> #[trigger] out@[w] == colors@[w] || (out@[w].0 == colors@[w].1
                + 1 && out@[w].1 > 0),
        forall|u: u32, v: u32|
            u < v < colors@.len() && recovered@.contains_key(
                #[trigger] edge_number(u as nat, v as nat) as u64,
            ) && colors@[u as int] == colors@[v as int] ==> out@[u as int] != out@[v as int],
{
    broadcast use vstd::std_specs::hash::group_hash_axioms;

    let classes = class_graphs(&colors, recovered);
    let numbers = map_keys(&classes);
    let ghost first = colors@;
    let mut out = colors;
    let mut at: usize = 0;
    while at < numbers.len()
        invariant
            at <= numbers@.len(),
            numbers@.no_duplicates(),
            numbers@.to_set() == classes@.dom(),
            out@.len() == first.len(),
            first.len() <= 0xFFFF_FFFF,
            forall|v: int|
                0 <= v < first.len() ==> (#[trigger] first[v]).0 == 0 && first[v].1 < u64::MAX,
            forall|c: u64| #[trigger]
                classes@.contains_key(c) ==> classes@[c].wf() && class_graph(
                    first,
                    c,
                    classes@[c].adjacency(),
                ),
            forall|w: int|
                0 <= w < out@.len() ==> #[trigger] out@[w] == first[w] || (out@[w].0 == first[w].1
                    + 1 && out@[w].1 > 0),
            forall|w: int|
                0 <= w < out@.len() && (forall|j: int| 0 <= j < at ==> numbers@[j] != first[w].1)
                    ==> #[trigger] out@[w] == first[w],
            forall|j: int, u: u32, v: u32|
                0 <= j < at && #[trigger] class_holds(classes@, numbers@[j], u, v) ==> out@[u as int]
                    != out@[v as int],
        decreases numbers@.len() - at,
    {
        let c = numbers[at];
        assert(numbers@.to_set().contains(numbers@[at as int]));
        let graph = classes.get(&c).unwrap();
        let ghost before = out@;
        proof {
            assert forall|w: u32| #[trigger] graph.adjacency().contains_key(w) implies out@[w as int]
                == first[w as int] by {
                assert(first[w as int] == (0u64, c));
                assert forall|j: int| 0 <= j < at implies numbers@[j] != first[w as int].1 by {
                    assert(numbers@[j] != numbers@[at as int]);
                }
            }
            assert(first[0].1 < u64::MAX ==> true);
            if graph.adjacency().dom().len() == 0 {
            }
        }
        if c < u64::MAX {
            recolor_class(&mut out, c, graph, Ghost(first));
            proof {
                assert forall|j: int, u: u32, v: u32|
                    0 <= j < at + 1 && #[trigger] class_holds(
                        classes@,
                        numbers@[j],
                        u,
                        v,
                    ) implies out@[u as int] != out@[v as int] by {
                    if j < at {
                        assert(numbers@[j] != numbers@[at as int]);
                        let g = classes@[numbers@[j]].adjacency();
                        assert(g.contains_key(u) && g[u].contains(v));
                        assert(g.contains_key(v));
                        assert(first[u as int].1 == numbers@[j]);
                        assert(first[v as int].1 == numbers@[j]);
                        assert(!graph.adjacency().contains_key(u));
                        assert(!graph.adjacency().contains_key(v));
                        assert(out@[u as int] == before[u as int]);
                        assert(out@[v as int] == before[v as int]);
                    }
                }
                assert forall|w: int|
                    0 <= w < out@.len() && (forall|j: int|
                        0 <= j < at + 1 ==> numbers@[j] != first[w].1) implies #[trigger] out@[w]
                    == first[w] by {
                    assert(numbers@[at as int] != first[w].1);
                    if graph.adjacency().contains_key(w as u32) {
                        assert(first[w as u32 as int].1 == c);
                    }
                    assert(out@[w as u32 as int] == before[w as u32 as int]);
                    assert forall|j: int| 0 <= j < at implies numbers@[j] != first[w].1 by {}
                }
                assert forall|w: int| 0 <= w < out@.len() implies #[trigger] out@[w] == first[w]
                    || (out@[w].0 == first[w].1 + 1 && out@[w].1 > 0) by {
                    let x = w as u32;
                    if graph.adjacency().contains_key(x) {
                        assert(first[x as int].1 == c);
                    } else {
                        assert(out@[x as int] == before[x as int]);
                    }
                }
            }
        } else {
            proof {
                assert forall|w: u32| !graph.adjacency().contains_key(w) by {
                    if graph.adjacency().contains_key(w) {
                        assert(first[w as int].1 == c);
                    }
                }
                assert forall|j: int, u: u32, v: u32|
                    0 <= j < at + 1 && #[trigger] class_holds(
                        classes@,
                        numbers@[j],
                        u,
                        v,
                    ) implies out@[u as int] != out@[v as int] by {}
                assert forall|w: int|
                    0 <= w < out@.len() && (forall|j: int|
                        0 <= j < at + 1 ==> numbers@[j] != first[w].1) implies #[trigger] out@[w]
                    == first[w] by {
                    assert forall|j: int| 0 <= j < at implies numbers@[j] != first[w].1 by {}
                }
            }
        }
        at = at + 1;
    }
    proof {
        assert forall|u: u32, v: u32|
            u < v < first.len() && recovered@.contains_key(
                #[trigger] edge_number(u as nat, v as nat) as u64,
            ) && first[u as int] == first[v as int] implies out@[u as int] != out@[v as int] by {
            let c = first[u as int].1;
            assert(class_holds(classes@, c, u, v));
            assert(numbers@.to_set().contains(c));
            let j = choose|j: int| 0 <= j < numbers@.len() && numbers@[j] == c;
            assert(class_holds(classes@, numbers@[j], u, v));
        }
    }
    out
}

/// Two vertices that drew different colors have different colors after
/// [`recolor`], whatever edges were recovered.
pub proof fn lemma_classes_stay_apart(first: Seq<Color>, out: Seq<Color>, u: int, v: int)
    requires
        out.len() == first.len(),
        0 <= u < first.len(),
        0 <= v < first.len(),
        first[u].0 == 0,
        first[v].0 == 0,
        first[u].1 < u64::MAX,
        first[v].1 < u64::MAX,
        out[u] == first[u] || (out[u].0 == first[u].1 + 1 && out[u].1 > 0),
        out[v] == first[v] || (out[v].0 == first[v].1 + 1 && out[v].1 > 0),
        first[u] != first[v],
    ensures
        out[u] != out[v],
{
}

/// Whether a cell of the recovery reports the edge between `u` and `v`.
pub open spec fn edge_reported(grid: Seq<Map<u64, Fingerprint>>, u: u32, v: u32) -> bool {
    exists|lambda: i64| #[trigger]
        reported(grid, lambda, edge_number(u as nat, v as nat) as u64)
}

/// A sketch of a stream of edges for one guessed degeneracy.
pub struct StreamColoring {
    /// The number of vertices
    n: u32,
    /// The sparsity of the recovery
    s: u64,
    /// The number of colors of the palette
    palette_size: u64,
    /// The color of each vertex
    colors: Vec<Color>,
    /// The edges whose two ends have one color
    recovery: SparseRecovery<PowerFiniteFieldHasher>,
}

impl StreamColoring {
    /// The number of vertices.
    pub closed spec fn vertices(&self) -> u32 {
        self.n
    }

    /// The sparsity of the recovery.
    pub closed spec fn sparsity(&self) -> u64 {
        self.s
    }

    /// The number of colors of the palette.
    pub closed spec fn palette(&self) -> u64 {
        self.palette_size
    }

    /// The color of each vertex.
    pub closed spec fn colors(&self) -> Seq<Color> {
        self.colors@
    }

    /// The structure that holds the edges whose two ends have one color.
    pub closed spec fn recovery(&self) -> SparseRecovery<PowerFiniteFieldHasher> {
        self.recovery
    }

    /// Every vertex has a color of the palette, and the recovery is one
    /// over the edges that the vertices can have.
    pub closed spec fn wf(&self) -> bool {
        &&& self.n >= 2
        &&& self.s >= 1
        &&& self.palette_size >= 1
        &&& self.colors@.len() == self.n
        &&& forall|v: int|
            0 <= v < self.colors@.len() ==> (#[trigger] self.colors@[v]).0 == 0 && self.colors@[v].1
                < self.palette_size
        &&& self.recovery.wf()
        &&& self.recovery.domain() == edge_domain(self.n)
        &&& self.recovery.domain() <= MAX_DOMAIN
    }

    /// What a well-formed sketch shows of itself.
    pub proof fn lemma_wf(&self)
        requires
            self.wf(),
        ensures
            self.vertices() >= 2,
            self.palette() >= 1,
            self.colors().len() == self.vertices(),
            forall|v: int|
                0 <= v < self.colors().len() ==> (#[trigger] self.colors()[v]).0 == 0
                    && self.colors()[v].1 < self.palette(),
            self.recovery().wf(),
            self.recovery().domain() == edge_domain(self.vertices()),
    {
    }

    /// The number of edges that `n` vertices can have.
    fn domain_of(n: u32) -> (domain: u64)
        ensures
            domain == edge_domain(n),
            domain <= EDGE_NUMBERS,
    {
        if n == 0 {
            assert(triangle(0) == 0) by (nonlinear_arith);
            return 0;
        }
        let m: u64 = n as u64;
        assert(m * (m - 1) <= 0xFFFF_FFFF * 0xFFFF_FFFE) by (nonlinear_arith)
            requires
                1 <= m <= 0xFFFF_FFFF,
        ;
        m * (m - 1) / 2
    }

    /// The number of colors of the palette, where it fits a `u64`.
    fn palette_of(n: u32, k: u64, s: u64) -> (size: Option<u64>)
        requires
            s > 0,
        ensures
            size is Some <==> 2 * n * k <= u64::MAX,
            size matches Some(size) ==> size == palette_size_for(n, k, s),
            size matches Some(size) ==> (size >= 1 <==> n > 0 && k > 0),
    {
        assert(2 * n * k <= 2 * 0xFFFF_FFFF * 0xFFFF_FFFF_FFFF_FFFF) by (nonlinear_arith)
            requires
                n <= 0xFFFF_FFFF,
                k <= 0xFFFF_FFFF_FFFF_FFFF,
        ;
        assert(2 * n * k >= 0) by (nonlinear_arith);
        let pairs: u128 = 2 * (n as u128) * (k as u128);
        if pairs > u64::MAX as u128 {
            return None;
        }
        let size: u128 = (pairs + (s as u128) - 1) / (s as u128);
        proof {
            let total = (pairs + s - 1) as int;
            vstd::arithmetic::div_mod::lemma_fundamental_div_mod(total, s as int);
            vstd::arithmetic::div_mod::lemma_mod_bound(total, s as int);
            assert(size * s <= total) by (nonlinear_arith)
                requires
                    total == s * size + total % (s as int),
                    0 <= total % (s as int),
            ;
            assert(size <= pairs) by (nonlinear_arith)
                requires
                    size * s <= pairs + s - 1,
                    s >= 1,
                    size >= 0,
            ;
            assert(size >= 1 <==> pairs >= 1) by (nonlinear_arith)
                requires
                    total == s * size + total % (s as int),
                    0 <= total % (s as int) < s,
                    total == pairs + s - 1,
                    size >= 0,
                    pairs >= 0,
            ;
            assert(pairs >= 1 <==> n > 0 && k > 0) by (nonlinear_arith)
                requires
                    pairs == 2 * n * k,
            ;
        }
        Some(size as u64)
    }

    /// A color of the palette for each of `n` vertices, drawn at random.
    fn draw_colors(n: u32, palette_size: u64) -> (colors: Vec<Color>)
        requires
            palette_size >= 1,
        ensures
            colors@.len() == n,
            forall|v: int|
                0 <= v < colors@.len() ==> (#[trigger] colors@[v]).0 == 0 && colors@[v].1
                    < palette_size,
    {
        let mut colors: Vec<Color> = Vec::new();
        let mut v: u32 = 0;
        while v < n
            invariant
                v <= n,
                palette_size >= 1,
                colors@.len() == v,
                forall|w: int|
                    0 <= w < colors@.len() ==> (#[trigger] colors@[w]).0 == 0 && colors@[w].1
                        < palette_size,
            decreases n - v,
        {
            colors.push((0, random_below(palette_size)));
            v = v + 1;
        }
        colors
    }

    /// A sketch for `n` vertices and the guessed degeneracy `k`, with the
    /// sparsity `s` and the failure probability `delta_num / delta_den`.
    ///
    /// The palette has `2 * n * k / s` colors, rounded up, and every vertex
    /// draws one of them at random. The recovery is one over the edges that
    /// `n` vertices can have.
    pub fn init(n: u32, k: u64, s: u64, delta_num: u64, delta_den: u64) -> (made: Result<
        Self,
        ParameterError,
    >)
        ensures
            n < 2 ==> made == Err::<Self, ParameterError>(ParameterError::EmptyDomain),
            n >= 2 && k == 0 ==> made == Err::<Self, ParameterError>(ParameterError::ZeroDegeneracy),
            n >= 2 && k > 0 && s == 0 ==> made == Err::<Self, ParameterError>(
                ParameterError::ZeroSparsity,
            ),
            n >= 2 && k > 0 && s > 0 && !(0 < delta_num < delta_den) ==> made == Err::<
                Self,
                ParameterError,
            >(ParameterError::FailureProbability),
            n >= 2 && k > 0 && s > 0 && 0 < delta_num < delta_den && edge_domain(n) > MAX_DOMAIN
                ==> made == Err::<Self, ParameterError>(ParameterError::DomainTooLarge),
            n >= 2 && k > 0 && s > 0 && 0 < delta_num < delta_den && edge_domain(n) <= MAX_DOMAIN
                && 2 * n * k > u64::MAX ==> made == Err::<Self, ParameterError>(
                ParameterError::DegeneracyTooLarge,
            ),
            n >= 2 && k > 0 && s > 0 && 0 < delta_num < delta_den && edge_domain(n) <= MAX_DOMAIN
                && 2 * n * k <= u64::MAX ==> (made matches Err(e) ==> e
                == ParameterError::NoPrime),
            made matches Ok(made) ==> {
                &&& made.wf()
                &&& made.vertices() == n
                &&& made.sparsity() == s
                &&& made.palette() == palette_size_for(n, k, s)
                &&& made.recovery().tokens() == 0
                &&& made.recovery().sparsity() == if edge_domain(n) < s {
                    edge_domain(n) as u64
                } else {
                    s
                }
                &&& forall|row: int|
                    0 <= row < made.recovery().grid().len() ==> (
                    #[trigger] made.recovery().grid()[row]) == Map::<u64, Fingerprint>::empty()
            },
    {
        if n < 2 {
            return Err(ParameterError::EmptyDomain);
        }
        if k == 0 {
            return Err(ParameterError::ZeroDegeneracy);
        }
        if s == 0 {
            return Err(ParameterError::ZeroSparsity);
        }
        if !(0 < delta_num && delta_num < delta_den) {
            return Err(ParameterError::FailureProbability);
        }
        let domain = Self::domain_of(n);
        if domain > MAX_DOMAIN {
            return Err(ParameterError::DomainTooLarge);
        }
        let palette_size = match Self::palette_of(n, k, s) {
            Some(size) => size,
            None => {
                return Err(ParameterError::DegeneracyTooLarge);
            },
        };
        proof {
            assert(triangle(2) == 1) by (nonlinear_arith);
            crate::graph::edge::lemma_triangle_monotonic(2, n as nat);
        }
        let sparsity = if domain < s {
            domain
        } else {
            s
        };
        proof {
            lemma_ceil_power_of_two(domain);
            lemma_ceil_power_of_two((2 * sparsity) as u64);
        }
        let recovery = match SparseRecovery::<PowerFiniteFieldHasher>::init(
            domain,
            s,
            delta_num,
            delta_den,
        ) {
            Ok(recovery) => recovery,
            Err(e) => {
                return Err(e);
            },
        };
        let colors = Self::draw_colors(n, palette_size);
        Ok(Self { n, s, palette_size, colors, recovery })
    }

    /// A fresh sketch for another guess `k` of the degeneracy, if its
    /// palette has another size than this one's. It has the vertices, the
    /// sparsity and the field of this sketch, and hash functions and colors
    /// of its own.
    pub fn new_k(&self, n: u32, k: u64) -> (made: Option<Self>)
        requires
            self.wf(),
        ensures
            made is Some <==> n == self.vertices() && k > 0 && 2 * n * k <= u64::MAX
                && palette_size_for(n, k, self.sparsity()) != self.palette(),
            made matches Some(made) ==> {
                &&& made.wf()
                &&& made.vertices() == n
                &&& made.sparsity() == self.sparsity()
                &&& made.palette() == palette_size_for(n, k, self.sparsity())
                &&& made.recovery().tokens() == 0
                &&& made.recovery().sparsity() == self.recovery().sparsity()
                &&& made.recovery().order() == self.recovery().order()
                &&& made.recovery().grid().len() == self.recovery().grid().len()
                &&& forall|row: int|
                    0 <= row < made.recovery().grid().len() ==> (
                    #[trigger] made.recovery().grid()[row]) == Map::<u64, Fingerprint>::empty()
            },
    {
        if n != self.n || k == 0 {
            return None;
        }
        let palette_size = match Self::palette_of(n, k, self.s) {
            Some(size) => size,
            None => {
                return None;
            },
        };
        if palette_size == self.palette_size {
            return None;
        }
        let recovery = self.recovery.renewed();
        let colors = Self::draw_colors(n, palette_size);
        Some(Self { n, s: self.s, palette_size, colors, recovery })
    }

    /// The number of vertices.
    pub fn vertex_count(&self) -> (n: u32)
        ensures
            n == self.vertices(),
    {
        self.n
    }

    /// The number of colors of the palette.
    pub fn palette_size(&self) -> (size: u64)
        ensures
            size == self.palette(),
    {
        self.palette_size
    }

    /// The number of tokens that the recovery has been fed.
    pub fn tokens_fed(&self) -> (fed: u64)
        ensures
            fed == self.recovery().tokens(),
    {
        self.recovery.tokens_fed()
    }

    /// What feeding an edge does to a sketch and answers: the sketch keeps
    /// its vertices and their colors. A malformed edge is refused, and so is
    /// any edge once the recovery has taken as many as it can count; the
    /// recovery is then as it was. An edge whose two ends have different
    /// colors leaves the recovery as it was too, and an edge whose two ends
    /// have one color goes to the recovery under its number.
    pub open spec fn feeds(
        before: Self,
        after: Self,
        edge: Edge<u32, ()>,
        ins: bool,
        fed: Result<(), ParameterError>,
    ) -> bool {
        let u = edge.first();
        let v = edge.second();
        let n = before.vertices();
        &&& after.vertices() == before.vertices()
        &&& after.sparsity() == before.sparsity()
        &&& after.palette() == before.palette()
        &&& after.colors() == before.colors()
        &&& if u == v || u >= n || v >= n {
            &&& fed == Err::<(), ParameterError>(ParameterError::MalformedEdge)
            &&& after.recovery() == before.recovery()
        } else if before.recovery().tokens() >= STREAM_LIMIT {
            &&& fed == Err::<(), ParameterError>(ParameterError::StreamTooLong)
            &&& after.recovery() == before.recovery()
        } else if before.colors()[u as int] != before.colors()[v as int] {
            &&& fed == Ok::<(), ParameterError>(())
            &&& after.recovery() == before.recovery()
        } else {
            &&& fed == Ok::<(), ParameterError>(())
            &&& fed_with(before.recovery(), after.recovery(), (edge.number() as u64, ins))
        }
    }

    /// Whether a query of the sketch gives no coloring: whether two cells of
    /// its recovery contradict each other, or its cells report more edges
    /// than the sparsity, or none.
    pub open spec fn fails(&self) -> bool {
        conflicting(self.recovery().grid()) || saturated(
            self.recovery().grid(),
            self.recovery().sparsity(),
        ) || silent(self.recovery().grid())
    }

    /// Takes an edge of the stream, inserted or deleted. If its two ends
    /// have one color, the edge goes to the recovery under its number.
    ///
    /// An edge that joins a vertex to itself or has a vertex that is none
    /// of the sketch's is refused, and so is any edge once the recovery
    /// has taken as many as it can count.
    pub fn feed(&mut self, edge: Edge<u32, ()>, ins: bool) -> (fed: Result<(), ParameterError>)
        requires
            old(self).wf(),
        ensures
            final(self).wf(),
            Self::feeds(*old(self), *final(self), edge, ins, fed),
    {
        let (u, v) = edge.vertices();
        let (u, v) = (*u, *v);
        if u == v || u >= self.n || v >= self.n {
            return Err(ParameterError::MalformedEdge);
        }
        if self.recovery.tokens_fed() >= STREAM_LIMIT {
            return Err(ParameterError::StreamTooLong);
        }
        let c_u = self.colors[u as usize];
        let c_v = self.colors[v as usize];
        if c_u.0 == c_v.0 && c_u.1 == c_v.1 {
            let d = edge.to_d1();
            proof {
                if u < v {
                    lemma_edge_number_range(u as nat, v as nat, self.n as nat);
                } else {
                    lemma_edge_number_range(v as nat, u as nat, self.n as nat);
                }
            }
            self.recovery.feed((d, ins));
        }
        Ok(())
    }

    /// Whether `out` is a coloring that a query of the sketch can give: it
    /// colors the sketch's vertices, a vertex keeps the color that it drew
    /// or moves to the batch of its class, and the two ends of an edge that
    /// a cell of the recovery reports have different colors if they drew
    /// the same.
    pub open spec fn colored_by(&self, out: Seq<Color>) -> bool {
        &&& out.len() == self.vertices()
        &&& forall|w: int|
            0 <= w < out.len() ==> #[trigger] out[w] == self.colors()[w] || (out[w].0
                == self.colors()[w].1 + 1 && out[w].1 > 0)
        &&& forall|u: u32, v: u32|
            u < v < self.vertices() && #[trigger] edge_reported(self.recovery().grid(), u, v)
                && self.colors()[u as int] == self.colors()[v as int] ==> out[u as int]
                != out[v as int]
    }

    /// The coloring of the vertices, or `None` if the recovery fails: if two
    /// of its cells contradict each other, if they report more edges than
    /// the sparsity, or if they report none.
    ///
    /// The edges that the recovery gives back are colored again by
    /// [`recolor`].
    pub fn query(self) -> (out: Option<Vec<Color>>)
        requires
            self.wf(),
        ensures
            out is None <==> self.fails(),
            out matches Some(coloring) ==> self.colored_by(coloring@),
    {
        let recovered = match self.recovery.peek() {
            Some(recovered) => recovered,
            None => {
                return None;
            },
        };
        let coloring = recolor(self.colors, &recovered);
        proof {
            assert forall|u: u32, v: u32|
                u < v < self.vertices() && #[trigger] edge_reported(self.recovery().grid(), u, v)
                    && self.colors()[u as int] == self.colors()[v as int] implies coloring@[u as int]
                != coloring@[v as int] by {
                let d = edge_number(u as nat, v as nat) as u64;
                let lambda = choose|lambda: i64| #[trigger]
                    reported(self.recovery().grid(), lambda, d);
                assert(recovered@.contains_key(d));
            }
        }
        Some(coloring)
    }
}

/// A coloring that a query gives is proper for every graph whose edges
/// between vertices of one drawn color are all reported by the recovery.
///
/// `edges` holds the edges of the graph, each as the pair of its smaller
/// and its larger vertex.
pub proof fn lemma_query_colors_properly(
    sketch: StreamColoring,
    out: Seq<Color>,
    edges: Set<(u32, u32)>,
)
    requires
        sketch.wf(),
        sketch.colored_by(out),
        forall|e: (u32, u32)| #[trigger] edges.contains(e) ==> e.0 < e.1 < sketch.vertices(),
        forall|e: (u32, u32)|
            #[trigger] edges.contains(e) && sketch.colors()[e.0 as int] == sketch.colors()[e.1 as int]
                ==> edge_reported(sketch.recovery().grid(), e.0, e.1),
    ensures
        forall|e: (u32, u32)| #[trigger] edges.contains(e) ==> out[e.0 as int] != out[e.1 as int],
{
    sketch.lemma_wf();
    assert forall|e: (u32, u32)| #[trigger] edges.contains(e) implies out[e.0 as int]
        != out[e.1 as int] by {
        let u = e.0;
        let v = e.1;
        if sketch.colors()[u as int] == sketch.colors()[v as int] {
            assert(edge_reported(sketch.recovery().grid(), u, v));
        } else {
            lemma_classes_stay_apart(sketch.colors(), out, u as int, v as int);
        }
    }
}

/// The number of different colors of a coloring.
pub fn count_colors(coloring: &Vec<Color>) -> (count: usize)
    ensures
        count == coloring@.to_set().len(),
{
    let mut count: usize = 0;
    let mut at: usize = 0;
    proof {
        assert(coloring@.take(0).to_set() =~= Set::<Color>::empty());
    }
    while at < coloring.len()
        invariant
            at <= coloring@.len(),
            count <= at,
            coloring@.take(at as int).to_set().finite(),
            count == coloring@.take(at as int).to_set().len(),
        decreases coloring@.len() - at,
    {
        let color = coloring[at];
        let mut seen = false;
        let mut j: usize = 0;
        while j < at
            invariant
                j <= at < coloring@.len(),
                color == coloring@[at as int],
                seen <==> exists|k: int| 0 <= k < j && coloring@[k] == color,
            decreases at - j,
        {
            let other = coloring[j];
            if other.0 == color.0 && other.1 == color.1 {
                seen = true;
            }
            j = j + 1;
        }
        proof {
            let before = coloring@.take(at as int);
            let after = coloring@.take(at + 1);
            assert(after =~= before.push(color));
            assert(after.to_set() =~= before.to_set().insert(color)) by {
                assert forall|c: Color| after.to_set().contains(c) <==> before.to_set().insert(
                    color,
                ).contains(c) by {
                    if after.to_set().contains(c) {
                        let k = choose|k: int| 0 <= k < after.len() && after[k] == c;
                        if k < at {
                            assert(before[k] == c);
                        }
                    }
                    if before.to_set().contains(c) {
                        let k = choose|k: int| 0 <= k < before.len() && before[k] == c;
                        assert(after[k] == c);
                    }
                    if c == color {
                        assert(after[at as int] == c);
                    }
                }
            }
            if seen {
                let k = choose|k: int| 0 <= k < at && coloring@[k] == color;
                assert(before[k] == color);
                assert(before.to_set().contains(color));
            } else {
                if before.to_set().contains(color) {
                    let k = choose|k: int| 0 <= k < before.len() && before[k] == color;
                    assert(coloring@[k] == color);
                }
            }
        }
        if !seen {
            count = count + 1;
        }
        at = at + 1;
    }
    proof {
        assert(coloring@.take(at as int) =~= coloring@);
    }
    count
}

/// The sketches for the guesses 1, 2, 4, ... of the degeneracy, fed
/// together and asked together.
pub struct ColoringEngine {
    sketches: Vec<StreamColoring>,
}

impl ColoringEngine {
    /// The sketches, that for the guess 1 first.
    pub closed spec fn sketches(&self) -> Seq<StreamColoring> {
        self.sketches@
    }

    /// There is a sketch, and the sketches are well formed and for the same
    /// vertices.
    pub open spec fn wf(&self) -> bool {
        &&& self.sketches().len() >= 1
        &&& forall|i: int|
            0 <= i < self.sketches().len() ==> (#[trigger] self.sketches()[i]).wf()
                && self.sketches()[i].vertices() == self.sketches()[0].vertices()
    }

    /// The sketches for `n` vertices with the sparsity `s` and the failure
    /// probability `delta_num / delta_den`: one for the guess 1, and one for
    /// each of the guesses 2, 4, ... below `n` whose palette has another
    /// size than that of the first.
    pub fn init(n: u32, s: u64, delta_num: u64, delta_den: u64) -> (made: Result<
        Self,
        ParameterError,
    >)
        ensures
            n < 2 ==> made == Err::<Self, ParameterError>(ParameterError::EmptyDomain),
            n >= 2 && s == 0 ==> made == Err::<Self, ParameterError>(ParameterError::ZeroSparsity),
            n >= 2 && s > 0 && !(0 < delta_num < delta_den) ==> made == Err::<
                Self,
                ParameterError,
            >(ParameterError::FailureProbability),
            n >= 2 && s > 0 && 0 < delta_num < delta_den && edge_domain(n) > MAX_DOMAIN ==> made
                == Err::<Self, ParameterError>(ParameterError::DomainTooLarge),
            n >= 2 && s > 0 && 0 < delta_num < delta_den && edge_domain(n) <= MAX_DOMAIN ==> (
            made matches Err(e) ==> e == ParameterError::NoPrime),
            made matches Ok(made) ==> {
                &&& made.wf()
                &&& made.sketches().len() <= 32
                &&& made.sketches()[0].palette() == palette_size_for(n, 1, s)
                &&& forall|i: int|
                    0 <= i < made.sketches().len() ==> {
                        &&& (#[trigger] made.sketches()[i]).vertices() == n
                        &&& made.sketches()[i].sparsity() == s
                        &&& made.sketches()[i].recovery().tokens() == 0
                    }
            },
    {
        let base = match StreamColoring::init(n, 1, s, delta_num, delta_den) {
            Ok(base) => base,
            Err(e) => {
                return Err(e);
            },
        };
        let width = bits(&(n as u64));
        assert(2 <= width <= 32) by (bit_vector)
            requires
                2 <= n <= 0xFFFF_FFFF,
                width <= 64,
                width < 64 ==> (n as u64) >> width == 0,
                width > 0 ==> ((n as u64) >> ((width - 1) as u64)) & 1 == 1,
        ;
        let levels = width - 1;
        let mut others: Vec<StreamColoring> = Vec::new();
        let mut i: u64 = 1;
        while i < levels
            invariant
                1 <= i,
                i <= levels || i == 1,
                levels <= 31,
                base.wf(),
                base.vertices() == n,
                base.sparsity() == s,
                others@.len() < i,
                forall|j: int|
                    0 <= j < others@.len() ==> {
                        &&& (#[trigger] others@[j]).wf()
                        &&& others@[j].vertices() == n
                        &&& others@[j].sparsity() == s
                        &&& others@[j].recovery().tokens() == 0
                    },
            decreases levels - i,
        {
            let k: u64 = 1u64 << i;
            match base.new_k(n, k) {
                Some(sketch) => {
                    others.push(sketch);
                },
                None => {},
            }
            i = i + 1;
        }
        let mut sketches: Vec<StreamColoring> = Vec::new();
        sketches.push(base);
        let ghost rest = others@;
        sketches.append(&mut others);
        let made = Self { sketches };
        proof {
            assert(made.sketches() =~= seq![base] + rest);
            assert(made.sketches()[0] == base);
            assert forall|j: int| 0 <= j < made.sketches().len() implies {
                &&& (#[trigger] made.sketches()[j]).wf()
                &&& made.sketches()[j].vertices() == n
                &&& made.sketches()[j].sparsity() == s
                &&& made.sketches()[j].recovery().tokens() == 0
            } by {
                if j > 0 {
                    assert(made.sketches()[j] == rest[j - 1]);
                }
            }
        }
        Ok(made)
    }

    /// The number of sketches.
    pub fn len(&self) -> (n: usize)
        ensures
            n == self.sketches().len(),
    {
        self.sketches.len()
    }

    /// Feeds an edge of the stream, inserted or deleted, to every sketch.
    ///
    /// A malformed edge is refused, and so is any edge once a sketch has
    /// taken as many as it can count. No sketch takes an edge that is
    /// refused.
    pub fn feed(&mut self, edge: Edge<u32, ()>, ins: bool) -> (fed: Result<(), ParameterError>)
        requires
            old(self).wf(),
        ensures
            final(self).wf(),
            final(self).sketches().len() == old(self).sketches().len(),
            ({
                let u = edge.first();
                let v = edge.second();
                let n = old(self).sketches()[0].vertices();
                if u == v || u >= n || v >= n {
                    &&& fed == Err::<(), ParameterError>(ParameterError::MalformedEdge)
                    &&& final(self).sketches() == old(self).sketches()
                } else if exists|i: int|
                    0 <= i < old(self).sketches().len() && (#[trigger] old(
                        self,
                    ).sketches()[i]).recovery().tokens() >= STREAM_LIMIT {
                    &&& fed == Err::<(), ParameterError>(ParameterError::StreamTooLong)
                    &&& final(self).sketches() == old(self).sketches()
                } else {
                    &&& fed == Ok::<(), ParameterError>(())
                    &&& forall|i: int|
                        0 <= i < old(self).sketches().len() ==> StreamColoring::feeds(
                            old(self).sketches()[i],
                            #[trigger] final(self).sketches()[i],
                            edge,
                            ins,
                            Ok(()),
                        )
                }
            }),
    {
        let (u, v) = edge.vertices();
        let (u, v) = (*u, *v);
        let n = self.sketches[0].vertex_count();
        if u == v || u >= n || v >= n {
            return Err(ParameterError::MalformedEdge);
        }
        let mut i: usize = 0;
        while i < self.sketches.len()
            invariant
                i <= self.sketches@.len(),
                *self == *old(self),
                old(self).wf(),
                n == old(self).sketches()[0].vertices(),
                u == edge.first() && v == edge.second(),
                u != v && u < n && v < n,
                forall|j: int|
                    0 <= j < i ==> (#[trigger] self.sketches@[j]).recovery().tokens()
                        < STREAM_LIMIT,
            decreases self.sketches@.len() - i,
        {
            if self.sketches[i].tokens_fed() >= STREAM_LIMIT {
                assert(old(self).sketches()[i as int].recovery().tokens() >= STREAM_LIMIT);
                return Err(ParameterError::StreamTooLong);
            }
            i = i + 1;
        }
        let ghost before = self.sketches@;
        let mut i: usize = 0;
        while i < self.sketches.len()
            invariant
                i <= self.sketches@.len(),
                self.sketches@.len() == before.len(),
                before.len() >= 1,
                n == before[0].vertices(),
                u != v && u < n && v < n,
                u == edge.first() && v == edge.second(),
                forall|j: int|
                    0 <= j < before.len() ==> (#[trigger] before[j]).wf() && before[j].vertices()
                        == n && before[j].recovery().tokens() < STREAM_LIMIT,
                forall|j: int| i <= j < before.len() ==> #[trigger] self.sketches@[j] == before[j],
                forall|j: int|
                    0 <= j < i ==> (#[trigger] self.sketches@[j]).wf() && StreamColoring::feeds(
                        before[j],
                        self.sketches@[j],
                        edge,
                        ins,
                        Ok(()),
                    ),
            decreases self.sketches@.len() - i,
        {
            let _ = self.sketches[i].feed(edge, ins);
            i = i + 1;
        }
        Ok(())
    }

    /// Whether `result` is what a query of the sketch can give.
    pub open spec fn answered(sketch: StreamColoring, result: Option<Vec<Color>>) -> bool {
        &&& result is None <==> sketch.fails()
        &&& result matches Some(coloring) ==> sketch.colored_by(coloring@)
    }

    /// The coloring with the fewest colors among those that the sketches
    /// give, or `None` if no sketch gives one.
    ///
    /// Every sketch is asked, and [`fewest_colors`] picks among their
    /// answers.
    pub fn query(self) -> (out: Option<Vec<Color>>)
        requires
            self.wf(),
        ensures
            exists|results: Seq<Option<Vec<Color>>>|
                {
                    &&& results.len() == self.sketches().len()
                    &&& forall|i: int|
                        0 <= i < results.len() ==> Self::answered(
                            self.sketches()[i],
                            #[trigger] results[i],
                        )
                    &&& out == match #[trigger] fewest(results, results.len() as int) {
                        Some(best) => results[best],
                        None => None,
                    }
                },
            out is None <==> forall|i: int|
                0 <= i < self.sketches().len() ==> (#[trigger] self.sketches()[i]).fails(),
            out matches Some(coloring) ==> exists|i: int|
                0 <= i < self.sketches().len() && !(#[trigger] self.sketches()[i]).fails()
                    && self.sketches()[i].colored_by(coloring@),
    {
        let ghost all = self.sketches@;
        let mut sketches = self.sketches;
        let mut rest: Vec<StreamColoring> = Vec::new();
        while sketches.len() > 0
            invariant
                sketches@.len() <= all.len(),
                forall|i: int| 0 <= i < sketches@.len() ==> #[trigger] sketches@[i] == all[i],
                rest@.len() + sketches@.len() == all.len(),
                forall|i: int|
                    0 <= i < rest@.len() ==> #[trigger] rest@[i] == all[all.len() - 1 - i],
            decreases sketches@.len(),
        {
            let sketch = sketches.pop().unwrap();
            rest.push(sketch);
        }
        let mut results: Vec<Option<Vec<Color>>> = Vec::new();
        while rest.len() > 0
            invariant
                rest@.len() + results@.len() == all.len(),
                forall|i: int| 0 <= i < all.len() ==> (#[trigger] all[i]).wf(),
                forall|i: int|
                    0 <= i < rest@.len() ==> #[trigger] rest@[i] == all[all.len() - 1 - i],
                forall|i: int|
                    0 <= i < results@.len() ==> Self::answered(all[i], #[trigger] results@[i]),
            decreases rest@.len(),
        {
            let ghost at = results@.len() as int;
            let sketch = rest.pop().unwrap();
            assert(sketch == all[at]);
            let result = sketch.query();
            results.push(result);
        }
        let ghost answers = results@;
        proof {
            lemma_fewest_is_least(answers, answers.len() as int);
        }
        let out = fewest_colors(results);
        proof {
            match fewest(answers, answers.len() as int) {
                Some(best) => {
                    assert(Self::answered(all[best], answers[best]));
                },
                None => {
                    assert forall|i: int| 0 <= i < all.len() implies (#[trigger] all[i]).fails() by {
                        assert(Self::answered(all[i], answers[i]));
                    }
                },
            }
            if forall|i: int| 0 <= i < all.len() ==> (#[trigger] all[i]).fails() {
                if fewest(answers, answers.len() as int) is Some {
                    let best = fewest(answers, answers.len() as int)->Some_0;
                    assert(Self::answered(all[best], answers[best]));
                    assert(all[best].fails());
                }
            }
        }
        out
    }
}

/// The number of different colors of a coloring.
pub open spec fn distinct(coloring: Seq<Color>) -> nat {
    coloring.to_set().len()
}

/// The place of the coloring with the fewest colors among the first `upto`
/// of the results, the first of several with as few, or `None` if none of
/// them holds a coloring.
pub open spec fn fewest(results: Seq<Option<Vec<Color>>>, upto: int) -> Option<int>
    decreases upto,
{
    if upto <= 0 {
        None
    } else {
        match fewest(results, upto - 1) {
            Some(best) => if results[upto - 1] is Some && distinct(results[upto - 1]->Some_0@)
                < distinct(results[best]->Some_0@) {
                Some(upto - 1)
            } else {
                Some(best)
            },
            None => if results[upto - 1] is Some {
                Some(upto - 1)
            } else {
                None::<int>
            },
        }
    }
}

/// The coloring that [`fewest`] picks has no more colors than any other
/// among the results, and none is picked only where there is none.
pub proof fn lemma_fewest_is_least(results: Seq<Option<Vec<Color>>>, upto: int)
    requires
        0 <= upto <= results.len(),
    ensures
        match fewest(results, upto) {
            Some(best) => {
                &&& 0 <= best < upto
                &&& results[best] is Some
                &&& forall|j: int|
                    0 <= j < upto && (#[trigger] results[j]) is Some ==> distinct(
                        results[best]->Some_0@,
                    ) <= distinct(results[j]->Some_0@)
            },
            None => forall|j: int| 0 <= j < upto ==> (#[trigger] results[j]) is None,
        },
    decreases upto,
{
    if upto > 0 {
        lemma_fewest_is_least(results, upto - 1);
    }
}

/// The coloring with the fewest colors among the results, the first of
/// several with as few, or `None` if no result holds a coloring.
pub fn fewest_colors(results: Vec<Option<Vec<Color>>>) -> (out: Option<Vec<Color>>)
    ensures
        out == match fewest(results@, results@.len() as int) {
            Some(best) => results@[best],
            None => None,
        },
{
    let mut best: Option<usize> = None;
    let mut least: usize = 0;
    let mut at: usize = 0;
    while at < results.len()
        invariant
            at <= results@.len(),
            match best {
                Some(best) => fewest(results@, at as int) == Some(best as int) && best < at
                    && results@[best as int] is Some && least == distinct(
                    results@[best as int]->Some_0@,
                ),
                None => fewest(results@, at as int) is None,
            },
        decreases results@.len() - at,
    {
        match &results[at] {
            Some(coloring) => {
                let count = count_colors(coloring);
                let better = match best {
                    Some(_) => count < least,
                    None => true,
                };
                if better {
                    best = Some(at);
                    least = count;
                }
            },
            None => {},
        }
        at = at + 1;
    }
    match best {
        Some(best) => {
            let mut results = results;
            results.swap_remove(best)
        },
        None => None,
    }
}

} // verus!
