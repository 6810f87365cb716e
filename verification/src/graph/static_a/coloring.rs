//! Relating to all things coloring

use std::collections::{HashMap, HashSet};
use vstd::prelude::*;
use vstd::set_lib::*;

use crate::graph::{finite_graph, loop_free, symmetric, without_vertex, Graphed};
use crate::utils::collections::{map_keys, set_items};
use crate::utils::random::random_below;

verus! {

/// A color for each vertex.
pub type Coloring = HashMap<u32, usize>;

/// The number of neighbors that `v` has in `part`.
pub open spec fn degree_within(adj: Map<u32, Set<u32>>, v: u32, part: Set<u32>) -> nat {
    adj[v].intersect(part).len()
}

/// Whether every part of the graph holds a vertex with `k` neighbors at
/// most in that part: whether the graph has degeneracy `k` at most.
pub open spec fn degenerate(adj: Map<u32, Set<u32>>, k: nat) -> bool {
    forall|part: Set<u32>|
        #![trigger part.finite()]
        part.finite() && part.len() > 0 && part.subset_of(adj.dom()) ==> exists|v: u32|
            part.contains(v) && degree_within(adj, v, part) <= k
}

/// The vertices of the ordering from the place `t` on.
pub open spec fn later(ordering: Seq<u32>, t: int) -> Set<u32> {
    Set::new(|w: u32| exists|j: int| t <= j < ordering.len() && ordering[j] == w)
}

/// Whether the coloring gives every vertex a color, and the two ends of an
/// edge different ones.
pub open spec fn proper(adj: Map<u32, Set<u32>>, coloring: Map<u32, usize>) -> bool {
    &&& forall|v: u32| #[trigger] adj.contains_key(v) ==> coloring.contains_key(v)
    &&& forall|u: u32, v: u32|
        adj.contains_key(u) && #[trigger] adj[u].contains(v) ==> coloring.contains_key(v)
            && coloring[u] != coloring[v]
}

/// Whether no colored vertex has a colored neighbor of its own color.
pub open spec fn partial(adj: Map<u32, Set<u32>>, coloring: Map<u32, usize>) -> bool {
    forall|u: u32, v: u32|
        coloring.contains_key(u) && adj.contains_key(u) && #[trigger] adj[u].contains(v)
            && coloring.contains_key(v) ==> coloring[u] != coloring[v]
}

/// The vertices of `dom` that are not among the first `t` of the ordering.
spec fn unordered(dom: Set<u32>, ordering: Seq<u32>, t: int) -> Set<u32> {
    Set::new(|w: u32| dom.contains(w) && forall|j: int| 0 <= j < t ==> ordering[j] != w)
}

/// A smallest-last ordering of the vertices, and the largest degree that a
/// vertex had when it was taken.
///
/// A vertex of least degree is taken from a copy of the graph, with its
/// edges, until none is left; the vertices stand in the order in which
/// they were taken. In a graph whose edges go both ways, no vertex has more
/// neighbors among those taken after it than the number returned, and that
/// number is no larger than the degeneracy.
pub fn degeneracy_ordering<G: Graphed>(graph: &G) -> (r: (Vec<u32>, usize))
    requires
        graph.wf(),
    ensures
        r.0@.no_duplicates(),
        r.0@.to_set() == graph.adjacency().dom(),
        symmetric(graph.adjacency()) ==> forall|t: int|
            0 <= t < r.0@.len() ==> degree_within(
                graph.adjacency(),
                #[trigger] r.0@[t],
                later(r.0@, t),
            ) <= r.1,
        symmetric(graph.adjacency()) ==> forall|k: nat|
            #[trigger] degenerate(graph.adjacency(), k) ==> r.1 <= k,
        symmetric(graph.adjacency()) ==> degenerate(graph.adjacency(), r.1 as nat),
{
    let ghost adj = graph.adjacency();
    let mut rest = graph.duplicate();
    let mut ordering: Vec<u32> = Vec::new();
    let mut degeneracy: usize = 0;
    proof {
        graph.lemma_finite();
        rest.lemma_finite();
        if symmetric(adj) {
            assert forall|w: u32| #[trigger] rest.adjacency().contains_key(w) implies rest.adjacency()[w]
                =~= adj[w].intersect(rest.adjacency().dom()) by {
                assert forall|x: u32| adj[w].contains(x) implies adj.dom().contains(x) by {}
            }
        }
    }
    loop
        invariant
            rest.wf(),
            adj == graph.adjacency(),
            finite_graph(adj),
            ordering@.no_duplicates(),
            rest.adjacency().dom() =~= unordered(adj.dom(), ordering@, ordering@.len() as int),
            forall|j: int| 0 <= j < ordering@.len() ==> adj.dom().contains(#[trigger] ordering@[j]),
            symmetric(adj) ==> forall|w: u32| #[trigger]
                rest.adjacency().contains_key(w) ==> rest.adjacency()[w] =~= adj[w].intersect(
                    rest.adjacency().dom(),
                ),
            symmetric(adj) ==> forall|t: int|
                0 <= t < ordering@.len() ==> degree_within(
                    adj,
                    #[trigger] ordering@[t],
                    unordered(adj.dom(), ordering@, t),
                ) <= degeneracy,
            symmetric(adj) ==> forall|k: nat| #[trigger] degenerate(adj, k) ==> degeneracy <= k,
        ensures
            rest.adjacency().dom() == Set::<u32>::empty(),
        decreases rest.adjacency().dom().len(),
    {
        proof {
            rest.lemma_finite();
        }
        let ghost before = rest.adjacency();
        let ghost order_before = ordering@;
        let ghost part = before.dom();
        match rest.min_degree() {
            Some((min, deg)) => {
                rest.remove_vertex(&min);
                ordering.push(min);
                proof {
                    let after = rest.adjacency();
                    assert(after == without_vertex(before, min));
                    assert(after.dom() =~= part.remove(min));
                    assert(part.contains(min));
                    assert(ordering@.no_duplicates()) by {
                        assert forall|i: int, j: int|
                            0 <= i < ordering@.len() && 0 <= j < ordering@.len() && i
                                != j implies ordering@[i] != ordering@[j] by {
                            if j == ordering@.len() - 1 {
                                assert(order_before[i] == ordering@[i]);
                            }
                            if i == ordering@.len() - 1 {
                                assert(order_before[j] == ordering@[j]);
                            }
                        }
                    }
                    assert forall|t: int| 0 <= t <= order_before.len() implies unordered(
                        adj.dom(),
                        ordering@,
                        t,
                    ) =~= unordered(adj.dom(), order_before, t) by {
                        assert forall|j: int| 0 <= j < t implies ordering@[j] == order_before[j] by {}
                    }
                    assert(after.dom() =~= unordered(
                        adj.dom(),
                        ordering@,
                        ordering@.len() as int,
                    )) by {
                        assert forall|w: u32|
                            after.dom().contains(w) <==> unordered(
                                adj.dom(),
                                ordering@,
                                ordering@.len() as int,
                            ).contains(w) by {
                            if part.contains(w) && w != min {
                                assert forall|j: int|
                                    0 <= j < ordering@.len() implies ordering@[j] != w by {
                                    if j < order_before.len() {
                                        assert(ordering@[j] == order_before[j]);
                                    }
                                }
                            }
                            if unordered(adj.dom(), ordering@, ordering@.len() as int).contains(w) {
                                assert(ordering@[ordering@.len() - 1] == min);
                                assert forall|j: int|
                                    0 <= j < order_before.len() implies order_before[j] != w by {
                                    assert(ordering@[j] == order_before[j]);
                                }
                            }
                        }
                    }
                    lemma_len_subset(after.dom(), part);
                    if symmetric(adj) {
                        assert(before[min] =~= adj[min].intersect(part));
                        assert forall|w: u32| #[trigger] after.contains_key(w) implies after[w]
                            =~= adj[w].intersect(after.dom()) by {
                            assert(before.contains_key(w));
                            assert(before[w] =~= adj[w].intersect(part));
                            if adj[w].contains(min) {
                                assert(adj[min].contains(w));
                                assert(before[min].contains(w));
                            }
                        }
                        assert forall|k: nat| #[trigger] degenerate(adj, k) implies deg <= k by {
                            assert(part.finite());
                            assert(part.subset_of(adj.dom()));
                            let u = choose|u: u32| part.contains(u) && degree_within(adj, u, part) <= k;
                            assert(before.contains_key(u));
                            assert(before[u] =~= adj[u].intersect(part));
                        }
                        assert(degree_within(
                            adj,
                            min,
                            unordered(adj.dom(), ordering@, order_before.len() as int),
                        ) == deg);
                    }
                }
                if deg > degeneracy {
                    degeneracy = deg;
                }
            },
            None => {
                break ;
            },
        }
    }
    proof {
        assert(ordering@.to_set() =~= adj.dom()) by {
            assert forall|w: u32| adj.dom().contains(w) implies ordering@.to_set().contains(w) by {
                assert(!unordered(adj.dom(), ordering@, ordering@.len() as int).contains(w));
                let j = choose|j: int| 0 <= j < ordering@.len() && !(ordering@[j] != w);
                assert(ordering@[j] == w);
            }
        }
        assert forall|t: int| 0 <= t < ordering@.len() implies later(ordering@, t) =~= unordered(
            adj.dom(),
            ordering@,
            t,
        ) by {
            assert forall|w: u32|
                later(ordering@, t).contains(w) <==> unordered(adj.dom(), ordering@, t).contains(
                    w,
                ) by {
                if later(ordering@, t).contains(w) {
                    let j = choose|j: int| t <= j < ordering@.len() && ordering@[j] == w;
                    assert(adj.dom().contains(ordering@[j]));
                }
                if unordered(adj.dom(), ordering@, t).contains(w) {
                    assert(ordering@.to_set().contains(w));
                    let j = choose|j: int| 0 <= j < ordering@.len() && ordering@[j] == w;
                    assert(t <= j);
                }
            }
        }
    }
    proof {
        if symmetric(adj) {
            lemma_ordering_bounds_degeneracy(adj, ordering@, degeneracy as nat);
        }
    }
    (ordering, degeneracy)
}

/// The first place of the ordering from `from` on that holds a vertex of
/// the part, or the length of the ordering.
spec fn first_of(ordering: Seq<u32>, part: Set<u32>, from: int) -> int
    decreases ordering.len() - from,
{
    if from < 0 || from >= ordering.len() {
        ordering.len() as int
    } else if part.contains(ordering[from]) {
        from
    } else {
        first_of(ordering, part, from + 1)
    }
}

proof fn lemma_first_of(ordering: Seq<u32>, part: Set<u32>, from: int)
    requires
        0 <= from <= ordering.len(),
    ensures
        from <= first_of(ordering, part, from) <= ordering.len(),
        first_of(ordering, part, from) < ordering.len() ==> part.contains(
            ordering[first_of(ordering, part, from)],
        ),
        forall|j: int|
            from <= j < first_of(ordering, part, from) ==> !part.contains(#[trigger] ordering[j]),
    decreases ordering.len() - from,
{
    if from < ordering.len() && !part.contains(ordering[from]) {
        lemma_first_of(ordering, part, from + 1);
    }
}

/// A graph has the degeneracy `bound` at most if its vertices stand in an
/// order in which none has more than `bound` neighbors among those from it
/// on.
pub proof fn lemma_ordering_bounds_degeneracy(
    adj: Map<u32, Set<u32>>,
    ordering: Seq<u32>,
    bound: nat,
)
    requires
        finite_graph(adj),
        ordering.to_set() == adj.dom(),
        forall|t: int|
            0 <= t < ordering.len() ==> degree_within(adj, #[trigger] ordering[t], later(ordering, t))
                <= bound,
    ensures
        degenerate(adj, bound),
{
    assert forall|part: Set<u32>|
        #![trigger part.finite()]
        part.finite() && part.len() > 0 && part.subset_of(adj.dom()) implies exists|v: u32|
        part.contains(v) && degree_within(adj, v, part) <= bound by {
        lemma_first_of(ordering, part, 0);
        let t = first_of(ordering, part, 0);
        let any = part.choose();
        assert(part.contains(any));
        assert(ordering.to_set().contains(any));
        let at = choose|at: int| 0 <= at < ordering.len() && ordering[at] == any;
        assert(t <= at);
        let v = ordering[t];
        assert(adj.contains_key(v)) by {
            assert(ordering.to_set().contains(ordering[t]));
        }
        assert(adj[v].intersect(part).subset_of(adj[v].intersect(later(ordering, t)))) by {
            assert forall|w: u32| adj[v].intersect(part).contains(w) implies adj[v].intersect(
                later(ordering, t),
            ).contains(w) by {
                assert(ordering.to_set().contains(w));
                let j = choose|j: int| 0 <= j < ordering.len() && ordering[j] == w;
                assert(t <= j);
            }
        }
        assert(adj[v].intersect(later(ordering, t)).finite());
        lemma_len_subset(adj[v].intersect(part), adj[v].intersect(later(ordering, t)));
        assert(degree_within(adj, ordering[t], later(ordering, t)) <= bound);
    }
}

/// A finite set of numbers that holds all the numbers below `c` has `c`
/// elements at least.
proof fn lemma_initial_segment(colors: Set<usize>, c: nat)
    requires
        colors.finite(),
        c <= usize::MAX + 1,
        forall|x: usize| x < c ==> colors.contains(x),
    ensures
        c <= colors.len(),
    decreases c,
{
    if c > 0 {
        let last = (c - 1) as usize;
        assert(colors.contains(last));
        lemma_initial_segment(colors.remove(last), (c - 1) as nat);
    }
}

/// Colors the vertices in the reverse of a smallest-last ordering, each with
/// the least color that none of its colored neighbors has. Returns the
/// coloring and the largest degree that a vertex had when the ordering took
/// it.
///
/// In a graph whose edges go both ways no color is larger than the number
/// returned, and that number is no larger than the degeneracy. If no vertex
/// is its own neighbor either, the two ends of every edge have different
/// colors.
pub fn color_smallest_last<G: Graphed>(graph: &G) -> (r: (Coloring, usize))
    requires
        graph.wf(),
    ensures
        r.0@.dom() == graph.adjacency().dom(),
        symmetric(graph.adjacency()) ==> forall|v: u32| #[trigger]
            r.0@.contains_key(v) ==> r.0@[v] <= r.1,
        symmetric(graph.adjacency()) ==> forall|k: nat|
            #[trigger] degenerate(graph.adjacency(), k) ==> r.1 <= k,
        symmetric(graph.adjacency()) ==> degenerate(graph.adjacency(), r.1 as nat),
        symmetric(graph.adjacency()) && loop_free(graph.adjacency()) ==> proper(
            graph.adjacency(),
            r.0@,
        ),
{
    broadcast use vstd::std_specs::hash::group_hash_axioms;

    let ghost adj = graph.adjacency();
    let (ordering, degeneracy) = degeneracy_ordering(graph);
    let mut coloring: HashMap<u32, usize> = HashMap::new();
    let mut t: usize = ordering.len();
    proof {
        graph.lemma_finite();
        assert(coloring@.dom() =~= later(ordering@, t as int));
    }
    while t > 0
        invariant
            graph.wf(),
            adj == graph.adjacency(),
            finite_graph(adj),
            t <= ordering@.len(),
            ordering@.no_duplicates(),
            ordering@.to_set() == adj.dom(),
            coloring@.dom() =~= later(ordering@, t as int),
            symmetric(adj) ==> forall|j: int|
                0 <= j < ordering@.len() ==> degree_within(
                    adj,
                    #[trigger] ordering@[j],
                    later(ordering@, j),
                ) <= degeneracy,
            symmetric(adj) ==> forall|v: u32| #[trigger]
                coloring@.contains_key(v) ==> coloring@[v] <= degeneracy,
            symmetric(adj) && loop_free(adj) ==> partial(adj, coloring@),
        decreases t,
    {
        t = t - 1;
        let v = ordering[t];
        assert(ordering@.to_set().contains(ordering@[t as int]));
        let neighbors = set_items(graph.get_neighbors(&v).unwrap());
        let mut neighbor_colors: HashSet<usize> = HashSet::new();
        let ghost mut seen: Set<u32> = Set::empty();
        let mut at: usize = 0;
        proof {
            crate::utils::collections::lemma_hash_set_finite(&neighbor_colors);
        }
        while at < neighbors.len()
            invariant
                at <= neighbors@.len(),
                neighbors@.no_duplicates(),
                neighbors@.to_set() == adj[v],
                neighbor_colors@.finite(),
                seen.finite(),
                neighbor_colors@.len() <= seen.len(),
                forall|w: u32|
                    seen.contains(w) <==> coloring@.contains_key(w) && exists|k: int|
                        0 <= k < at && #[trigger] neighbors@[k] == w,
                forall|k: int|
                    0 <= k < at && coloring@.contains_key(#[trigger] neighbors@[k])
                        ==> neighbor_colors@.contains(coloring@[neighbors@[k]]),
            decreases neighbors@.len() - at,
        {
            let w = neighbors[at];
            let ghost seen_before = seen;
            match coloring.get(&w) {
                Some(color) => {
                    neighbor_colors.insert(*color);
                    proof {
                        assert(!seen.contains(w)) by {
                            if seen.contains(w) {
                                let k = choose|k: int| 0 <= k < at && #[trigger] neighbors@[k] == w;
                                assert(neighbors@[k] == neighbors@[at as int]);
                            }
                        }
                        seen = seen.insert(w);
                    }
                },
                None => {},
            }
            proof {
                assert forall|x: u32|
                    seen.contains(x) <==> coloring@.contains_key(x) && exists|k: int|
                        0 <= k < at + 1 && #[trigger] neighbors@[k] == x by {
                    if seen_before.contains(x) {
                        let k = choose|k: int| 0 <= k < at && #[trigger] neighbors@[k] == x;
                        assert(0 <= k < at + 1 && neighbors@[k] == x);
                    }
                    if x == w {
                        assert(neighbors@[at as int] == x);
                    }
                    if coloring@.contains_key(x) && exists|k: int|
                        0 <= k < at + 1 && #[trigger] neighbors@[k] == x {
                        let k = choose|k: int| 0 <= k < at + 1 && #[trigger] neighbors@[k] == x;
                        if k < at {
                            assert(seen_before.contains(x));
                        }
                    }
                }
            }
            at = at + 1;
        }
        let mut color: usize = 0;
        assert(neighbor_colors.len() == neighbor_colors@.len());
        while neighbor_colors.contains(&color)
            invariant
                neighbor_colors@.finite(),
                neighbor_colors@.len() <= usize::MAX,
                forall|c: usize| c < color ==> neighbor_colors@.contains(c),
                color <= neighbor_colors@.len(),
            decreases neighbor_colors@.len() - color,
        {
            proof {
                lemma_initial_segment(neighbor_colors@, (color + 1) as nat);
            }
            color += 1
        }
        let ghost before = coloring@;
        coloring.insert(v, color);
        proof {
            assert(coloring@.dom() =~= later(ordering@, t as int)) by {
                assert forall|w: u32|
                    coloring@.dom().contains(w) <==> later(ordering@, t as int).contains(w) by {
                    if w == v {
                        assert(t <= t < ordering@.len() && ordering@[t as int] == w);
                    } else {
                        if later(ordering@, t as int).contains(w) {
                            let j = choose|j: int| t <= j < ordering@.len() && ordering@[j] == w;
                            assert(t + 1 <= j < ordering@.len() && ordering@[j] == w);
                        }
                        if before.dom().contains(w) {
                            let j = choose|j: int|
                                t + 1 <= j < ordering@.len() && ordering@[j] == w;
                            assert(t <= j < ordering@.len() && ordering@[j] == w);
                        }
                    }
                }
            }
            assert forall|w: u32| seen.contains(w) implies adj[v].intersect(
                later(ordering@, t as int),
            ).contains(w) by {
                let k = choose|k: int| 0 <= k < at && #[trigger] neighbors@[k] == w;
                assert(neighbors@.to_set().contains(neighbors@[k]));
                assert(before.dom().contains(w));
                let j = choose|j: int| t + 1 <= j < ordering@.len() && ordering@[j] == w;
                assert(t <= j < ordering@.len() && ordering@[j] == w);
            }
            if symmetric(adj) {
                assert(adj[v].intersect(later(ordering@, t as int)).finite());
                lemma_len_subset(seen, adj[v].intersect(later(ordering@, t as int)));
                assert(degree_within(adj, ordering@[t as int], later(ordering@, t as int))
                    <= degeneracy);
            }
            if symmetric(adj) && loop_free(adj) {
                assert forall|u: u32, w: u32|
                    coloring@.contains_key(u) && adj.contains_key(u) && #[trigger] adj[u].contains(
                        w,
                    ) && coloring@.contains_key(w) implies coloring@[u] != coloring@[w] by {
                    if u == v && w != v {
                        assert(neighbors@.to_set().contains(w));
                        let k = choose|k: int| 0 <= k < neighbors@.len() && neighbors@[k] == w;
                        assert(neighbor_colors@.contains(coloring@[neighbors@[k]]));
                    } else if w == v && u != v {
                        assert(adj[v].contains(u));
                        assert(neighbors@.to_set().contains(u));
                        let k = choose|k: int| 0 <= k < neighbors@.len() && neighbors@[k] == u;
                        assert(neighbor_colors@.contains(coloring@[neighbors@[k]]));
                    } else if u != v && w != v {
                        assert(before.contains_key(u) && before.contains_key(w));
                    }
                }
            }
        }
    }
    proof {
        assert(coloring@.dom() =~= adj.dom()) by {
            assert forall|w: u32| adj.dom().contains(w) implies later(ordering@, 0).contains(w) by {
                assert(ordering@.to_set().contains(w));
                let j = choose|j: int| 0 <= j < ordering@.len() && ordering@[j] == w;
                assert(0 <= j < ordering@.len() && ordering@[j] == w);
            }
            assert forall|w: u32| later(ordering@, 0).contains(w) implies adj.dom().contains(w) by {
                let j = choose|j: int| 0 <= j < ordering@.len() && ordering@[j] == w;
                assert(ordering@.to_set().contains(ordering@[j]));
            }
        }
    }
    (coloring, degeneracy)
}

/// Whether no colored vertex has a colored neighbor of its own color.
fn check_partial<G: Graphed>(graph: &G, coloring: &Coloring) -> (ok: bool)
    requires
        graph.wf(),
    ensures
        ok == partial(graph.adjacency(), coloring@),
{
    broadcast use vstd::std_specs::hash::group_hash_axioms;

    let ghost adj = graph.adjacency();
    let colored = map_keys(coloring);
    let mut at: usize = 0;
    while at < colored.len()
        invariant
            at <= colored@.len(),
            graph.wf(),
            adj == graph.adjacency(),
            colored@.to_set() == coloring@.dom(),
            forall|k: int, w: u32|
                0 <= k < at && adj.contains_key(colored@[k]) && #[trigger] adj[colored@[k]].contains(
                    w,
                ) && coloring@.contains_key(w) ==> coloring@[colored@[k]] != coloring@[w],
        decreases colored@.len() - at,
    {
        let v = colored[at];
        assert(colored@.to_set().contains(colored@[at as int]));
        let color = *coloring.get(&v).unwrap();
        match graph.get_neighbors(&v) {
            Some(neighbors) => {
                let neighbors = set_items(neighbors);
                let mut to: usize = 0;
                while to < neighbors.len()
                    invariant
                        to <= neighbors@.len(),
                        adj == graph.adjacency(),
                        adj.contains_key(v),
                        neighbors@.to_set() == adj[v],
                        coloring@.contains_key(v),
                        color == coloring@[v],
                        forall|k: int|
                            0 <= k < to && coloring@.contains_key(#[trigger] neighbors@[k])
                                ==> coloring@[neighbors@[k]] != color,
                    decreases neighbors@.len() - to,
                {
                    let w = neighbors[to];
                    match coloring.get(&w) {
                        Some(other) => {
                            if *other == color {
                                assert(neighbors@.to_set().contains(neighbors@[to as int]));
                                assert(adj[v].contains(w));
                                return false;
                            }
                        },
                        None => {},
                    }
                    to = to + 1;
                }
                proof {
                    assert forall|w: u32|
                        #[trigger] adj[v].contains(w) && coloring@.contains_key(
                            w,
                        ) implies coloring@[v] != coloring@[w] by {
                        assert(neighbors@.to_set().contains(w));
                        let k = choose|k: int| 0 <= k < neighbors@.len() && neighbors@[k] == w;
                        assert(coloring@.contains_key(neighbors@[k]));
                    }
                }
            },
            None => {},
        }
        at = at + 1;
    }
    proof {
        assert forall|u: u32, w: u32|
            coloring@.contains_key(u) && adj.contains_key(u) && #[trigger] adj[u].contains(w)
                && coloring@.contains_key(w) implies coloring@[u] != coloring@[w] by {
            assert(colored@.to_set().contains(u));
            let k = choose|k: int| 0 <= k < colored@.len() && colored@[k] == u;
            assert(adj[colored@[k]].contains(w));
        }
    }
    true
}

/// Whether a neighbor of `v` has the color `c`.
pub open spec fn color_taken(
    adj: Map<u32, Set<u32>>,
    coloring: Map<u32, usize>,
    v: u32,
    c: usize,
) -> bool {
    exists|w: u32| #[trigger] adj[v].contains(w) && coloring.contains_key(w) && coloring[w] == c
}

/// The colors of the neighbors of `v` that have one.
fn neighbor_colors<G: Graphed>(graph: &G, v: u32, coloring: &Coloring) -> (colors: HashSet<usize>)
    requires
        graph.wf(),
        graph.adjacency().contains_key(v),
    ensures
        colors@.finite(),
        colors@.len() <= coloring@.dom().len(),
        forall|c: usize| #[trigger]
            colors@.contains(c) <==> color_taken(graph.adjacency(), coloring@, v, c),
{
    broadcast use vstd::std_specs::hash::group_hash_axioms;

    let ghost adj = graph.adjacency();
    let neighbors = set_items(graph.get_neighbors(&v).unwrap());
    let mut colors: HashSet<usize> = HashSet::new();
    let ghost mut seen: Set<u32> = Set::empty();
    let mut at: usize = 0;
    proof {
        crate::utils::collections::lemma_hash_set_finite(&colors);
    }
    while at < neighbors.len()
        invariant
            at <= neighbors@.len(),
            neighbors@.no_duplicates(),
            neighbors@.to_set() == adj[v],
            colors@.finite(),
            seen.finite(),
            colors@.len() <= seen.len(),
            seen.subset_of(coloring@.dom()),
            forall|w: u32|
                seen.contains(w) ==> exists|k: int| 0 <= k < at && #[trigger] neighbors@[k] == w,
            forall|k: int|
                0 <= k < at && coloring@.contains_key(#[trigger] neighbors@[k])
                    ==> colors@.contains(coloring@[neighbors@[k]]),
            forall|c: usize| #[trigger] colors@.contains(c) ==> color_taken(adj, coloring@, v, c),
        decreases neighbors@.len() - at,
    {
        let w = neighbors[at];
        let ghost seen_before = seen;
        proof {
            assert(neighbors@.to_set().contains(neighbors@[at as int]));
        }
        match coloring.get(&w) {
            Some(color) => {
                colors.insert(*color);
                proof {
                    assert(!seen.contains(w)) by {
                        if seen.contains(w) {
                            let k = choose|k: int| 0 <= k < at && #[trigger] neighbors@[k] == w;
                            assert(neighbors@[k] == neighbors@[at as int]);
                        }
                    }
                    seen = seen.insert(w);
                    assert(adj[v].contains(w) && coloring@.contains_key(w) && coloring@[w]
                        == *color);
                }
            },
            None => {},
        }
        proof {
            assert forall|x: u32| seen.contains(x) implies exists|k: int|
                0 <= k < at + 1 && #[trigger] neighbors@[k] == x by {
                if seen_before.contains(x) {
                    let k = choose|k: int| 0 <= k < at && #[trigger] neighbors@[k] == x;
                    assert(0 <= k < at + 1 && neighbors@[k] == x);
                } else {
                    assert(neighbors@[at as int] == x);
                }
            }
        }
        at = at + 1;
    }
    proof {
        lemma_len_subset(seen, coloring@.dom());
        assert forall|c: usize| color_taken(adj, coloring@, v, c) implies #[trigger] colors@.contains(
            c,
        ) by {
            let w = choose|w: u32| #[trigger]
                adj[v].contains(w) && coloring@.contains_key(w) && coloring@[w] == c;
            assert(neighbors@.to_set().contains(w));
            let k = choose|k: int| 0 <= k < neighbors@.len() && neighbors@[k] == w;
            assert(coloring@.contains_key(neighbors@[k]));
        }
    }
    colors
}

/// A color of the list that no neighbor has, if there is one.
fn free_color(list: &HashSet<u32>, taken: &HashSet<usize>) -> (color: Option<usize>)
    ensures
        match color {
            Some(color) => color <= u32::MAX && list@.contains(color as u32) && !taken@.contains(
                color,
            ),
            None => forall|c: u32| #[trigger] list@.contains(c) ==> taken@.contains(c as usize),
        },
{
    broadcast use vstd::std_specs::hash::group_hash_axioms;

    let colors = set_items(list);
    let mut at: usize = 0;
    while at < colors.len()
        invariant
            at <= colors@.len(),
            colors@.to_set() == list@,
            forall|k: int| 0 <= k < at ==> taken@.contains(#[trigger] colors@[k] as usize),
        decreases colors@.len() - at,
    {
        let color = colors[at] as usize;
        if !taken.contains(&color) {
            assert(colors@.to_set().contains(colors@[at as int]));
            return Some(color);
        }
        at = at + 1;
    }
    proof {
        assert forall|c: u32| #[trigger] list@.contains(c) implies taken@.contains(c as usize) by {
            assert(colors@.to_set().contains(c));
            let k = choose|k: int| 0 <= k < colors@.len() && colors@[k] == c;
            assert(taken@.contains(colors@[k] as usize));
        }
    }
    None
}

/// Whether the vertex was left without a color with reason: it has no list
/// of colors, or a neighbor has each color of its list.
pub open spec fn left_out(
    adj: Map<u32, Set<u32>>,
    lists: Map<u32, HashSet<u32>>,
    coloring: Map<u32, usize>,
    v: u32,
) -> bool {
    lists.contains_key(v) ==> forall|c: u32| #[trigger]
        lists[v]@.contains(c) ==> color_taken(adj, coloring, v, c as usize)
}

/// Colors the vertices one after the other, in the order in which the
/// graph hands them out.
///
/// Without lists of colors each vertex gets the least color that none of
/// its neighbors has, and every vertex gets a color below the number of
/// vertices. With lists each vertex gets a color of its list that none of
/// its neighbors has; a vertex without a list, or with a list of which a
/// neighbor has each color, gets none.
pub fn color_in_turn<G: Graphed>(graph: &G, options: &Option<HashMap<u32, HashSet<u32>>>) -> (coloring:
    Coloring)
    requires
        graph.wf(),
    ensures
        forall|v: u32| #[trigger] coloring@.contains_key(v) ==> graph.adjacency().contains_key(v),
        options is None ==> forall|v: u32| #[trigger]
            graph.adjacency().contains_key(v) ==> coloring@.contains_key(v) && coloring@[v]
                < graph.adjacency().dom().len(),
        options matches Some(lists) ==> forall|v: u32| #[trigger]
            coloring@.contains_key(v) ==> lists@.contains_key(v) && coloring@[v] <= u32::MAX
                && lists@[v]@.contains(coloring@[v] as u32),
        options matches Some(lists) ==> forall|v: u32| #[trigger]
            graph.adjacency().contains_key(v) && !coloring@.contains_key(v) ==> left_out(
                graph.adjacency(),
                lists@,
                coloring@,
                v,
            ),
        symmetric(graph.adjacency()) && loop_free(graph.adjacency()) ==> partial(
            graph.adjacency(),
            coloring@,
        ),
{
    broadcast use vstd::std_specs::hash::group_hash_axioms;

    let ghost adj = graph.adjacency();
    let vertices = graph.vertices();
    let mut coloring: HashMap<u32, usize> = HashMap::new();
    let mut at: usize = 0;
    proof {
        graph.lemma_finite();
        vertices@.unique_seq_to_set();
    }
    while at < vertices.len()
        invariant
            at <= vertices@.len(),
            graph.wf(),
            adj == graph.adjacency(),
            vertices@.no_duplicates(),
            vertices@.to_set() == adj.dom(),
            vertices@.len() == adj.dom().len(),
            coloring@.dom().finite(),
            coloring@.dom().len() <= at,
            forall|v: u32| #[trigger]
                coloring@.contains_key(v) ==> exists|k: int| 0 <= k < at && vertices@[k] == v,
            options is None ==> forall|k: int|
                0 <= k < at ==> coloring@.contains_key(#[trigger] vertices@[k])
                    && coloring@[vertices@[k]] < vertices@.len(),
            options matches Some(lists) ==> forall|v: u32| #[trigger]
                coloring@.contains_key(v) ==> lists@.contains_key(v) && coloring@[v] <= u32::MAX
                    && lists@[v]@.contains(coloring@[v] as u32),
            options matches Some(lists) ==> forall|k: int|
                0 <= k < at && !coloring@.contains_key(#[trigger] vertices@[k]) ==> left_out(
                    adj,
                    lists@,
                    coloring@,
                    vertices@[k],
                ),
            symmetric(adj) && loop_free(adj) ==> partial(adj, coloring@),
        decreases vertices@.len() - at,
    {
        let v = vertices[at];
        assert(vertices@.to_set().contains(vertices@[at as int]));
        let taken = neighbor_colors(graph, v, &coloring);
        let next_color: Option<usize> = match options {
            Some(lists) => match lists.get(&v) {
                Some(list) => free_color(list, &taken),
                None => None,
            },
            None => {
                let mut color: usize = 0;
                assert(taken.len() == taken@.len());
                while taken.contains(&color)
                    invariant
                        taken@.finite(),
                        taken@.len() <= usize::MAX,
                        forall|c: usize| c < color ==> taken@.contains(c),
                        color <= taken@.len(),
                    decreases taken@.len() - color,
                {
                    proof {
                        lemma_initial_segment(taken@, (color + 1) as nat);
                    }
                    color += 1
                }
                Some(color)
            },
        };
        let ghost before = coloring@;
        proof {
            assert(!before.contains_key(v)) by {
                if before.contains_key(v) {
                    let k = choose|k: int| 0 <= k < at && vertices@[k] == v;
                    assert(vertices@[k] == vertices@[at as int]);
                }
            }
        }
        match next_color {
            Some(color) => {
                coloring.insert(v, color);
                proof {
                    assert(coloring@.dom() =~= before.dom().insert(v));
                    assert(!color_taken(adj, before, v, color));
                    assert forall|x: u32| #[trigger] coloring@.contains_key(x) implies exists|k: int|
                        0 <= k < at + 1 && vertices@[k] == x by {
                        if x == v {
                            assert(vertices@[at as int] == x);
                        } else {
                            let k = choose|k: int| 0 <= k < at && vertices@[k] == x;
                            assert(0 <= k < at + 1 && vertices@[k] == x);
                        }
                    }
                    if options is Some {
                        let lists = options->Some_0;
                        assert forall|k: int|
                            0 <= k < at + 1 && !coloring@.contains_key(
                                #[trigger] vertices@[k],
                            ) implies left_out(adj, lists@, coloring@, vertices@[k]) by {
                            let x = vertices@[k];
                            assert(left_out(adj, lists@, before, x));
                            if lists@.contains_key(x) {
                                assert forall|c: u32| #[trigger]
                                    lists@[x]@.contains(c) implies color_taken(
                                    adj,
                                    coloring@,
                                    x,
                                    c as usize,
                                ) by {
                                    assert(color_taken(adj, before, x, c as usize));
                                    let w = choose|w: u32| #[trigger]
                                        adj[x].contains(w) && before.contains_key(w) && before[w]
                                            == c as usize;
                                    assert(adj[x].contains(w) && coloring@.contains_key(w)
                                        && coloring@[w] == c as usize);
                                }
                            }
                        }
                    }
                    if symmetric(adj) && loop_free(adj) {
                        assert forall|u: u32, w: u32|
                            coloring@.contains_key(u) && adj.contains_key(u)
                                && #[trigger] adj[u].contains(w) && coloring@.contains_key(
                                w,
                            ) implies coloring@[u] != coloring@[w] by {
                            if u == v && w != v {
                                assert(adj[v].contains(w) && before.contains_key(w));
                                if before[w] == color {
                                    assert(color_taken(adj, before, v, color));
                                }
                            } else if w == v && u != v {
                                assert(adj[v].contains(u) && before.contains_key(u));
                                if before[u] == color {
                                    assert(color_taken(adj, before, v, color));
                                }
                            } else if u != v && w != v {
                                assert(before.contains_key(u) && before.contains_key(w));
                            }
                        }
                    }
                }
            },
            None => {
                proof {
                    assert forall|x: u32| #[trigger] coloring@.contains_key(x) implies exists|k: int|
                        0 <= k < at + 1 && vertices@[k] == x by {
                        let k = choose|k: int| 0 <= k < at && vertices@[k] == x;
                        assert(0 <= k < at + 1 && vertices@[k] == x);
                    }
                }
            },
        }
        at = at + 1;
    }
    proof {
        assert forall|v: u32| #[trigger] coloring@.contains_key(v) implies adj.contains_key(v) by {
            let k = choose|k: int| 0 <= k < at && vertices@[k] == v;
            assert(vertices@.to_set().contains(vertices@[k]));
        }
        if options is None {
            assert forall|v: u32| #[trigger] adj.contains_key(v) implies coloring@.contains_key(v)
                && coloring@[v] < adj.dom().len() by {
                assert(vertices@.to_set().contains(v));
                let k = choose|k: int| 0 <= k < vertices@.len() && vertices@[k] == v;
                assert(coloring@.contains_key(vertices@[k]));
            }
        } else {
            let lists = options->Some_0;
            assert forall|v: u32| #[trigger]
                adj.contains_key(v) && !coloring@.contains_key(v) implies left_out(
                adj,
                lists@,
                coloring@,
                v,
            ) by {
                assert(vertices@.to_set().contains(v));
                let k = choose|k: int| 0 <= k < vertices@.len() && vertices@[k] == v;
                assert(left_out(adj, lists@, coloring@, vertices@[k]));
            }
        }
    }
    coloring
}

/// Whether no color is larger than the degree of every vertex.
pub open spec fn within_degrees(adj: Map<u32, Set<u32>>, coloring: Map<u32, usize>) -> bool {
    forall|v: u32| #[trigger]
        coloring.contains_key(v) ==> exists|w: u32|
            adj.contains_key(w) && coloring[v] <= (#[trigger] adj[w]).len()
}

/// Whether the coloring is one that can be drawn for the graph: it colors
/// the vertices of the graph, none with a color larger than the degree of
/// every vertex.
pub open spec fn drawn(adj: Map<u32, Set<u32>>, coloring: Map<u32, usize>) -> bool {
    coloring.dom() == adj.dom() && within_degrees(adj, coloring)
}

/// A coloring of the vertices with no color larger than the degree of one
/// vertex is one that can be drawn.
proof fn lemma_drawn(adj: Map<u32, Set<u32>>, coloring: Map<u32, usize>, top: u32, widest: usize)
    requires
        coloring.dom() == adj.dom(),
        forall|v: u32| #[trigger] coloring.contains_key(v) ==> coloring[v] <= widest,
        forall|v: u32| #[trigger] adj.contains_key(v) ==> adj.contains_key(top) && adj[top].len() == widest,
    ensures
        drawn(adj, coloring),
{
    assert forall|v: u32| #[trigger] coloring.contains_key(v) implies exists|w: u32|
        adj.contains_key(w) && coloring[v] <= (#[trigger] adj[w]).len() by {
        assert(adj.dom().contains(v));
        assert(adj.contains_key(v));
        assert(adj.contains_key(top) && coloring[v] <= adj[top].len());
    }
}

/// A coloring found by chance. Every vertex draws a color that is no
/// larger than the largest degree. Then the vertices are gone through: one
/// that has a neighbor of its own color draws again and waits for its next
/// turn. When none waits the coloring is checked, and returned if no
/// vertex has a neighbor of its own color; if not, all are gone through
/// again.
///
/// Each turn of a vertex and each check takes one of the `draws`. When
/// they are used up the coloring is checked a last time, and there is no
/// coloring if it fails.
///
/// So there is no coloring only where a coloring that was drawn, of every
/// vertex and with no color larger than the largest degree, gives a vertex
/// a neighbor of its own color. Where no such coloring does, as in a graph
/// without an edge between its vertices, there is a coloring whatever is
/// drawn.
pub fn color_by_chance<G: Graphed>(graph: &G, draws: usize) -> (coloring: Option<Coloring>)
    requires
        graph.wf(),
    ensures
        match coloring {
            Some(found) => drawn(graph.adjacency(), found@) && partial(graph.adjacency(), found@),
            None => exists|last: Map<u32, usize>| #[trigger]
                drawn(graph.adjacency(), last) && !partial(graph.adjacency(), last),
        },
{
    broadcast use vstd::std_specs::hash::group_hash_axioms;

    let ghost adj = graph.adjacency();
    let vertices = graph.vertices();
    let mut widest: usize = 0;
    let ghost mut top: u32 = 0;
    let mut at: usize = 0;
    while at < vertices.len()
        invariant
            graph.wf(),
            adj == graph.adjacency(),
            at <= vertices.len(),
            vertices@.to_set() == adj.dom(),
            at == 0 ==> widest == 0,
            at > 0 ==> adj.contains_key(top) && adj[top].len() == widest,
        decreases vertices.len() - at,
    {
        let v: u32 = vertices[at];
        assert(vertices@.to_set().contains(v));
        match graph.get_neighbors(&v) {
            Some(set) => {
                if at == 0 || set.len() > widest {
                    widest = set.len();
                    proof {
                        top = v;
                    }
                }
            },
            None => {},
        }
        at = at + 1;
    }
    let bound: u64 = if widest == usize::MAX {
        widest as u64
    } else {
        widest as u64 + 1
    };
    let mut coloring: Coloring = HashMap::new();
    at = 0;
    assert(coloring@.dom() =~= vertices@.take(0).to_set());
    while at < vertices.len()
        invariant
            at <= vertices.len(),
            0 < bound <= widest + 1,
            coloring@.dom() == vertices@.take(at as int).to_set(),
            forall|v: u32| #[trigger] coloring@.contains_key(v) ==> coloring@[v] <= widest,
        decreases vertices.len() - at,
    {
        let color = random_below(bound) as usize;
        coloring.insert(vertices[at], color);
        proof {
            let earlier = vertices@.take(at as int);
            let later = vertices@.take(at + 1);
            assert(later =~= earlier.push(vertices@[at as int]));
            assert forall|v: u32| later.to_set().contains(v) <==> earlier.to_set().insert(
                vertices@[at as int],
            ).contains(v) by {
                if later.contains(v) {
                    let i = choose|i: int| 0 <= i < later.len() && later[i] == v;
                    if i < at {
                        assert(earlier[i] == v);
                    }
                }
                if earlier.contains(v) {
                    let i = choose|i: int| 0 <= i < earlier.len() && earlier[i] == v;
                    assert(later[i] == v);
                }
                if v == vertices@[at as int] {
                    assert(later[at as int] == v);
                }
            }
            assert(coloring@.dom() =~= later.to_set());
        }
        at = at + 1;
    }
    assert(vertices@.take(at as int) =~= vertices@);
    proof {
        if vertices@.len() > 0 {
            assert(adj.contains_key(top));
        } else {
            assert(coloring@.dom() =~= Set::<u32>::empty());
        }
    }
    let mut waiting = vertices;
    let mut left = draws;
    while left > 0
        invariant
            graph.wf(),
            adj == graph.adjacency(),
            0 < bound <= widest + 1,
            coloring@.dom() == adj.dom(),
            forall|v: u32| #[trigger] coloring@.contains_key(v) ==> coloring@[v] <= widest,
            forall|i: int| 0 <= i < waiting@.len() ==> adj.contains_key(#[trigger] waiting@[i]),
            forall|v: u32| #[trigger]
                adj.contains_key(v) ==> adj.contains_key(top) && adj[top].len() == widest,
            adj.dom().finite(),
        decreases left,
    {
        left = left - 1;
        match waiting.pop() {
            Some(u) => {
                let own = *coloring.get(&u).unwrap();
                if neighbor_colors(graph, u, &coloring).contains(&own) {
                    let color = random_below(bound) as usize;
                    coloring.insert(u, color);
                    waiting.push(u);
                    assert(coloring@.dom() =~= adj.dom());
                }
            },
            None => {
                if check_partial(graph, &coloring) {
                    proof {
                        lemma_drawn(adj, coloring@, top, widest);
                    }
                    return Some(coloring);
                }
                waiting = graph.vertices();
                assert(forall|i: int|
                    0 <= i < waiting@.len() ==> waiting@.to_set().contains(#[trigger] waiting@[i]));
            },
        }
    }
    proof {
        lemma_drawn(adj, coloring@, top, widest);
    }
    if check_partial(graph, &coloring) {
        Some(coloring)
    } else {
        None
    }
}

/// Coloring a Graph
pub trait Colorer: Graphed {
    /// Colors a graph using a specific technique outlined in [Lemma 2.6](https://arxiv.org/pdf/1905.00566.pdf#page=7)
    ///
    /// Every vertex gets a color. In a graph whose edges go both ways, a
    /// graph of degeneracy `k` gets no color beyond `k`; if no vertex is its
    /// own neighbor either, the two ends of every edge get different colors.
    fn color_degeneracy(&self) -> (coloring: Coloring)
        requires
            self.wf(),
        ensures
            coloring@.dom() == self.adjacency().dom(),
            symmetric(self.adjacency()) ==> forall|k: nat, v: u32|
                #![trigger degenerate(self.adjacency(), k), coloring@.contains_key(v)]
                degenerate(self.adjacency(), k) && coloring@.contains_key(v) ==> coloring@[v] <= k,
            symmetric(self.adjacency()) && loop_free(self.adjacency()) ==> proper(
                self.adjacency(),
                coloring@,
            ),
    ;

    /// Colors every vertex by chance, with a color that is no larger than
    /// the largest degree, and draws again for a vertex that has a neighbor
    /// of its own color, `draws` times at most. See [`color_by_chance`].
    ///
    /// There is no coloring only where a coloring that was drawn gives a
    /// vertex a neighbor of its own color.
    fn randomized(&self, draws: usize) -> (coloring: Option<Coloring>)
        requires
            self.wf(),
        ensures
            match coloring {
                Some(found) => drawn(self.adjacency(), found@) && partial(
                    self.adjacency(),
                    found@,
                ),
                None => exists|last: Map<u32, usize>| #[trigger]
                    drawn(self.adjacency(), last) && !partial(self.adjacency(), last),
            },
    ;

    /// Whether no vertex of the coloring has a neighbor of its own color.
    /// The coloring is one for the graph: it colors the neighbors of the
    /// vertices that it colors.
    fn is_proper(&self, coloring: &Coloring) -> (ok: bool)
        requires
            self.wf(),
            forall|u: u32, v: u32|
                coloring@.contains_key(u) && self.adjacency().contains_key(u)
                    && #[trigger] self.adjacency()[u].contains(v) ==> coloring@.contains_key(v),
        ensures
            ok == partial(self.adjacency(), coloring@),
    ;

    /// Whether no vertex of the coloring has a colored neighbor of its own
    /// color.
    fn is_partial(&self, coloring: &Coloring) -> (ok: bool)
        requires
            self.wf(),
        ensures
            ok == partial(self.adjacency(), coloring@),
    ;

    /// Colors the vertices one after the other, each with a color that
    /// none of its neighbors has: the least one, or one of the vertex's list
    /// where lists are given. See [`color_in_turn`].
    fn greedy(&self, color_options: Option<HashMap<u32, HashSet<u32>>>) -> (coloring: Coloring)
        requires
            self.wf(),
        ensures
            forall|v: u32| #[trigger]
                coloring@.contains_key(v) ==> self.adjacency().contains_key(v),
            color_options is None ==> forall|v: u32| #[trigger]
                self.adjacency().contains_key(v) ==> coloring@.contains_key(v) && coloring@[v]
                    < self.adjacency().dom().len(),
            color_options matches Some(lists) ==> forall|v: u32| #[trigger]
                coloring@.contains_key(v) ==> lists@.contains_key(v) && coloring@[v] <= u32::MAX
                    && lists@[v]@.contains(coloring@[v] as u32),
            color_options matches Some(lists) ==> forall|v: u32| #[trigger]
                self.adjacency().contains_key(v) && !coloring@.contains_key(v) ==> left_out(
                    self.adjacency(),
                    lists@,
                    coloring@,
                    v,
                ),
            symmetric(self.adjacency()) && loop_free(self.adjacency()) ==> partial(
                self.adjacency(),
                coloring@,
            ),
    ;
}

impl<G: Graphed> Colorer for G {
    fn color_degeneracy(&self) -> (coloring: Coloring) {
        let (coloring, _) = color_smallest_last(self);
        coloring
    }

    fn randomized(&self, draws: usize) -> (coloring: Option<Coloring>) {
        color_by_chance(self, draws)
    }

    fn is_proper(&self, coloring: &Coloring) -> (ok: bool) {
        check_partial(self, coloring)
    }

    fn is_partial(&self, coloring: &Coloring) -> (ok: bool) {
        check_partial(self, coloring)
    }

    fn greedy(&self, color_options: Option<HashMap<u32, HashSet<u32>>>) -> (coloring: Coloring) {
        color_in_turn(self, &color_options)
    }
}

/// A coloring that colors every vertex and its neighbors is proper exactly
/// if no colored vertex has a colored neighbor of its own color.
pub proof fn lemma_proper_is_partial(adj: Map<u32, Set<u32>>, coloring: Map<u32, usize>)
    requires
        forall|v: u32| #[trigger] adj.contains_key(v) ==> coloring.contains_key(v),
        forall|u: u32, v: u32|
            adj.contains_key(u) && #[trigger] adj[u].contains(v) ==> coloring.contains_key(v),
    ensures
        proper(adj, coloring) <==> partial(adj, coloring),
{
}

} // verus!
