//! Contains all things related to graphs

use std::collections::{HashMap, HashSet};
use vstd::prelude::*;

use crate::graph::vertex_heap::{
    degrees, heap_get, heap_peek, heap_pop, heap_push, heap_remove, heap_with_capacity,
    VertexHeap,
};
use crate::utils::collections::{lemma_hash_set_finite, map_keys, set_items};

pub mod edge;
pub mod static_a;
pub mod streaming;
pub mod text;
pub mod vertex_heap;

pub use edge::{Edge, EdgeDestination};

verus! {

/// The adjacency list of a graph as a map from each vertex to the set of
/// its neighbors.
pub open spec fn adjacency_of(list: HashMap<u32, HashSet<u32>>) -> Map<u32, Set<u32>> {
    Map::new(|v: u32| list@.contains_key(v), |v: u32| list@[v]@)
}

/// The neighbors of a vertex, none where the graph does not hold it.
pub open spec fn neighbors_of(adj: Map<u32, Set<u32>>, v: u32) -> Set<u32> {
    if adj.contains_key(v) {
        adj[v]
    } else {
        Set::empty()
    }
}

/// The graph with `v` among the neighbors of `u`.
pub open spec fn with_arc(adj: Map<u32, Set<u32>>, u: u32, v: u32) -> Map<u32, Set<u32>> {
    adj.insert(u, neighbors_of(adj, u).insert(v))
}

/// The graph with the edge from `u` to `v`, and back unless it is directed.
pub open spec fn with_edge(adj: Map<u32, Set<u32>>, u: u32, v: u32, directed: bool) -> Map<
    u32,
    Set<u32>,
> {
    if directed {
        with_arc(adj, u, v)
    } else {
        with_arc(with_arc(adj, u, v), v, u)
    }
}

/// The graph with `v` no longer among the neighbors of `u`.
pub open spec fn without_arc(adj: Map<u32, Set<u32>>, u: u32, v: u32) -> Map<u32, Set<u32>> {
    if adj.contains_key(u) {
        adj.insert(u, adj[u].remove(v))
    } else {
        adj
    }
}

/// The graph without `v` if `v` has no neighbor.
pub open spec fn without_isolated(adj: Map<u32, Set<u32>>, v: u32) -> Map<u32, Set<u32>> {
    if adj.contains_key(v) && adj[v] == Set::<u32>::empty() {
        adj.remove(v)
    } else {
        adj
    }
}

/// The graph without the edge between `u` and `v`, in either direction,
/// and without those of the two vertices that are left with no neighbor.
pub open spec fn without_edge(adj: Map<u32, Set<u32>>, u: u32, v: u32) -> Map<u32, Set<u32>> {
    without_isolated(without_isolated(without_arc(without_arc(adj, u, v), v, u), u), v)
}

/// The graph without the vertex `v`: `v` leaves the graph and the neighbors
/// of its neighbors.
pub open spec fn without_vertex(adj: Map<u32, Set<u32>>, v: u32) -> Map<u32, Set<u32>> {
    if adj.contains_key(v) {
        Map::new(
            |w: u32| adj.contains_key(w) && w != v,
            |w: u32|
                if adj[v].contains(w) {
                    adj[w].remove(v)
                } else {
                    adj[w]
                },
        )
    } else {
        adj
    }
}

/// Whether the graph holds finitely many vertices, each with finitely many
/// neighbors.
pub open spec fn finite_graph(adj: Map<u32, Set<u32>>) -> bool {
    &&& adj.dom().finite()
    &&& forall|v: u32| #[trigger] adj.contains_key(v) ==> adj[v].finite()
}

/// Whether each neighbor of a vertex is a vertex that has it as a neighbor.
pub open spec fn symmetric(adj: Map<u32, Set<u32>>) -> bool {
    forall|u: u32, v: u32|
        adj.contains_key(u) && #[trigger] adj[u].contains(v) ==> adj.contains_key(v)
            && adj[v].contains(u)
}

/// Whether no vertex is its own neighbor.
pub open spec fn loop_free(adj: Map<u32, Set<u32>>) -> bool {
    forall|v: u32| #[trigger] adj.contains_key(v) ==> !adj[v].contains(v)
}

/// Whether `v` is a vertex of least degree, and `degree` its degree.
pub open spec fn least_degree(adj: Map<u32, Set<u32>>, v: u32, degree: nat) -> bool {
    &&& adj.contains_key(v)
    &&& adj[v].len() == degree
    &&& forall|w: u32| #[trigger] adj.contains_key(w) ==> degree <= adj[w].len()
}

/// The graph of an adjacency list is finite.
pub proof fn lemma_adjacency_finite(list: HashMap<u32, HashSet<u32>>)
    ensures
        finite_graph(adjacency_of(list)),
{
    broadcast use vstd::std_specs::hash::group_hash_axioms;

    assert(adjacency_of(list).dom() =~= list@.dom());
    assert forall|v: u32| #[trigger] adjacency_of(list).contains_key(v) implies adjacency_of(
        list,
    )[v].finite() by {
        lemma_hash_set_finite(&list@[v]);
    }
}

/// A graph is, conceptually, a tuple G = (V, E), where:
///
/// V \subset N i.e. The graphs set of vertices
/// E = {(u,v) : u,v \in V} i.e. The graphs set of edges
///
/// In our implementation, a graph is stored as an adjacency list form, or a HashMap of vertices to the set of their neighbors.
pub trait Graphed: Sized {
    /// The neighbors of each vertex.
    spec fn adjacency(&self) -> Map<u32, Set<u32>>;

    /// What the graph needs to hold of itself.
    spec fn wf(&self) -> bool;

    /// A well-formed graph is finite.
    proof fn lemma_finite(&self)
        requires
            self.wf(),
        ensures
            finite_graph(self.adjacency()),
    ;

    /// Create a new Graph, given the adjacency list of that graph
    fn new(adjacency_list: HashMap<u32, HashSet<u32>>) -> (graph: Self)
        ensures
            graph.wf(),
            graph.adjacency() == adjacency_of(adjacency_list),
    ;

    /// Fetch the adjacency list of a graph
    fn adj_list(&self) -> (list: &HashMap<u32, HashSet<u32>>)
        requires
            self.wf(),
        ensures
            adjacency_of(*list) == self.adjacency(),
    ;

    /// Get all vertices in a graph
    fn vertices(&self) -> (vertices: Vec<u32>)
        requires
            self.wf(),
        ensures
            vertices@.no_duplicates(),
            vertices@.to_set() == self.adjacency().dom(),
    ;

    /// Get the neighbors of a provided vertex
    fn get_neighbors(&self, vertex: &u32) -> (neighbors: Option<&HashSet<u32>>)
        requires
            self.wf(),
        ensures
            match neighbors {
                Some(set) => self.adjacency().contains_key(*vertex) && set@
                    == self.adjacency()[*vertex],
                None => !self.adjacency().contains_key(*vertex),
            },
    ;

    /// Add an edge to a graph, and the vertices of the edge that the graph
    /// does not hold yet.
    fn add_edge(&mut self, edge: Edge<u32, ()>)
        requires
            old(self).wf(),
        ensures
            final(self).wf(),
            final(self).adjacency() == with_edge(
                old(self).adjacency(),
                edge.first(),
                edge.second(),
                edge.is_directed(),
            ),
    ;

    /// Remove an edge from a graph
    fn remove_edge(&mut self, edge: Edge<u32, ()>)
        requires
            old(self).wf(),
        ensures
            final(self).wf(),
            final(self).adjacency() == without_edge(
                old(self).adjacency(),
                edge.first(),
                edge.second(),
            ),
    ;

    /// Remove a vertex, and all of it's incident edges from the graph
    fn remove_vertex(&mut self, vertex: &u32)
        requires
            old(self).wf(),
        ensures
            final(self).wf(),
            final(self).adjacency() == without_vertex(old(self).adjacency(), *vertex),
    ;

    /// Fetch the minimum degree of a graph
    fn min_degree(&self) -> (least: Option<(u32, usize)>)
        requires
            self.wf(),
        ensures
            match least {
                Some((v, degree)) => least_degree(self.adjacency(), v, degree as nat),
                None => self.adjacency().dom() == Set::<u32>::empty(),
            },
    ;

    /// Remove the vertex of minimum degree
    fn remove_min(&mut self) -> (removed: Option<u32>)
        requires
            old(self).wf(),
        ensures
            final(self).wf(),
            match removed {
                Some(v) => {
                    &&& least_degree(old(self).adjacency(), v, old(self).adjacency()[v].len())
                    &&& final(self).adjacency() == without_vertex(old(self).adjacency(), v)
                },
                None => {
                    &&& old(self).adjacency().dom() == Set::<u32>::empty()
                    &&& final(self).adjacency() == old(self).adjacency()
                },
            },
    ;

    /// Check if the graph is empty.
    fn is_empty(&self) -> (empty: bool)
        requires
            self.wf(),
        ensures
            empty == (self.adjacency().dom() == Set::<u32>::empty()),
    ;

    /// Has edge
    fn has_edge(&self, edge: &Edge<u32, ()>) -> (has: bool)
        requires
            self.wf(),
        ensures
            has == (self.adjacency().contains_key(edge.first()) && self.adjacency()[edge.first()].contains(
                edge.second(),
            )),
    ;

    /// A copy of the graph.
    fn duplicate(&self) -> (copy: Self)
        requires
            self.wf(),
        ensures
            copy.wf(),
            copy.adjacency() == self.adjacency(),
    ;
}

/// Simple Graph
///
/// Simplest version of a Graph that contains just the Adjacency list.
#[derive(Debug, Clone, Default, PartialEq, Eq)]
pub struct Graph {
    adjacency_list: HashMap<u32, HashSet<u32>>,
}

/// The part of the graph on the vertices of `keep`: the other vertices
/// leave the graph and the neighbors of their neighbors.
pub open spec fn induced(adj: Map<u32, Set<u32>>, keep: Set<u32>) -> Map<u32, Set<u32>> {
    Map::new(
        |w: u32| adj.contains_key(w) && keep.contains(w),
        |w: u32|
            Set::new(
                |x: u32|
                    adj[w].contains(x) && !(adj.contains_key(x) && !keep.contains(x)
                        && adj[x].contains(w)),
            ),
    )
}

impl Graph {
    /// The adjacency list.
    pub closed spec fn list(&self) -> HashMap<u32, HashSet<u32>> {
        self.adjacency_list
    }

    /// Puts `v` among the neighbors of `u`.
    fn add_arc(&mut self, u: u32, v: u32)
        ensures
            final(self).adjacency() == with_arc(old(self).adjacency(), u, v),
    {
        broadcast use vstd::std_specs::hash::group_hash_axioms;

        let mut set = match self.adjacency_list.remove(&u) {
            Some(set) => set,
            None => HashSet::new(),
        };
        set.insert(v);
        self.adjacency_list.insert(u, set);
        assert(self.adjacency() =~= with_arc(old(self).adjacency(), u, v));
    }

    /// Takes `v` from the neighbors of `u`.
    fn remove_arc(&mut self, u: u32, v: u32)
        ensures
            final(self).adjacency() == without_arc(old(self).adjacency(), u, v),
    {
        broadcast use vstd::std_specs::hash::group_hash_axioms;

        match self.adjacency_list.remove(&u) {
            Some(set) => {
                let mut set = set;
                set.remove(&v);
                self.adjacency_list.insert(u, set);
            },
            None => {},
        }
        assert(self.adjacency() =~= without_arc(old(self).adjacency(), u, v));
    }

    /// Takes `v` from the graph if it has no neighbor.
    fn remove_isolated(&mut self, v: u32)
        ensures
            final(self).adjacency() == without_isolated(old(self).adjacency(), v),
    {
        broadcast use vstd::std_specs::hash::group_hash_axioms;

        let isolated = match self.adjacency_list.get(&v) {
            Some(set) => set.is_empty(),
            None => false,
        };
        if isolated {
            self.adjacency_list.remove(&v);
        }
        proof {
            if old(self).adjacency().contains_key(v) {
                assert(old(self).list()@[v]@.is_empty() <==> old(self).adjacency()[v] =~= Set::<
                    u32,
                >::empty());
            }
            assert(self.adjacency() =~= without_isolated(old(self).adjacency(), v));
        }
    }

    /// Takes an edge from the graph: the edge between the first vertex that
    /// the graph hands out and the first of its neighbors. There is none if
    /// the graph has no vertex, or if that vertex has no neighbor.
    pub fn next(&mut self) -> (edge: Option<Edge<u32, ()>>)
        ensures
            match edge {
                Some(edge) => {
                    &&& !edge.is_directed()
                    &&& old(self).adjacency().contains_key(edge.first())
                    &&& old(self).adjacency()[edge.first()].contains(edge.second())
                    &&& final(self).adjacency() == without_edge(
                        old(self).adjacency(),
                        edge.first(),
                        edge.second(),
                    )
                },
                None => {
                    &&& final(self).adjacency() == old(self).adjacency()
                    &&& old(self).adjacency().dom() == Set::<u32>::empty() || exists|v: u32|
                        old(self).adjacency().contains_key(v) && #[trigger] old(
                            self,
                        ).adjacency()[v] == Set::<u32>::empty()
                },
            },
    {
        broadcast use vstd::std_specs::hash::group_hash_axioms;

        let vertices = self.vertices();
        if vertices.len() == 0 {
            assert(self.adjacency().dom() =~= Set::<u32>::empty());
            return None;
        }
        let v1 = vertices[0];
        assert(vertices@.to_set().contains(vertices@[0]));
        let neighbors = set_items(self.get_neighbors(&v1).unwrap());
        if neighbors.len() == 0 {
            assert(self.adjacency()[v1] =~= Set::<u32>::empty());
            return None;
        }
        let v2 = neighbors[0];
        assert(neighbors@.to_set().contains(neighbors@[0]));
        let edge = Edge::init(v1, v2);
        self.remove_edge(edge);
        Some(edge)
    }

    /// The part of the graph on the given vertices.
    pub fn induce(self, vertices: &HashSet<u32>) -> (part: Self)
        ensures
            part.adjacency() == induced(self.adjacency(), vertices@),
    {
        broadcast use vstd::std_specs::hash::group_hash_axioms;

        let mut new = self.duplicate();
        let all = self.vertices();
        let ghost adj = self.adjacency();
        let ghost keep = vertices@;
        let mut at: usize = 0;
        while at < all.len()
            invariant
                at <= all@.len(),
                all@.to_set() == adj.dom(),
                keep == vertices@,
                forall|w: u32|
                    #![trigger new.adjacency().contains_key(w)]
                    #![trigger gone(all@, at as int, keep, w)]
                    new.adjacency().contains_key(w) <==> adj.contains_key(w) && !gone(
                        all@,
                        at as int,
                        keep,
                        w,
                    ),
                forall|w: u32, x: u32|
                    #![trigger new.adjacency()[w].contains(x)]
                    new.adjacency().contains_key(w) ==> (new.adjacency()[w].contains(x)
                        <==> adj[w].contains(x) && !(gone(all@, at as int, keep, x)
                        && adj[x].contains(w))),
            decreases all@.len() - at,
        {
            let v = all[at];
            assert(all@.to_set().contains(all@[at as int]));
            let ghost before = new.adjacency();
            proof {
                assert forall|x: u32|
                    #[trigger] gone(all@, at + 1, keep, x) <==> gone(all@, at as int, keep, x) || (
                    x == v && !keep.contains(x)) by {
                    lemma_gone_step(all@, at as int, keep, x);
                }
            }
            if !vertices.contains(&v) {
                new.remove_vertex(&v);
            }
            at = at + 1;
        }
        proof {
            let got = new.adjacency();
            let want = induced(adj, keep);
            assert forall|w: u32| adj.contains_key(w) implies (gone(all@, at as int, keep, w)
                <==> !keep.contains(w)) by {
                assert(all@.to_set().contains(w));
                let k = choose|k: int| 0 <= k < all@.len() && all@[k] == w;
                if !keep.contains(w) {
                    assert(0 <= k < at && all@[k] == w && !keep.contains(w));
                }
            }
            assert forall|w: u32| got.contains_key(w) <==> want.contains_key(w) by {
                if adj.contains_key(w) {
                    assert(gone(all@, at as int, keep, w) <==> !keep.contains(w));
                }
            }
            assert(got.dom() =~= want.dom());
            assert forall|w: u32| got.contains_key(w) implies got[w] =~= want[w] by {
                assert forall|x: u32| got[w].contains(x) <==> want[w].contains(x) by {
                    if adj.contains_key(x) {
                        assert(gone(all@, at as int, keep, x) <==> !keep.contains(x));
                    }
                }
            }
            assert(got =~= want);
        }
        new
    }
}

/// Whether `x` is among the first `at` of `all` and not in `keep`.
spec fn gone(all: Seq<u32>, at: int, keep: Set<u32>, x: u32) -> bool {
    exists|k: int| 0 <= k < at && all[k] == x && !keep.contains(x)
}

proof fn lemma_gone_step(all: Seq<u32>, at: int, keep: Set<u32>, x: u32)
    requires
        0 <= at < all.len(),
    ensures
        gone(all, at + 1, keep, x) <==> gone(all, at, keep, x) || (x == all[at] && !keep.contains(
            x,
        )),
{
    if gone(all, at + 1, keep, x) {
        let k = choose|k: int| 0 <= k < at + 1 && all[k] == x && !keep.contains(x);
        if k < at {
            assert(gone(all, at, keep, x));
        }
    }
    if gone(all, at, keep, x) {
        let k = choose|k: int| 0 <= k < at && all[k] == x && !keep.contains(x);
        assert(0 <= k < at + 1 && all[k] == x && !keep.contains(x));
    }
    if x == all[at] && !keep.contains(x) {
        assert(0 <= at < at + 1 && all[at] == x && !keep.contains(x));
    }
}

impl Graphed for Graph {
    open spec fn adjacency(&self) -> Map<u32, Set<u32>> {
        adjacency_of(self.list())
    }

    open spec fn wf(&self) -> bool {
        true
    }

    proof fn lemma_finite(&self) {
        lemma_adjacency_finite(self.list());
    }

    /// Runtime: O(1)
    fn new(adjacency_list: HashMap<u32, HashSet<u32>>) -> (graph: Self) {
        Self { adjacency_list }
    }

    fn adj_list(&self) -> (list: &HashMap<u32, HashSet<u32>>) {
        &self.adjacency_list
    }

    /// Runtime: O(n)
    fn vertices(&self) -> (vertices: Vec<u32>) {
        broadcast use vstd::std_specs::hash::group_hash_axioms;

        let vertices = map_keys(&self.adjacency_list);
        assert(self.adjacency().dom() =~= self.adjacency_list@.dom());
        vertices
    }

    /// Runtime: O(1)
    fn get_neighbors(&self, vertex: &u32) -> (neighbors: Option<&HashSet<u32>>) {
        broadcast use vstd::std_specs::hash::group_hash_axioms;

        self.adjacency_list.get(vertex)
    }

    /// Runtime: O(n^2)
    fn remove_vertex(&mut self, vertex: &u32) {
        broadcast use vstd::std_specs::hash::group_hash_axioms;

        let v = *vertex;
        let ghost adj = self.adjacency();
        let neighbors = match self.adjacency_list.remove(vertex) {
            Some(set) => set_items(&set),
            None => {
                assert(self.adjacency() =~= adj);
                return ;
            },
        };
        let mut at: usize = 0;
        while at < neighbors.len()
            invariant
                at <= neighbors@.len(),
                adj.contains_key(v),
                neighbors@.to_set() == adj[v],
                self.adjacency().dom() =~= adj.dom().remove(v),
                forall|w: u32| #[trigger]
                    self.adjacency().contains_key(w) ==> self.adjacency()[w] == if exists|k: int|
                        0 <= k < at && neighbors@[k] == w {
                        adj[w].remove(v)
                    } else {
                        adj[w]
                    },
            decreases neighbors@.len() - at,
        {
            let w = neighbors[at];
            let ghost before = self.adjacency();
            self.remove_arc(w, v);
            proof {
                let after = self.adjacency();
                assert(after.dom() =~= before.dom());
                assert forall|x: u32| #[trigger] after.contains_key(x) implies after[x]
                    == if exists|k: int| 0 <= k < at + 1 && neighbors@[k] == x {
                    adj[x].remove(v)
                } else {
                    adj[x]
                } by {
                    assert(before.contains_key(x));
                    if x == w {
                        assert(neighbors@[at as int] == x);
                        assert(adj[x].remove(v).remove(v) =~= adj[x].remove(v));
                    } else {
                        if exists|k: int| 0 <= k < at + 1 && neighbors@[k] == x {
                            let k = choose|k: int| 0 <= k < at + 1 && neighbors@[k] == x;
                            assert(k < at);
                        }
                    }
                }
            }
            at = at + 1;
        }
        proof {
            let got = self.adjacency();
            let want = without_vertex(adj, v);
            assert(got.dom() =~= want.dom());
            assert forall|w: u32| got.contains_key(w) implies got[w] == want[w] by {
                if adj[v].contains(w) {
                    assert(neighbors@.to_set().contains(w));
                    let k = choose|k: int| 0 <= k < neighbors@.len() && neighbors@[k] == w;
                    assert(0 <= k < at && neighbors@[k] == w);
                } else {
                    if exists|k: int| 0 <= k < at && neighbors@[k] == w {
                        let k = choose|k: int| 0 <= k < at && neighbors@[k] == w;
                        assert(neighbors@.to_set().contains(neighbors@[k]));
                    }
                }
            }
            assert(got =~= want);
        }
    }

    /// Runtime: O(n)
    fn min_degree(&self) -> (least: Option<(u32, usize)>) {
        broadcast use vstd::std_specs::hash::group_hash_axioms;

        let keys = map_keys(&self.adjacency_list);
        assert(self.adjacency().dom() =~= self.adjacency_list@.dom());
        if keys.len() == 0 {
            assert(self.adjacency().dom() =~= Set::<u32>::empty());
            return None;
        }
        assert(keys@.to_set().contains(keys@[0]));
        let mut vertex = keys[0];
        let mut min = self.adjacency_list.get(&vertex).unwrap().len();
        let mut at: usize = 1;
        while at < keys.len()
            invariant
                1 <= at <= keys@.len(),
                keys@.to_set() == self.adjacency().dom(),
                self.adjacency().contains_key(vertex),
                self.adjacency()[vertex].len() == min,
                forall|k: int| 0 <= k < at ==> min <= self.adjacency()[#[trigger] keys@[k]].len(),
            decreases keys@.len() - at,
        {
            let ver = keys[at];
            assert(keys@.to_set().contains(keys@[at as int]));
            let len = self.adjacency_list.get(&ver).unwrap().len();
            if len < min {
                vertex = ver;
                min = len;
            }
            at = at + 1;
        }
        proof {
            assert forall|w: u32| #[trigger] self.adjacency().contains_key(w) implies min
                <= self.adjacency()[w].len() by {
                assert(keys@.to_set().contains(w));
                let k = choose|k: int| 0 <= k < keys@.len() && keys@[k] == w;
                assert(min <= self.adjacency()[keys@[k]].len());
            }
        }
        Some((vertex, min))
    }

    /// Runtime: O(1)
    fn is_empty(&self) -> (empty: bool) {
        broadcast use vstd::std_specs::hash::group_hash_axioms;

        assert(self.adjacency().dom() =~= self.adjacency_list@.dom());
        self.adjacency_list.is_empty()
    }

    /// Runtime: O(1)
    fn add_edge(&mut self, edge: Edge<u32, ()>) {
        let (u, v) = edge.vertices();
        let (u, v) = (*u, *v);
        self.add_arc(u, v);
        if !edge.directed() {
            self.add_arc(v, u);
        }
    }

    fn remove_edge(&mut self, edge: Edge<u32, ()>) {
        let (u, v) = edge.vertices();
        let (u, v) = (*u, *v);
        self.remove_arc(u, v);
        self.remove_arc(v, u);
        self.remove_isolated(u);
        self.remove_isolated(v);
    }

    /// Runtime: O(n^2)
    fn remove_min(&mut self) -> (removed: Option<u32>) {
        match self.min_degree() {
            Some((vertex, _)) => {
                self.remove_vertex(&vertex);
                Some(vertex)
            },
            None => None,
        }
    }

    /// Runtime: O(1)
    fn has_edge(&self, edge: &Edge<u32, ()>) -> (has: bool) {
        broadcast use vstd::std_specs::hash::group_hash_axioms;

        let (u, v) = edge.vertices();
        match self.adjacency_list.get(u) {
            Some(neighbors) => neighbors.contains(v),
            None => false,
        }
    }

    fn duplicate(&self) -> (copy: Self) {
        Self { adjacency_list: self.adjacency_list.clone() }
    }
}

/// A more comprehensive Graph representation
///
/// This graph also holds a PriorityQueue to keep track of vertex degrees.
#[derive(Debug)]
pub struct GraphWithRecaller {
    graph: Graph,
    /// Component of the graph that keeps track of degree orderings
    vertex_heap: VertexHeap,
}

/// Whether the queue holds the vertices of the graph, but `without` where
/// that is one, each with its degree.
spec fn heap_matches(heap: Map<u32, usize>, adj: Map<u32, Set<u32>>, without: Option<u32>) -> bool {
    &&& forall|v: u32|
        heap.contains_key(v) <==> #[trigger] adj.contains_key(v) && without != Some(v)
    &&& forall|v: u32| #[trigger] heap.contains_key(v) ==> heap[v] == adj[v].len()
}

impl GraphWithRecaller {
    /// The graph that the queue is kept for.
    pub closed spec fn inner(&self) -> Graph {
        self.graph
    }

    /// The degrees that the queue holds.
    pub closed spec fn heap(&self) -> Map<u32, usize> {
        degrees(self.vertex_heap)
    }

    /// Add a vertex recaller structure to our Graph
    ///
    /// This enabled us to always know the vertex of minimum degree
    ///
    /// Runtime: `O(nlog(n))`
    pub fn from(graph: Graph) -> (with: Self)
        ensures
            with.wf(),
            with.adjacency() == graph.adjacency(),
    {
        broadcast use vstd::std_specs::hash::group_hash_axioms;

        let keys = graph.vertices();
        let mut queue = heap_with_capacity(keys.len());
        let ghost adj = graph.adjacency();
        let mut at: usize = 0;
        while at < keys.len()
            invariant
                at <= keys@.len(),
                adj == graph.adjacency(),
                keys@.to_set() == adj.dom(),
                forall|v: u32|
                    degrees(queue).contains_key(v) <==> exists|k: int|
                        0 <= k < at && #[trigger] keys@[k] == v,
                forall|v: u32| #[trigger]
                    degrees(queue).contains_key(v) ==> adj.contains_key(v) && degrees(queue)[v]
                        == adj[v].len(),
            decreases keys@.len() - at,
        {
            let v = keys[at];
            assert(keys@.to_set().contains(keys@[at as int]));
            let len = graph.get_neighbors(&v).unwrap().len();
            let ghost before = degrees(queue);
            heap_push(&mut queue, v, len);
            proof {
                assert forall|w: u32|
                    degrees(queue).contains_key(w) <==> exists|k: int|
                        0 <= k < at + 1 && #[trigger] keys@[k] == w by {
                    if w == v {
                        assert(keys@[at as int] == w);
                    } else if before.contains_key(w) {
                        let k = choose|k: int| 0 <= k < at && #[trigger] keys@[k] == w;
                        assert(0 <= k < at + 1 && keys@[k] == w);
                    } else if exists|k: int| 0 <= k < at + 1 && #[trigger] keys@[k] == w {
                        let k = choose|k: int| 0 <= k < at + 1 && #[trigger] keys@[k] == w;
                        assert(k < at);
                    }
                }
            }
            at = at + 1;
        }
        proof {
            assert forall|v: u32| adj.contains_key(v) implies degrees(queue).contains_key(v) by {
                assert(keys@.to_set().contains(v));
                let k = choose|k: int| 0 <= k < keys@.len() && keys@[k] == v;
                assert(0 <= k < at && keys@[k] == v);
            }
        }
        Self { graph, vertex_heap: queue }
    }

    /// The degree that the queue holds for a vertex: the number of its
    /// neighbors, or `None` if the graph does not hold the vertex.
    pub fn priority(&self, vertex: u32) -> (degree: Option<usize>)
        requires
            self.wf(),
        ensures
            match degree {
                Some(degree) => self.adjacency().contains_key(vertex) && degree
                    == self.adjacency()[vertex].len(),
                None => !self.adjacency().contains_key(vertex),
            },
    {
        heap_get(&self.vertex_heap, vertex)
    }

    /// Takes an edge from the graph, as [`Graph::next`] does: there is none
    /// only if the graph has no vertex, or a vertex without a neighbor.
    pub fn next(&mut self) -> (edge: Option<Edge<u32, ()>>)
        requires
            old(self).wf(),
        ensures
            final(self).wf(),
            match edge {
                Some(edge) => {
                    &&& !edge.is_directed()
                    &&& old(self).adjacency().contains_key(edge.first())
                    &&& old(self).adjacency()[edge.first()].contains(edge.second())
                    &&& final(self).adjacency() == without_edge(
                        old(self).adjacency(),
                        edge.first(),
                        edge.second(),
                    )
                },
                None => {
                    &&& final(self).adjacency() == old(self).adjacency()
                    &&& old(self).adjacency().dom() == Set::<u32>::empty() || exists|v: u32|
                        old(self).adjacency().contains_key(v) && #[trigger] old(
                            self,
                        ).adjacency()[v] == Set::<u32>::empty()
                },
            },
    {
        match self.graph.next() {
            Some(edge) => {
                let (v1, v2) = edge.vertices();
                let (v1, v2) = (*v1, *v2);
                self.refresh(v1);
                self.refresh(v2);
                Some(edge)
            },
            None => None,
        }
    }

    /// Brings the degree that the queue holds for `v` up to date.
    fn refresh(&mut self, v: u32)
        ensures
            final(self).inner() == old(self).inner(),
            final(self).heap() == match old(self).adjacency().get(v) {
                Some(set) => old(self).heap().insert(v, set.len() as usize),
                None => old(self).heap().remove(v),
            },
            old(self).adjacency().contains_key(v) ==> old(self).adjacency()[v].len()
                <= usize::MAX,
    {
        broadcast use vstd::std_specs::hash::group_hash_axioms;

        match self.graph.get_neighbors(&v) {
            Some(set) => {
                let len = set.len();
                heap_push(&mut self.vertex_heap, v, len);
            },
            None => {
                heap_remove(&mut self.vertex_heap, v);
            },
        }
    }

    /// Takes `vertex` from the graph, where the queue has lost it already,
    /// and brings the degrees of its neighbors up to date.
    fn remove_from_graph(&mut self, vertex: u32)
        requires
            heap_matches(old(self).heap(), old(self).adjacency(), Some(vertex)),
        ensures
            final(self).wf(),
            final(self).adjacency() == without_vertex(old(self).adjacency(), vertex),
    {
        broadcast use vstd::std_specs::hash::group_hash_axioms;

        let ghost adj = self.adjacency();
        let neighbors = match self.graph.get_neighbors(&vertex) {
            Some(set) => set_items(set),
            None => {
                return ;
            },
        };
        self.graph.remove_vertex(&vertex);
        let ghost after = self.adjacency();
        let mut at: usize = 0;
        while at < neighbors.len()
            invariant
                at <= neighbors@.len(),
                adj.contains_key(vertex),
                neighbors@.to_set() == adj[vertex],
                after == without_vertex(adj, vertex),
                self.adjacency() == after,
                forall|v: u32|
                    self.heap().contains_key(v) <==> #[trigger] after.contains_key(v),
                forall|v: u32| #[trigger]
                    self.heap().contains_key(v) ==> self.heap()[v] == if exists|k: int|
                        0 <= k < at && neighbors@[k] == v {
                        after[v].len()
                    } else {
                        adj[v].len()
                    },
            decreases neighbors@.len() - at,
        {
            let w = neighbors[at];
            let ghost before = self.heap();
            self.refresh(w);
            proof {
                assert forall|v: u32| #[trigger] self.heap().contains_key(v) implies self.heap()[v]
                    == if exists|k: int| 0 <= k < at + 1 && neighbors@[k] == v {
                    after[v].len()
                } else {
                    adj[v].len()
                } by {
                    if v == w {
                        assert(neighbors@[at as int] == v);
                    } else {
                        assert(before.contains_key(v));
                        if exists|k: int| 0 <= k < at + 1 && neighbors@[k] == v {
                            let k = choose|k: int| 0 <= k < at + 1 && neighbors@[k] == v;
                            assert(k < at);
                        }
                    }
                }
            }
            at = at + 1;
        }
        proof {
            assert forall|v: u32| #[trigger] self.heap().contains_key(v) implies self.heap()[v]
                == after[v].len() by {
                if !(exists|k: int| 0 <= k < at && neighbors@[k] == v) {
                    if adj[vertex].contains(v) {
                        assert(neighbors@.to_set().contains(v));
                        let k = choose|k: int| 0 <= k < neighbors@.len() && neighbors@[k] == v;
                        assert(0 <= k < at && neighbors@[k] == v);
                    }
                    assert(after[v] == adj[v]);
                }
            }
        }
    }
}

impl Graphed for GraphWithRecaller {
    open spec fn adjacency(&self) -> Map<u32, Set<u32>> {
        self.inner().adjacency()
    }

    closed spec fn wf(&self) -> bool {
        heap_matches(self.heap(), self.adjacency(), None)
    }

    proof fn lemma_finite(&self) {
        self.inner().lemma_finite();
    }

    /// Runtime: O(nlog(n))
    fn new(adjacency_list: HashMap<u32, HashSet<u32>>) -> (graph: Self) {
        let graph = Graph::new(adjacency_list);
        Self::from(graph)
    }

    fn adj_list(&self) -> (list: &HashMap<u32, HashSet<u32>>) {
        self.graph.adj_list()
    }

    /// Runtime: O(1)
    fn vertices(&self) -> (vertices: Vec<u32>) {
        self.graph.vertices()
    }

    /// Runtime: O(nlog(n))
    fn add_edge(&mut self, edge: Edge<u32, ()>) {
        let ghost adj = self.adjacency();
        self.graph.add_edge(edge);
        let (v1, v2) = edge.vertices();
        let (v1, v2) = (*v1, *v2);
        self.refresh(v1);
        if !edge.directed() {
            self.refresh(v2);
        }
    }

    fn remove_edge(&mut self, edge: Edge<u32, ()>) {
        self.graph.remove_edge(edge);
        let (v1, v2) = edge.vertices();
        let (v1, v2) = (*v1, *v2);
        self.refresh(v1);
        self.refresh(v2);
    }

    /// Runtime: O(1)
    fn get_neighbors(&self, vertex: &u32) -> (neighbors: Option<&HashSet<u32>>) {
        self.graph.get_neighbors(vertex)
    }

    /// Runtime: O(1)
    fn is_empty(&self) -> (empty: bool) {
        self.graph.is_empty()
    }

    /// Runtime: O(1)
    fn min_degree(&self) -> (least: Option<(u32, usize)>) {
        let least = heap_peek(&self.vertex_heap);
        proof {
            if least is None {
                assert(self.adjacency().dom() =~= Set::<u32>::empty());
            }
        }
        least
    }

    ///
    /// Runtime: O(nlog(n)); where n = number of neighbors
    fn remove_vertex(&mut self, vertex: &u32) {
        heap_remove(&mut self.vertex_heap, *vertex);
        self.remove_from_graph(*vertex);
    }

    /// Runtime: O(nlog(n))
    fn remove_min(&mut self) -> (removed: Option<u32>) {
        match heap_pop(&mut self.vertex_heap) {
            Some((vertex, _)) => {
                self.remove_from_graph(vertex);
                Some(vertex)
            },
            None => {
                assert(self.adjacency().dom() =~= Set::<u32>::empty());
                None
            },
        }
    }

    fn has_edge(&self, edge: &Edge<u32, ()>) -> (has: bool) {
        self.graph.has_edge(edge)
    }

    fn duplicate(&self) -> (copy: Self) {
        Self::from(self.graph.duplicate())
    }
}

} // verus!
