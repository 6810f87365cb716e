//! Different Graph Search Algorithms

use std::collections::{HashMap, HashSet};
use vstd::prelude::*;
use vstd::set_lib::*;

use crate::graph::edge::{Edge, EdgeDestination};
use crate::graph::{Graph, Graphed};
use crate::utils::collections::{lemma_hash_set_finite, set_items};

verus! {

/// Whether the vertices are a walk in the graph: there is one vertex at
/// least, and each but the last has the next as a neighbor.
pub open spec fn is_walk(adj: Map<u32, Set<u32>>, walk: Seq<u32>) -> bool {
    &&& walk.len() >= 1
    &&& forall|i: int|
        0 <= i < walk.len() - 1 ==> adj.contains_key(#[trigger] walk[i]) && adj[walk[i]].contains(
            walk[i + 1],
        )
}

/// Whether a walk leads from `from` to `to`.
pub open spec fn reaches(adj: Map<u32, Set<u32>>, from: u32, to: u32) -> bool {
    exists|walk: Seq<u32>| #[trigger] is_walk(adj, walk) && walk[0] == from && walk.last() == to
}

/// Whether the set holds the neighbors of its vertices.
pub open spec fn closed(adj: Map<u32, Set<u32>>, set: Set<u32>) -> bool {
    forall|u: u32, v: u32|
        set.contains(u) && adj.contains_key(u) && #[trigger] adj[u].contains(v) ==> set.contains(v)
}

/// Every vertex reaches itself.
pub proof fn lemma_reaches_self(adj: Map<u32, Set<u32>>, a: u32)
    ensures
        reaches(adj, a, a),
{
    let walk = seq![a];
    assert(is_walk(adj, walk) && walk[0] == a && walk.last() == a);
}

/// A walk goes on to a neighbor of its end.
pub proof fn lemma_walk_step(adj: Map<u32, Set<u32>>, walk: Seq<u32>, v: u32)
    requires
        is_walk(adj, walk),
        adj.contains_key(walk.last()),
        adj[walk.last()].contains(v),
    ensures
        is_walk(adj, walk.push(v)),
        walk.push(v)[0] == walk[0],
        walk.push(v).last() == v,
{
    let longer = walk.push(v);
    assert forall|i: int| 0 <= i < longer.len() - 1 implies adj.contains_key(
        #[trigger] longer[i],
    ) && adj[longer[i]].contains(longer[i + 1]) by {
        if i < walk.len() - 1 {
            assert(longer[i] == walk[i]);
            assert(longer[i + 1] == walk[i + 1]);
        }
    }
}

/// What reaches a vertex reaches its neighbors.
pub proof fn lemma_reaches_step(adj: Map<u32, Set<u32>>, a: u32, u: u32, v: u32)
    requires
        reaches(adj, a, u),
        adj.contains_key(u),
        adj[u].contains(v),
    ensures
        reaches(adj, a, v),
{
    let walk = choose|walk: Seq<u32>| #[trigger]
        is_walk(adj, walk) && walk[0] == a && walk.last() == u;
    lemma_walk_step(adj, walk, v);
    assert(is_walk(adj, walk.push(v)));
}

/// A walk that starts in a set that holds the neighbors of its vertices
/// stays in the set.
pub proof fn lemma_closed_holds_walk(adj: Map<u32, Set<u32>>, set: Set<u32>, walk: Seq<u32>, i: int)
    requires
        closed(adj, set),
        is_walk(adj, walk),
        set.contains(walk[0]),
        0 <= i < walk.len(),
    ensures
        set.contains(walk[i]),
    decreases i,
{
    if i > 0 {
        lemma_closed_holds_walk(adj, set, walk, i - 1);
        assert(adj.contains_key(walk[i - 1]) && adj[walk[i - 1]].contains(walk[i - 1 + 1]));
    }
}

/// A set that holds the neighbors of its vertices holds all that its
/// vertices reach.
pub proof fn lemma_closed_holds_reach(adj: Map<u32, Set<u32>>, set: Set<u32>, a: u32, b: u32)
    requires
        closed(adj, set),
        set.contains(a),
        reaches(adj, a, b),
    ensures
        set.contains(b),
{
    let walk = choose|walk: Seq<u32>| #[trigger]
        is_walk(adj, walk) && walk[0] == a && walk.last() == b;
    lemma_closed_holds_walk(adj, set, walk, walk.len() - 1);
}

/// A finite set of `u32` has `2^32` elements at most.
pub proof fn lemma_vertex_set_bound(set: Set<u32>)
    requires
        set.finite(),
    ensures
        set.len() <= 0x1_0000_0000,
{
    let below = Set::<u32>::range(0, u32::MAX);
    range_set_properties::<u32>(0, u32::MAX);
    let all = below.insert(u32::MAX);
    assert(set.subset_of(all));
    lemma_len_subset(set, all);
}

/// Visits the vertices that `root` reaches and that have not been visited
/// yet, and returns them.
///
/// The vertices visited so far hold the neighbors of their vertices, and
/// do so again when the search has ended.
pub fn explore<G: Graphed>(graph: &G, root: u32, visited: &mut HashSet<u32>) -> (component:
    HashSet<u32>)
    requires
        graph.wf(),
        !old(visited)@.contains(root),
        closed(graph.adjacency(), old(visited)@),
    ensures
        final(visited)@ == old(visited)@.union(component@),
        closed(graph.adjacency(), final(visited)@),
        component@.contains(root),
        forall|w: u32|
            component@.contains(w) <==> reaches(graph.adjacency(), root, w) && !old(
                visited,
            )@.contains(w),
{
    broadcast use vstd::std_specs::hash::group_hash_axioms;

    let ghost adj = graph.adjacency();
    let ghost before = visited@;
    let mut component: HashSet<u32> = HashSet::new();
    let mut visiting: Vec<u32> = Vec::new();
    visiting.push(root);
    proof {
        lemma_reaches_self(adj, root);
        lemma_hash_set_finite(visited);
        assert(visited@ =~= before.union(component@));
        assert(visiting@[0] == root);
    }
    while visiting.len() > 0
        invariant
            graph.wf(),
            adj == graph.adjacency(),
            closed(adj, before),
            !before.contains(root),
            visited@.finite(),
            visited@ =~= before.union(component@),
            forall|w: u32| #[trigger]
                component@.contains(w) ==> !before.contains(w) && reaches(adj, root, w),
            forall|i: int| 0 <= i < visiting@.len() ==> reaches(adj, root, #[trigger] visiting@[i]),
            forall|u: u32, v: u32|
                visited@.contains(u) && adj.contains_key(u) && #[trigger] adj[u].contains(v)
                    ==> visited@.contains(v) || visiting@.contains(v),
            visited@.contains(root) || visiting@.contains(root),
        decreases 0x1_0000_0000 - visited@.len(), visiting@.len(),
    {
        proof {
            lemma_vertex_set_bound(visited@);
        }
        let ghost stack = visiting@;
        let current = visiting.pop().unwrap();
        assert(stack[stack.len() - 1] == current);
        assert(stack =~= visiting@.push(current));
        assert(reaches(adj, root, stack[stack.len() - 1]));
        let ghost rest = visiting@;
        assert forall|v: u32| stack.contains(v) && v != current implies rest.contains(v) by {
            let i = choose|i: int| 0 <= i < stack.len() && stack[i] == v;
            assert(rest[i] == v);
        }
        if !visited.contains(&current) {
            let ghost seen = visited@;
            assert(!before.contains(current));
            visited.insert(current);
            component.insert(current);
            proof {
                lemma_vertex_set_bound(visited@);
                assert(visited@ =~= before.union(component@));
            }
            match graph.get_neighbors(&current) {
                Some(neighbors) => {
                    let neighbors = set_items(neighbors);
                    let mut at: usize = 0;
                    while at < neighbors.len()
                        invariant
                            at <= neighbors@.len(),
                            adj == graph.adjacency(),
                            visited@.finite(),
                            visited@ =~= before.union(component@),
                            forall|w: u32| #[trigger]
                                component@.contains(w) ==> !before.contains(w) && reaches(
                                    adj,
                                    root,
                                    w,
                                ),
                            adj.contains_key(current),
                            neighbors@.to_set() == adj[current],
                            reaches(adj, root, current),
                            forall|i: int|
                                0 <= i < visiting@.len() ==> reaches(
                                    adj,
                                    root,
                                    #[trigger] visiting@[i],
                                ),
                            forall|v: u32| rest.contains(v) ==> visiting@.contains(v),
                            forall|k: int|
                                0 <= k < at ==> visited@.contains(#[trigger] neighbors@[k])
                                    || visiting@.contains(neighbors@[k]),
                        decreases neighbors@.len() - at,
                    {
                        let w = neighbors[at];
                        let ghost pile = visiting@;
                        if !visited.contains(&w) {
                            proof {
                                assert(neighbors@.to_set().contains(neighbors@[at as int]));
                                lemma_reaches_step(adj, root, current, w);
                            }
                            visiting.push(w);
                            proof {
                                assert(visiting@[visiting@.len() - 1] == w);
                                assert forall|v: u32| pile.contains(v) implies visiting@.contains(
                                    v,
                                ) by {
                                    let i = choose|i: int| 0 <= i < pile.len() && pile[i] == v;
                                    assert(visiting@[i] == v);
                                }
                            }
                        }
                        at = at + 1;
                    }
                    proof {
                        assert forall|v: u32| #[trigger] adj[current].contains(v) implies (
                        visited@.contains(v) || visiting@.contains(v)) by {
                            assert(neighbors@.to_set().contains(v));
                            let k = choose|k: int| 0 <= k < neighbors@.len() && neighbors@[k] == v;
                            assert(visited@.contains(neighbors@[k]) || visiting@.contains(
                                neighbors@[k],
                            ));
                        }
                    }
                },
                None => {},
            }
            proof {
                assert forall|v: u32| rest.contains(v) implies visiting@.contains(v) by {}
                assert forall|u: u32, v: u32|
                    visited@.contains(u) && adj.contains_key(u) && #[trigger] adj[u].contains(
                        v,
                    ) implies visited@.contains(v) || visiting@.contains(v) by {
                    if u != current {
                        assert(seen.contains(u));
                        if !seen.contains(v) && v != current {
                            assert(stack.contains(v));
                            assert(rest.contains(v));
                        }
                    }
                }
                if root != current && !seen.contains(root) {
                    assert(stack.contains(root));
                    assert(rest.contains(root));
                }
            }
        } else {
            proof {
                assert forall|u: u32, v: u32|
                    visited@.contains(u) && adj.contains_key(u) && #[trigger] adj[u].contains(
                        v,
                    ) implies visited@.contains(v) || visiting@.contains(v) by {
                    if !visited@.contains(v) {
                        assert(stack.contains(v));
                        assert(rest.contains(v));
                    }
                }
                if !visited@.contains(root) {
                    assert(stack.contains(root));
                    assert(rest.contains(root));
                }
            }
        }
    }
    proof {
        assert(closed(adj, visited@)) by {
            assert forall|u: u32, v: u32|
                visited@.contains(u) && adj.contains_key(u) && #[trigger] adj[u].contains(
                    v,
                ) implies visited@.contains(v) by {
                assert(visited@.contains(v) || visiting@.contains(v));
            }
        }
        assert(visited@.contains(root));
        assert forall|w: u32| reaches(adj, root, w) && !before.contains(w) implies component@.contains(
            w,
        ) by {
            lemma_closed_holds_reach(adj, visited@, root, w);
        }
    }
    component
}

/// Allows for accomplishing various actions through DFS/BFS search algorithm
pub trait Searcher<W>: Sized {
    /// What the searcher needs to hold of itself.
    spec fn wf(&self) -> bool;

    /// The edges that the searcher has been handed, each as its source and
    /// its destination, in the order in which they came.
    spec fn handed(&self) -> Seq<(u32, u32)>;

    /// The vertices that the searcher has been told to begin a component
    /// with.
    spec fn begun(&self) -> Seq<u32>;

    /// Called when there are no more vertices in the current search scope, and we need to look for a new, unconnected & unvisited vertex
    ///
    /// - *node*: The node that caused the new component
    fn new_component(&mut self, node: &u32)
        requires
            old(self).wf(),
        ensures
            final(self).wf(),
            final(self).handed() == old(self).handed(),
            final(self).begun() == old(self).begun().push(*node),
    ;

    /// This is called BEFORE a node is processed. It is called when we find a new node from a source node.
    ///
    /// i.e. when we pop it from the stack/queue
    ///
    /// - *source*: The node that was just popped from the stack/queue
    /// - *node*: The node that is a neighbor of source, including it's label
    fn visit(&mut self, source: &u32, node: &EdgeDestination<u32, W>)
        requires
            old(self).wf(),
        ensures
            final(self).wf(),
            final(self).handed() == old(self).handed().push((*source, node.destination)),
            final(self).begun() == old(self).begun(),
    ;
}

/// Whether the search handed the searcher what it owes: after the edges
/// that the searcher had been handed before, each edge of the graph once,
/// and nothing else; and after the vertices that it had begun components
/// with, vertices of the graph.
pub open spec fn searched(
    adj: Map<u32, Set<u32>>,
    handed_before: Seq<(u32, u32)>,
    handed: Seq<(u32, u32)>,
    begun_before: Seq<u32>,
    begun: Seq<u32>,
) -> bool {
    &&& handed_before.len() <= handed.len()
    &&& handed.take(handed_before.len() as int) == handed_before
    &&& forall|i: int|
        handed_before.len() <= i < handed.len() ==> adj.contains_key((#[trigger] handed[i]).0)
            && adj[handed[i].0].contains(handed[i].1)
    &&& forall|i: int, j: int|
        handed_before.len() <= i < j < handed.len() ==> #[trigger] handed[i] != #[trigger] handed[j]
    &&& forall|u: u32, v: u32|
        adj.contains_key(u) && #[trigger] adj[u].contains(v) ==> exists|i: int|
            handed_before.len() <= i < handed.len() && handed[i] == (u, v)
    &&& begun_before.len() <= begun.len()
    &&& begun.take(begun_before.len() as int) == begun_before
    &&& forall|i: int|
        begun_before.len() <= i < begun.len() ==> adj.contains_key(#[trigger] begun[i])
}

/// Search functions on a graph
pub trait Search<W>: Graphed {
    /// Standard Breadth First Search
    ///
    /// Clearly described [here](https://www.geeksforgeeks.org/breadth-first-search-or-bfs-for-a-graph/)
    ///
    /// The search begins with the vertices of `start` and hands the
    /// searcher the edges of each vertex that it comes to, first come first
    /// served. When it has none left to go to, it begins a component with
    /// a vertex that it has not been to, until it has been to all.
    fn breadth_first<S>(&self, searcher: &mut S, start: Vec<u32>) where S: Searcher<W>
        requires
            self.wf(),
            old(searcher).wf(),
        ensures
            final(searcher).wf(),
            searched(
                self.adjacency(),
                old(searcher).handed(),
                final(searcher).handed(),
                old(searcher).begun(),
                final(searcher).begun(),
            ),
    ;

    /// Standard Depth First Search
    ///
    /// The search begins with `start` and hands the searcher the edges of
    /// each vertex that it comes to, last come first served. When it has
    /// none left to go to, it begins a component with a vertex that it has
    /// not been to, until it has been to all.
    fn depth_first<S>(&self, searcher: &mut S, start: &u32) where S: Searcher<W>
        requires
            self.wf(),
            old(searcher).wf(),
        ensures
            final(searcher).wf(),
            searched(
                self.adjacency(),
                old(searcher).handed(),
                final(searcher).handed(),
                old(searcher).begun(),
                final(searcher).begun(),
            ),
    ;
}

/// Whether the edges handed so far are those of the vertices visited.
spec fn progress(
    adj: Map<u32, Set<u32>>,
    handed_before: Seq<(u32, u32)>,
    handed: Seq<(u32, u32)>,
    not_visited: Set<u32>,
) -> bool {
    &&& handed_before.len() <= handed.len()
    &&& handed.take(handed_before.len() as int) == handed_before
    &&& forall|i: int|
        handed_before.len() <= i < handed.len() ==> adj.contains_key((#[trigger] handed[i]).0)
            && adj[handed[i].0].contains(handed[i].1) && !not_visited.contains(handed[i].0)
    &&& forall|i: int, j: int|
        handed_before.len() <= i < j < handed.len() ==> #[trigger] handed[i] != #[trigger] handed[j]
    &&& forall|u: u32, v: u32|
        adj.contains_key(u) && !not_visited.contains(u) && #[trigger] adj[u].contains(v)
            ==> exists|i: int| handed_before.len() <= i < handed.len() && handed[i] == (u, v)
}

/// Hands the searcher the edges of a vertex that has not been visited, and
/// notes those of its neighbors that have not been visited either.
fn visit_vertex<G: Graphed, W: Default, S: Searcher<W>>(
    graph: &G,
    searcher: &mut S,
    current: u32,
    not_visited: &mut HashSet<u32>,
    to_visit: &mut Vec<u32>,
    handed_before: Ghost<Seq<(u32, u32)>>,
)
    requires
        graph.wf(),
        old(searcher).wf(),
        old(not_visited)@.contains(current),
        old(not_visited)@.finite(),
        old(not_visited)@.subset_of(graph.adjacency().dom()),
        progress(graph.adjacency(), handed_before@, old(searcher).handed(), old(not_visited)@),
    ensures
        final(searcher).wf(),
        final(searcher).begun() == old(searcher).begun(),
        final(not_visited)@ == old(not_visited)@.remove(current),
        progress(graph.adjacency(), handed_before@, final(searcher).handed(), final(not_visited)@),
        final(to_visit)@.len() >= old(to_visit)@.len(),
        final(to_visit)@.take(old(to_visit)@.len() as int) == old(to_visit)@,
{
    broadcast use vstd::std_specs::hash::group_hash_axioms;

    let ghost adj = graph.adjacency();
    let ghost left = not_visited@;
    let ghost pile = to_visit@;
    let ghost so_far = searcher.handed();
    let neighbors = set_items(graph.get_neighbors(&current).unwrap());
    let mut at: usize = 0;
    while at < neighbors.len()
        invariant
            at <= neighbors@.len(),
            adj == graph.adjacency(),
            adj.contains_key(current),
            neighbors@.no_duplicates(),
            neighbors@.to_set() == adj[current],
            searcher.wf(),
            searcher.begun() == old(searcher).begun(),
            not_visited@ == left,
            to_visit@.len() >= pile.len(),
            to_visit@.take(pile.len() as int) == pile,
            searcher.handed().len() == so_far.len() + at,
            searcher.handed().take(so_far.len() as int) == so_far,
            forall|k: int|
                0 <= k < at ==> #[trigger] searcher.handed()[so_far.len() + k] == (
                    current,
                    neighbors@[k],
                ),
        decreases neighbors@.len() - at,
    {
        let destination = neighbors[at];
        let ghost before = searcher.handed();
        let ghost noted = to_visit@;
        searcher.visit(&current, &EdgeDestination::init(destination));
        if not_visited.contains(&destination) {
            to_visit.push(destination);
            proof {
                assert(to_visit@.take(pile.len() as int) =~= noted.take(pile.len() as int));
            }
        }
        proof {
            assert(searcher.handed().take(so_far.len() as int) =~= before.take(
                so_far.len() as int,
            ));
            assert forall|k: int| 0 <= k < at + 1 implies #[trigger] searcher.handed()[so_far.len()
                + k] == (current, neighbors@[k]) by {
                if k < at {
                    assert(searcher.handed()[so_far.len() + k] == before[so_far.len() + k]);
                }
            }
        }
        at = at + 1;
    }
    not_visited.remove(&current);
    proof {
        let handed = searcher.handed();
        let before = handed_before@;
        assert(handed.take(before.len() as int) =~= before) by {
            assert(so_far.take(before.len() as int) == before);
            assert forall|i: int| 0 <= i < before.len() implies handed[i] == before[i] by {
                assert(handed.take(so_far.len() as int)[i] == so_far[i]);
                assert(so_far.take(before.len() as int)[i] == so_far[i]);
            }
        }
        assert forall|i: int| 0 <= i < so_far.len() implies handed[i] == so_far[i] by {
            assert(handed.take(so_far.len() as int)[i] == so_far[i]);
        }
        assert forall|i: int| before.len() <= i < handed.len() implies adj.contains_key(
            (#[trigger] handed[i]).0,
        ) && adj[handed[i].0].contains(handed[i].1) && !not_visited@.contains(handed[i].0) by {
            if i < so_far.len() {
                assert(handed[i] == so_far[i]);
            } else {
                let k = i - so_far.len();
                assert(handed[so_far.len() + k] == (current, neighbors@[k]));
                assert(neighbors@.to_set().contains(neighbors@[k]));
            }
        }
        assert forall|i: int, j: int| before.len() <= i < j < handed.len() implies #[trigger] handed[i]
            != #[trigger] handed[j] by {
            if j < so_far.len() {
                assert(handed[i] == so_far[i] && handed[j] == so_far[j]);
            } else {
                let kj = j - so_far.len();
                assert(handed[so_far.len() + kj] == (current, neighbors@[kj]));
                if i < so_far.len() {
                    assert(handed[i] == so_far[i]);
                    assert(!left.contains(so_far[i].0));
                } else {
                    let ki = i - so_far.len();
                    assert(handed[so_far.len() + ki] == (current, neighbors@[ki]));
                    assert(neighbors@[ki] != neighbors@[kj]);
                }
            }
        }
        assert forall|u: u32, v: u32|
            adj.contains_key(u) && !not_visited@.contains(u) && #[trigger] adj[u].contains(
                v,
            ) implies exists|i: int| before.len() <= i < handed.len() && handed[i] == (u, v) by {
            if u == current {
                assert(neighbors@.to_set().contains(v));
                let k = choose|k: int| 0 <= k < neighbors@.len() && neighbors@[k] == v;
                assert(handed[so_far.len() + k] == (current, neighbors@[k]));
                assert(before.len() <= so_far.len() + k < handed.len());
            } else {
                let i = choose|i: int| before.len() <= i < so_far.len() && so_far[i] == (u, v);
                assert(handed[i] == so_far[i]);
            }
        }
    }
}

/// Searches the graph, first come first served if `breadth` is set and last
/// come first served if not.
fn search<G: Graphed, W: Default, S: Searcher<W>>(
    graph: &G,
    searcher: &mut S,
    start: Vec<u32>,
    breadth: bool,
)
    requires
        graph.wf(),
        old(searcher).wf(),
    ensures
        final(searcher).wf(),
        searched(
            graph.adjacency(),
            old(searcher).handed(),
            final(searcher).handed(),
            old(searcher).begun(),
            final(searcher).begun(),
        ),
{
    broadcast use vstd::std_specs::hash::group_hash_axioms;

    let ghost adj = graph.adjacency();
    let ghost handed_before = searcher.handed();
    let ghost begun_before = searcher.begun();
    let vertices = graph.vertices();
    let mut not_visited: HashSet<u32> = HashSet::new();
    let mut at: usize = 0;
    proof {
        lemma_hash_set_finite(&not_visited);
    }
    while at < vertices.len()
        invariant
            at <= vertices@.len(),
            vertices@.to_set() == adj.dom(),
            not_visited@.finite(),
            forall|v: u32|
                not_visited@.contains(v) <==> exists|k: int|
                    0 <= k < at && #[trigger] vertices@[k] == v,
        decreases vertices@.len() - at,
    {
        let ghost before = not_visited@;
        not_visited.insert(vertices[at]);
        proof {
            assert forall|v: u32|
                not_visited@.contains(v) <==> exists|k: int|
                    0 <= k < at + 1 && #[trigger] vertices@[k] == v by {
                if before.contains(v) {
                    let k = choose|k: int| 0 <= k < at && #[trigger] vertices@[k] == v;
                    assert(0 <= k < at + 1 && vertices@[k] == v);
                }
                if v == vertices@[at as int] {
                    assert(0 <= at < at + 1 && vertices@[at as int] == v);
                }
                if exists|k: int| 0 <= k < at + 1 && #[trigger] vertices@[k] == v {
                    let k = choose|k: int| 0 <= k < at + 1 && #[trigger] vertices@[k] == v;
                    if k < at {
                        assert(before.contains(v));
                    }
                }
            }
        }
        at = at + 1;
    }
    proof {
        assert(not_visited@ =~= adj.dom()) by {
            assert forall|v: u32| adj.dom().contains(v) implies not_visited@.contains(v) by {
                assert(vertices@.to_set().contains(v));
                let k = choose|k: int| 0 <= k < vertices@.len() && vertices@[k] == v;
                assert(0 <= k < at && vertices@[k] == v);
            }
            assert forall|v: u32| not_visited@.contains(v) implies adj.dom().contains(v) by {
                let k = choose|k: int| 0 <= k < at && #[trigger] vertices@[k] == v;
                assert(vertices@.to_set().contains(vertices@[k]));
            }
        }
        assert(handed_before.take(handed_before.len() as int) =~= handed_before);
        assert(begun_before.take(begun_before.len() as int) =~= begun_before);
    }
    let mut to_visit: Vec<u32> = start;
    let mut head: usize = 0;
    let mut cursor: usize = 0;
    loop
        invariant
            graph.wf(),
            adj == graph.adjacency(),
            searcher.wf(),
            vertices@.to_set() == adj.dom(),
            not_visited@.finite(),
            not_visited@.subset_of(adj.dom()),
            head <= to_visit@.len(),
            cursor <= vertices@.len(),
            forall|k: int| 0 <= k < cursor ==> !not_visited@.contains(#[trigger] vertices@[k]),
            progress(adj, handed_before, searcher.handed(), not_visited@),
            begun_before.len() <= searcher.begun().len(),
            searcher.begun().take(begun_before.len() as int) == begun_before,
            forall|i: int|
                begun_before.len() <= i < searcher.begun().len() ==> adj.contains_key(
                    #[trigger] searcher.begun()[i],
                ),
        ensures
            searcher.wf(),
            not_visited@ == Set::<u32>::empty(),
            progress(adj, handed_before, searcher.handed(), not_visited@),
            begun_before.len() <= searcher.begun().len(),
            searcher.begun().take(begun_before.len() as int) == begun_before,
            forall|i: int|
                begun_before.len() <= i < searcher.begun().len() ==> adj.contains_key(
                    #[trigger] searcher.begun()[i],
                ),
        decreases not_visited@.len(), to_visit@.len() - head, vertices@.len() - cursor,
    {
        if head < to_visit.len() {
            let current = if breadth {
                head = head + 1;
                to_visit[head - 1]
            } else {
                to_visit.pop().unwrap()
            };
            if not_visited.contains(&current) {
                let ghost pile = to_visit@;
                visit_vertex(
                    graph,
                    searcher,
                    current,
                    &mut not_visited,
                    &mut to_visit,
                    Ghost(handed_before),
                );
            }
        } else if cursor < vertices.len() {
            let next = vertices[cursor];
            if not_visited.contains(&next) {
                let ghost begun = searcher.begun();
                assert(vertices@.to_set().contains(vertices@[cursor as int]));
                searcher.new_component(&next);
                proof {
                    assert(searcher.begun().take(begun_before.len() as int) =~= begun.take(
                        begun_before.len() as int,
                    ));
                    assert forall|i: int|
                        begun_before.len() <= i < searcher.begun().len() implies adj.contains_key(
                        #[trigger] searcher.begun()[i],
                    ) by {
                        if i < begun.len() {
                            assert(searcher.begun()[i] == begun[i]);
                        }
                    }
                }
                visit_vertex(
                    graph,
                    searcher,
                    next,
                    &mut not_visited,
                    &mut to_visit,
                    Ghost(handed_before),
                );
            }
            cursor = cursor + 1;
        } else {
            proof {
                assert(not_visited@ =~= Set::<u32>::empty()) by {
                    assert forall|v: u32| !not_visited@.contains(v) by {
                        if not_visited@.contains(v) {
                            assert(vertices@.to_set().contains(v));
                            let k = choose|k: int| 0 <= k < vertices@.len() && vertices@[k] == v;
                            assert(!not_visited@.contains(vertices@[k]));
                        }
                    }
                }
            }
            break ;
        }
    }
}

impl<G: Graphed, W: Default> Search<W> for G {
    fn breadth_first<S>(&self, searcher: &mut S, start: Vec<u32>) where S: Searcher<W> {
        search(self, searcher, start, true)
    }

    fn depth_first<S>(&self, searcher: &mut S, start: &u32) where S: Searcher<W> {
        let mut first: Vec<u32> = Vec::new();
        first.push(*start);
        search(self, searcher, first, false)
    }
}

/// The vertex that the search came to `v` from, `k` times over: the
/// vertex itself where the search came to it from none.
pub open spec fn ancestor(entries: Map<u32, (u32, u32)>, v: u32, k: nat) -> u32
    decreases k,
{
    if k == 0 {
        v
    } else {
        let before = ancestor(entries, v, (k - 1) as nat);
        if entries.contains_key(before) {
            entries[before].0
        } else {
            before
        }
    }
}

/// The weight of the way to a vertex over `source`, along an edge of the
/// weight `label`: the weight of the way to `source`, where there is one,
/// and `label`, or the largest weight where the sum is larger.
pub open spec fn weight_over(entries: Map<u32, (u32, u32)>, source: u32, label: u32) -> u32 {
    let sum = if entries.contains_key(source) {
        entries[source].1 + label
    } else {
        label as int
    };
    if sum > u32::MAX {
        u32::MAX
    } else {
        sum as u32
    }
}

/// What a search notes of an edge: the destination is reached from the
/// source if it was not reached before, or if the way over the source is
/// lighter than the one noted.
pub open spec fn noted(entries: Map<u32, (u32, u32)>, source: u32, destination: u32, label: u32) -> Map<
    u32,
    (u32, u32),
> {
    let weight = weight_over(entries, source, label);
    if entries.contains_key(destination) && !(weight < entries[destination].1) {
        entries
    } else {
        entries.insert(destination, (source, weight))
    }
}

/// Structure for maintaining backtracking data in a DFS or BFS search
pub struct BackTracking {
    entries: HashMap<u32, (u32, u32)>,
    handed: Ghost<Seq<(u32, u32)>>,
    begun: Ghost<Seq<u32>>,
}

impl Default for BackTracking {
    fn default() -> (made: Self)
        ensures
            made.entries() == Map::<u32, (u32, u32)>::empty(),
            made.handed() == Seq::<(u32, u32)>::empty(),
            made.begun() == Seq::<u32>::empty(),
    {
        BackTracking {
            entries: HashMap::new(),
            handed: Ghost(Seq::empty()),
            begun: Ghost(Seq::empty()),
        }
    }
}

impl Searcher<u32> for BackTracking {
    open spec fn wf(&self) -> bool {
        true
    }

    closed spec fn handed(&self) -> Seq<(u32, u32)> {
        self.handed@
    }

    closed spec fn begun(&self) -> Seq<u32> {
        self.begun@
    }

    fn new_component(&mut self, _node: &u32)
        ensures
            final(self).entries() == old(self).entries(),
    {
        proof {
            self.begun@ = self.begun@.push(*_node);
        }
    }

    /// Notes where the destination is reached from: see [`noted`].
    fn visit(&mut self, source: &u32, node: &EdgeDestination<u32, u32>)
        ensures
            final(self).entries() == noted(
                old(self).entries(),
                *source,
                node.destination,
                node.label,
            ),
    {
        broadcast use vstd::std_specs::hash::group_hash_axioms;

        let next_label = node.label;
        let destination = node.destination;
        let next_weight: u32 = match self.entries.get(source) {
            Some(entry) => {
                let current_label = entry.1;
                if current_label > u32::MAX - next_label {
                    u32::MAX
                } else {
                    current_label + next_label
                }
            },
            None => next_label,
        };
        let lighter = match self.entries.get(&destination) {
            Some(entry) => next_weight < entry.1,
            None => true,
        };
        if lighter {
            self.entries.insert(destination, (*source, next_weight));
        }
        proof {
            self.handed@ = self.handed@.push((*source, destination));
        }
    }
}

impl BackTracking {
    /// What the search has noted: for each vertex that it reached from
    /// another, that vertex and the weight of the way.
    pub closed spec fn entries(&self) -> Map<u32, (u32, u32)> {
        self.entries@
    }

    /// The way to `target` that the search has noted: it begins with a
    /// vertex that the search reached from none, each of its vertices is
    /// the one that the search reached the next from, and it ends with
    /// `target`. The way back from `target` comes to an end.
    pub fn shortest_path(&self, target: u32) -> (path: Vec<u32>)
        requires
            exists|k: nat| !self.entries().contains_key(#[trigger] ancestor(self.entries(), target, k)),
        ensures
            path@.len() >= 1,
            path@.last() == target,
            !self.entries().contains_key(path@[0]),
            forall|i: int|
                0 <= i < path@.len() - 1 ==> self.entries().contains_key(#[trigger] path@[i + 1])
                    && self.entries()[path@[i + 1]].0 == path@[i],
    {
        broadcast use vstd::std_specs::hash::group_hash_axioms;

        let ghost entries = self.entries();
        let ghost end = choose|k: nat| !entries.contains_key(#[trigger] ancestor(entries, target, k));
        let mut back: Vec<u32> = Vec::new();
        back.push(target);
        let mut current = target;
        let ghost mut steps: nat = 0;
        loop
            invariant
                entries == self.entries(),
                !entries.contains_key(ancestor(entries, target, end)),
                steps <= end,
                current == ancestor(entries, target, steps),
                back@.len() == steps + 1,
                back@[0] == target,
                back@.last() == current,
                forall|i: int|
                    0 <= i < back@.len() - 1 ==> entries.contains_key(#[trigger] back@[i])
                        && entries[back@[i]].0 == back@[i + 1],
            ensures
                !entries.contains_key(current),
                back@.len() >= 1,
                back@[0] == target,
                back@.last() == current,
                forall|i: int|
                    0 <= i < back@.len() - 1 ==> entries.contains_key(#[trigger] back@[i])
                        && entries[back@[i]].0 == back@[i + 1],
            decreases end - steps,
        {
            match self.entries.get(&current) {
                Some(entry) => {
                    let node = entry.0;
                    let ghost so_far = back@;
                    back.push(node);
                    proof {
                        assert(ancestor(entries, target, steps + 1) == node);
                        assert forall|i: int| 0 <= i < back@.len() - 1 implies entries.contains_key(
                            #[trigger] back@[i],
                        ) && entries[back@[i]].0 == back@[i + 1] by {
                            if i < so_far.len() - 1 {
                                assert(back@[i] == so_far[i]);
                                assert(back@[i + 1] == so_far[i + 1]);
                            }
                        }
                        steps = steps + 1;
                    }
                    current = node;
                },
                None => {
                    break ;
                },
            }
        }
        let mut path: Vec<u32> = Vec::new();
        let mut at: usize = back.len();
        while at > 0
            invariant
                at <= back@.len(),
                path@.len() == back@.len() - at,
                forall|i: int| 0 <= i < path@.len() ==> #[trigger] path@[i] == back@[back@.len() - 1 - i],
            decreases at,
        {
            at = at - 1;
            path.push(back[at]);
        }
        proof {
            assert forall|i: int| 0 <= i < path@.len() - 1 implies entries.contains_key(
                #[trigger] path@[i + 1],
            ) && entries[path@[i + 1]].0 == path@[i] by {
                let j = back@.len() - 1 - (i + 1);
                assert(entries.contains_key(back@[j]) && entries[back@[j]].0 == back@[j + 1]);
            }
        }
        path
    }
}

/// The edges that a search hands over, gathered into a graph for each
/// component.
pub struct ConnectedComponents {
    pub data: Vec<Graph>,
    handed: Ghost<Seq<(u32, u32)>>,
    begun: Ghost<Seq<u32>>,
}

impl Default for ConnectedComponents {
    fn default() -> (made: Self)
        ensures
            made.wf(),
            made.graphs().len() == 1,
            made.graphs()[0].adjacency() == Map::<u32, Set<u32>>::empty(),
            made.handed() == Seq::<(u32, u32)>::empty(),
            made.begun() == Seq::<u32>::empty(),
    {
        let mut data: Vec<Graph> = Vec::new();
        let first = Graph::new(HashMap::new());
        assert(first.adjacency() =~= Map::<u32, Set<u32>>::empty());
        data.push(first);
        ConnectedComponents { data, handed: Ghost(Seq::empty()), begun: Ghost(Seq::empty()) }
    }
}

impl ConnectedComponents {
    /// The graphs, one for each component.
    pub closed spec fn graphs(&self) -> Seq<Graph> {
        self.data@
    }
}

impl Searcher<()> for ConnectedComponents {
    open spec fn wf(&self) -> bool {
        true
    }

    closed spec fn handed(&self) -> Seq<(u32, u32)> {
        self.handed@
    }

    closed spec fn begun(&self) -> Seq<u32> {
        self.begun@
    }

    /// Begins another graph.
    fn new_component(&mut self, _node: &u32)
        ensures
            final(self).graphs().len() == old(self).graphs().len() + 1,
            final(self).graphs().last().adjacency() == Map::<u32, Set<u32>>::empty(),
            forall|i: int|
                0 <= i < old(self).graphs().len() ==> #[trigger] final(self).graphs()[i]
                    == old(self).graphs()[i],
    {
        let next = Graph::new(HashMap::new());
        assert(next.adjacency() =~= Map::<u32, Set<u32>>::empty());
        self.data.push(next);
        proof {
            self.begun@ = self.begun@.push(*_node);
        }
    }

    /// Adds the edge, both ways, to the last graph, if there is one.
    fn visit(&mut self, source: &u32, node: &EdgeDestination<u32, ()>)
        ensures
            final(self).graphs().len() == old(self).graphs().len(),
            forall|i: int|
                0 <= i < old(self).graphs().len() - 1 ==> #[trigger] final(self).graphs()[i]
                    == old(self).graphs()[i],
            old(self).graphs().len() > 0 ==> final(self).graphs().last().adjacency()
                == crate::graph::with_edge(
                old(self).graphs().last().adjacency(),
                *source,
                node.destination,
                false,
            ),
    {
        let n = self.data.len();
        if n > 0 {
            self.data[n - 1].add_edge(Edge::init(*source, node.destination));
        }
        proof {
            self.handed@ = self.handed@.push((*source, node.destination));
        }
    }
}

} // verus!
