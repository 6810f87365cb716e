//! Paths from one vertex of a graph to the others.

use std::collections::HashMap;
use vstd::prelude::*;

use crate::graph::static_a::search::{
    closed, is_walk, lemma_closed_holds_reach, lemma_reaches_self, lemma_reaches_step,
    lemma_vertex_set_bound, lemma_walk_step, reaches,
};
use crate::graph::{Graph, Graphed};
use crate::utils::collections::set_items;

verus! {

/// Whether each vertex of the path but the first is one that has the
/// vertex before it as a neighbor: whether the path is a walk read from its
/// end.
pub open spec fn walks_back(adj: Map<u32, Set<u32>>, path: Seq<u32>) -> bool {
    &&& path.len() >= 1
    &&& forall|i: int|
        0 <= i < path.len() - 1 ==> adj.contains_key(#[trigger] path[i + 1]) && adj[path[i
            + 1]].contains(path[i])
}

/// Whether the search has come upon the vertex.
spec fn discovered(previous: Map<u32, u32>, source: u32, v: u32) -> bool {
    v == source || previous.contains_key(v)
}

/// Whether each vertex that the search came upon from another is a neighbor
/// of that one, which the search came upon before it.
spec fn forest(adj: Map<u32, Set<u32>>, previous: Map<u32, u32>, depth: Map<u32, nat>, source: u32) -> bool {
    &&& !previous.contains_key(source)
    &&& depth.contains_key(source)
    &&& forall|w: u32| #[trigger]
        previous.contains_key(w) ==> {
            let u = previous[w];
            &&& discovered(previous, source, u)
            &&& adj.contains_key(u)
            &&& adj[u].contains(w)
            &&& depth.contains_key(w)
            &&& depth.contains_key(u)
            &&& depth[w] == depth[u] + 1
            &&& reaches(adj, source, w)
        }
}

/// Whether the search has kept what it knew of the vertices that it had
/// come upon.
spec fn grown(before: Map<u32, u32>, after: Map<u32, u32>) -> bool {
    forall|w: u32| #[trigger] before.contains_key(w) ==> after.contains_key(w) && after[w] == before[w]
}

/// Comes upon the neighbors of `current` that the search has not come upon
/// yet, up to `destination`: each is noted as found from `current` and goes
/// onto the pile of vertices to visit.
fn discover(
    graph: &Graph,
    current: u32,
    source: u32,
    destination: u32,
    previous: &mut HashMap<u32, u32>,
    visiting: &mut Vec<u32>,
    depth: Ghost<Map<u32, nat>>,
) -> (r: (bool, Ghost<Map<u32, nat>>))
    requires
        forest(graph.adjacency(), old(previous)@, depth@, source),
        discovered(old(previous)@, source, current),
        depth@.contains_key(current),
        reaches(graph.adjacency(), source, current),
        old(previous)@.dom().finite(),
        !old(previous)@.contains_key(destination),
    ensures
        forest(graph.adjacency(), final(previous)@, r.1@, source),
        grown(old(previous)@, final(previous)@),
        final(previous)@.dom().finite(),
        old(previous)@.dom().len() <= final(previous)@.dom().len(),
        final(visiting)@.len() >= old(visiting)@.len(),
        final(visiting)@.len() > old(visiting)@.len() ==> old(previous)@.dom().len() < final(previous)@.dom().len(),
        forall|v: u32| old(visiting)@.contains(v) ==> final(visiting)@.contains(v),
        forall|i: int|
            old(visiting)@.len() <= i < final(visiting)@.len() ==> final(previous)@.contains_key(
                #[trigger] final(visiting)@[i],
            ),
        forall|i: int|
            0 <= i < old(visiting)@.len() ==> #[trigger] final(visiting)@[i] == old(visiting)@[i],
        forall|w: u32| #[trigger]
            final(previous)@.contains_key(w) && !old(previous)@.contains_key(w) ==> final(previous)@[w] == current && final(visiting)@.contains(w),
        !r.0 ==> forall|v: u32|
            graph.adjacency().contains_key(current) && #[trigger] graph.adjacency()[current].contains(
                v,
            ) ==> discovered(final(previous)@, source, v),
        r.0 <==> final(previous)@.contains_key(destination),
{
    broadcast use vstd::std_specs::hash::group_hash_axioms;

    let ghost adj = graph.adjacency();
    let ghost known = previous@;
    let ghost rest = visiting@;
    let ghost mut depth = depth@;
    let mut found = false;
    match graph.get_neighbors(&current) {
        Some(neighbors) => {
            let neighbors = set_items(neighbors);
            let mut at: usize = 0;
            while at < neighbors.len() && !found
                invariant
                    at <= neighbors@.len(),
                    adj == graph.adjacency(),
                    adj.contains_key(current),
                    neighbors@.to_set() == adj[current],
                    discovered(previous@, source, current),
                    depth.contains_key(current),
                    reaches(adj, source, current),
                    previous@.dom().finite(),
                    forest(adj, previous@, depth, source),
                    grown(known, previous@),
                    known.dom().len() <= previous@.dom().len(),
                    visiting@.len() > rest.len() ==> known.dom().len() < previous@.dom().len(),
                    visiting@.len() >= rest.len(),
                    forall|i: int| 0 <= i < rest.len() ==> #[trigger] visiting@[i] == rest[i],
                    forall|i: int|
                        rest.len() <= i < visiting@.len() ==> previous@.contains_key(
                            #[trigger] visiting@[i],
                        ),
                    forall|w: u32| #[trigger]
                        previous@.contains_key(w) && !known.contains_key(w) ==> previous@[w]
                            == current && visiting@.contains(w),
                    forall|k: int|
                        0 <= k < at ==> discovered(previous@, source, #[trigger] neighbors@[k]),
                    found <==> previous@.contains_key(destination),
                decreases neighbors@.len() - at,
            {
                let neighbor = neighbors[at];
                if neighbor != source && !previous.contains_key(&neighbor) {
                    let ghost pile = visiting@;
                    let ghost before = previous@;
                    previous.insert(neighbor, current);
                    visiting.push(neighbor);
                    proof {
                        assert(neighbors@.to_set().contains(neighbors@[at as int]));
                        lemma_reaches_step(adj, source, current, neighbor);
                        depth = depth.insert(neighbor, depth[current] + 1);
                        assert(previous@.dom() =~= before.dom().insert(neighbor));
                        assert(visiting@[visiting@.len() - 1] == neighbor);
                        assert forall|w: u32| #[trigger]
                            previous@.contains_key(w) && !known.contains_key(w) implies previous@[w]
                            == current && visiting@.contains(w) by {
                            if w != neighbor {
                                assert(before.contains_key(w));
                                let i = choose|i: int| 0 <= i < pile.len() && pile[i] == w;
                                assert(visiting@[i] == w);
                            }
                        }
                        assert forall|w: u32| #[trigger] previous@.contains_key(w) implies {
                            let u = previous@[w];
                            &&& discovered(previous@, source, u)
                            &&& adj.contains_key(u)
                            &&& adj[u].contains(w)
                            &&& depth.contains_key(w)
                            &&& depth.contains_key(u)
                            &&& depth[w] == depth[u] + 1
                            &&& reaches(adj, source, w)
                        } by {
                            if w != neighbor {
                                assert(before.contains_key(w));
                                assert(before[w] != neighbor);
                            }
                        }
                    }
                    if neighbor == destination {
                        found = true;
                    }
                }
                at = at + 1;
            }
            proof {
                if !found {
                    assert forall|v: u32| #[trigger] adj[current].contains(v) implies discovered(
                        previous@,
                        source,
                        v,
                    ) by {
                        assert(neighbors@.to_set().contains(v));
                        let k = choose|k: int| 0 <= k < neighbors@.len() && neighbors@[k] == v;
                        assert(discovered(previous@, source, neighbors@[k]));
                    }
                }
            }
        },
        None => {},
    }
    proof {
        assert forall|v: u32| rest.contains(v) implies visiting@.contains(v) by {
            let i = choose|i: int| 0 <= i < rest.len() && rest[i] == v;
            assert(visiting@[i] == v);
        }
    }
    (found, Ghost(depth))
}

/// For each vertex that a source reaches, a shortest path to it.
#[derive(Debug)]
pub struct ShortestPaths(pub HashMap<u32, Vec<u32>>);

impl ShortestPaths {
    /// The paths.
    pub fn as_ref(&self) -> (paths: &HashMap<u32, Vec<u32>>)
        ensures
            *paths == self.0,
    {
        &self.0
    }
}

/// Whether the path of `v`, with `v` after it, is a walk from `source`.
pub open spec fn leads_to(
    adj: Map<u32, Set<u32>>,
    source: u32,
    paths: Map<u32, Vec<u32>>,
    v: u32,
) -> bool {
    is_walk(adj, paths[v]@.push(v)) && paths[v]@.push(v)[0] == source
}

/// Whether no walk from `source` to `v` is shorter than the path of `v`
/// with `v` after it.
pub open spec fn shortest(
    adj: Map<u32, Set<u32>>,
    source: u32,
    paths: Map<u32, Vec<u32>>,
    v: u32,
) -> bool {
    forall|walk: Seq<u32>| #[trigger]
        is_walk(adj, walk) && walk[0] == source && walk.last() == v ==> paths[v]@.len() + 1
            <= walk.len()
}

/// What holds of the paths when the vertices within `d` steps of the source
/// have theirs: the paths are shortest paths of `d` steps at most, every
/// vertex that a walk of `d` steps reaches has one, and so has every
/// neighbor of a vertex fewer than `d` steps away.
#[verifier::opaque]
spec fn level(adj: Map<u32, Set<u32>>, source: u32, paths: Map<u32, Vec<u32>>, d: nat) -> bool {
    &&& paths.contains_key(source)
    &&& paths[source]@.len() == 0
    &&& forall|v: u32| #[trigger]
        paths.contains_key(v) ==> leads_to(adj, source, paths, v) && shortest(
            adj,
            source,
            paths,
            v,
        ) && paths[v]@.len() <= d
    &&& forall|walk: Seq<u32>| #[trigger]
        is_walk(adj, walk) && walk[0] == source && walk.len() <= d + 1 ==> paths.contains_key(
            walk.last(),
        )
    &&& forall|u: u32, v: u32|
        paths.contains_key(u) && paths[u]@.len() < d && adj.contains_key(u)
            && #[trigger] adj[u].contains(v) ==> paths.contains_key(v)
}

/// Whether the frontier holds the vertices whose paths have `d` steps.
#[verifier::opaque]
spec fn frontier_of(paths: Map<u32, Vec<u32>>, frontier: Seq<u32>, d: nat) -> bool {
    &&& forall|i: int|
        0 <= i < frontier.len() ==> paths.contains_key(#[trigger] frontier[i])
            && paths[frontier[i]]@.len() == d
    &&& forall|v: u32| #[trigger]
        paths.contains_key(v) && paths[v]@.len() == d ==> frontier.contains(v)
}

/// Whether the paths have been kept and the new ones have `d + 1` steps,
/// lead to their vertices and are noted in `next`.
#[verifier::opaque]
spec fn widened(
    adj: Map<u32, Set<u32>>,
    source: u32,
    before: Map<u32, Vec<u32>>,
    after: Map<u32, Vec<u32>>,
    next: Seq<u32>,
    d: nat,
) -> bool {
    &&& forall|v: u32| #[trigger]
        before.contains_key(v) ==> after.contains_key(v) && after[v] == before[v]
    &&& forall|v: u32| #[trigger]
        after.contains_key(v) && !before.contains_key(v) ==> after[v]@.len() == d + 1
            && leads_to(adj, source, after, v) && next.contains(v)
    &&& forall|i: int|
        0 <= i < next.len() ==> after.contains_key(#[trigger] next[i]) && !before.contains_key(
            next[i],
        )
}

/// The path with one more vertex.
fn extended(path: &Vec<u32>, u: u32) -> (longer: Vec<u32>)
    ensures
        longer@ == path@.push(u),
{
    let mut longer: Vec<u32> = Vec::new();
    let mut at: usize = 0;
    while at < path.len()
        invariant
            at <= path@.len(),
            longer@ == path@.take(at as int),
        decreases path@.len() - at,
    {
        longer.push(path[at]);
        assert(path@.take(at + 1) =~= path@.take(at as int).push(path@[at as int]));
        at = at + 1;
    }
    assert(path@.take(at as int) =~= path@);
    longer.push(u);
    longer
}

/// Gives each neighbor of `u` that has no path yet the path of `u` with `u`
/// after it, and notes the neighbor in `next`.
fn expand_vertex(
    graph: &Graph,
    source: u32,
    u: u32,
    paths: &mut HashMap<u32, Vec<u32>>,
    next: &mut Vec<u32>,
    start: Ghost<Map<u32, Vec<u32>>>,
    d: Ghost<nat>,
)
    requires
        old(paths)@.dom().finite(),
        start@.contains_key(u),
        start@[u]@.len() == d@,
        leads_to(graph.adjacency(), source, start@, u),
        widened(graph.adjacency(), source, start@, old(paths)@, old(next)@, d@),
    ensures
        final(paths)@.dom().finite(),
        widened(graph.adjacency(), source, start@, final(paths)@, final(next)@, d@),
        forall|v: u32| old(paths)@.contains_key(v) ==> final(paths)@.contains_key(v),
        old(paths)@.dom().len() <= final(paths)@.dom().len(),
        final(next)@.len() >= old(next)@.len(),
        final(next)@.len() > old(next)@.len() ==> old(paths)@.dom().len() < final(paths)@.dom().len(),
        forall|v: u32|
            graph.adjacency().contains_key(u) && #[trigger] graph.adjacency()[u].contains(v)
                ==> final(paths)@.contains_key(v),
{
    broadcast use vstd::std_specs::hash::group_hash_axioms;

    reveal(widened);
    let ghost adj = graph.adjacency();
    let ghost first = paths@;
    let ghost noted = next@;
    match graph.get_neighbors(&u) {
        Some(neighbors) => {
            let neighbors = set_items(neighbors);
            let mut at: usize = 0;
            while at < neighbors.len()
                invariant
                    at <= neighbors@.len(),
                    adj == graph.adjacency(),
                    adj.contains_key(u),
                    neighbors@.to_set() == adj[u],
                    paths@.dom().finite(),
                    start@.contains_key(u),
                    start@[u]@.len() == d@,
                    leads_to(adj, source, start@, u),
                    widened(adj, source, start@, paths@, next@, d@),
                    forall|v: u32| first.contains_key(v) ==> paths@.contains_key(v),
                    first.dom().len() <= paths@.dom().len(),
                    next@.len() >= noted.len(),
                    next@.len() > noted.len() ==> first.dom().len() < paths@.dom().len(),
                    forall|k: int| 0 <= k < at ==> paths@.contains_key(#[trigger] neighbors@[k]),
                decreases neighbors@.len() - at,
            {
                let v = neighbors[at];
                proof {
                    reveal(widened);
                }
                if !paths.contains_key(&v) {
                    let ghost before = paths@;
                    let ghost pile = next@;
                    let longer = extended(paths.get(&u).unwrap(), u);
                    paths.insert(v, longer);
                    next.push(v);
                    proof {
                        assert(neighbors@.to_set().contains(neighbors@[at as int]));
                        assert(paths@.dom() =~= before.dom().insert(v));
                        assert(before[u] == start@[u]);
                        assert(next@[next@.len() - 1] == v);
                        assert forall|x: u32| pile.contains(x) implies next@.contains(x) by {
                            let i = choose|i: int| 0 <= i < pile.len() && pile[i] == x;
                            assert(next@[i] == x);
                        }
                        lemma_walk_step(adj, start@[u]@.push(u), v);
                        assert(leads_to(adj, source, paths@, v));
                        assert forall|x: u32| #[trigger]
                            paths@.contains_key(x) && !start@.contains_key(x) implies paths@[x]@.len()
                            == d@ + 1 && leads_to(adj, source, paths@, x) && next@.contains(x) by {
                            if x != v {
                                assert(before.contains_key(x));
                                assert(leads_to(adj, source, before, x));
                            }
                        }
                        assert forall|i: int| 0 <= i < next@.len() implies paths@.contains_key(
                            #[trigger] next@[i],
                        ) && !start@.contains_key(next@[i]) by {
                            if i < pile.len() {
                                assert(next@[i] == pile[i]);
                            }
                        }
                    }
                }
                at = at + 1;
            }
            proof {
                assert forall|v: u32| #[trigger] adj[u].contains(v) implies paths@.contains_key(
                    v,
                ) by {
                    assert(neighbors@.to_set().contains(v));
                    let k = choose|k: int| 0 <= k < neighbors@.len() && neighbors@[k] == v;
                    assert(paths@.contains_key(neighbors@[k]));
                }
            }
        },
        None => {},
    }
}

/// The paths are those of the next level when every vertex of the frontier
/// has given its neighbors theirs.
proof fn lemma_level_up(
    adj: Map<u32, Set<u32>>,
    source: u32,
    before: Map<u32, Vec<u32>>,
    after: Map<u32, Vec<u32>>,
    frontier: Seq<u32>,
    next: Seq<u32>,
    d: nat,
)
    requires
        level(adj, source, before, d),
        frontier_of(before, frontier, d),
        widened(adj, source, before, after, next, d),
        forall|k: int, v: u32|
            0 <= k < frontier.len() && adj.contains_key(#[trigger] frontier[k])
                && #[trigger] adj[frontier[k]].contains(v) ==> after.contains_key(v),
    ensures
        level(adj, source, after, d + 1),
        frontier_of(after, next, d + 1),
{
    reveal(level);
    reveal(frontier_of);
    reveal(widened);
    assert forall|u: u32, v: u32|
        after.contains_key(u) && after[u]@.len() < d + 1 && adj.contains_key(u)
            && #[trigger] adj[u].contains(v) implies after.contains_key(v) by {
        if !before.contains_key(u) {
            assert(after[u]@.len() == d + 1);
        } else {
            assert(after[u] == before[u]);
            if before[u]@.len() == d {
                assert(frontier.contains(u));
                let k = choose|k: int| 0 <= k < frontier.len() && frontier[k] == u;
                assert(adj[frontier[k]].contains(v));
            } else {
                assert(before.contains_key(v));
            }
        }
    }
    assert forall|walk: Seq<u32>| #[trigger]
        is_walk(adj, walk) && walk[0] == source && walk.len() <= d + 2 implies after.contains_key(
        walk.last(),
    ) by {
        if walk.len() <= d + 1 {
            assert(before.contains_key(walk.last()));
        } else {
            let shorter = walk.drop_last();
            assert(is_walk(adj, shorter)) by {
                assert forall|i: int| 0 <= i < shorter.len() - 1 implies adj.contains_key(
                    #[trigger] shorter[i],
                ) && adj[shorter[i]].contains(shorter[i + 1]) by {
                    assert(shorter[i] == walk[i]);
                    assert(shorter[i + 1] == walk[i + 1]);
                }
            }
            assert(shorter[0] == walk[0]);
            let u = shorter.last();
            assert(before.contains_key(u));
            assert(shortest(adj, source, before, u));
            assert(before[u]@.len() + 1 <= shorter.len());
            assert(u == walk[walk.len() - 2]);
            assert(adj.contains_key(walk[walk.len() - 2]) && adj[walk[walk.len() - 2]].contains(
                walk[walk.len() - 2 + 1],
            ));
            assert(after.contains_key(u) && after[u] == before[u]);
            assert(adj[u].contains(walk.last()));
        }
    }
    assert forall|v: u32| #[trigger] after.contains_key(v) implies leads_to(
        adj,
        source,
        after,
        v,
    ) && shortest(adj, source, after, v) && after[v]@.len() <= d + 1 by {
        if before.contains_key(v) {
            assert(after[v] == before[v]);
            assert(leads_to(adj, source, before, v));
            assert(shortest(adj, source, before, v));
        } else {
            assert forall|walk: Seq<u32>| #[trigger]
                is_walk(adj, walk) && walk[0] == source && walk.last() == v implies after[v]@.len()
                + 1 <= walk.len() by {
                if walk.len() <= d + 1 {
                    assert(before.contains_key(walk.last()));
                }
            }
        }
    }
    assert forall|v: u32| #[trigger]
        after.contains_key(v) && after[v]@.len() == d + 1 implies next.contains(v) by {
        if before.contains_key(v) {
            assert(after[v] == before[v]);
        }
    }
}

/// A vertex of the frontier has a path of `d` steps that leads to it.
proof fn lemma_frontier_vertex(
    adj: Map<u32, Set<u32>>,
    source: u32,
    paths: Map<u32, Vec<u32>>,
    frontier: Seq<u32>,
    d: nat,
    i: int,
)
    requires
        level(adj, source, paths, d),
        frontier_of(paths, frontier, d),
        0 <= i < frontier.len(),
    ensures
        paths.contains_key(frontier[i]),
        paths[frontier[i]]@.len() == d,
        leads_to(adj, source, paths, frontier[i]),
{
    reveal(level);
    reveal(frontier_of);
}

impl Graph {
    /// A shortest path from `source` to each vertex that it reaches.
    ///
    /// The path of a vertex holds the vertices of a shortest walk from
    /// `source` to it but the vertex itself, so that of `source` is empty.
    pub fn shorted_path_from(&self, source: u32) -> (found: ShortestPaths)
        ensures
            forall|v: u32| #[trigger]
                found.0@.contains_key(v) <==> reaches(self.adjacency(), source, v),
            forall|v: u32| #[trigger]
                found.0@.contains_key(v) ==> leads_to(self.adjacency(), source, found.0@, v)
                    && shortest(self.adjacency(), source, found.0@, v),
    {
        broadcast use vstd::std_specs::hash::group_hash_axioms;

        let ghost adj = self.adjacency();
        let mut paths: HashMap<u32, Vec<u32>> = HashMap::new();
        paths.insert(source, Vec::new());
        let mut frontier: Vec<u32> = Vec::new();
        frontier.push(source);
        let ghost mut d: nat = 0;
        proof {
            reveal(level);
            reveal(frontier_of);
            let only = paths@[source]@.push(source);
            assert(only.len() == 1);
            assert(is_walk(adj, only));
            assert(frontier@[0] == source);
            assert forall|walk: Seq<u32>| #[trigger]
                is_walk(adj, walk) && walk[0] == source && walk.len() <= 1 implies paths@.contains_key(
                walk.last(),
            ) by {
                assert(walk.last() == walk[0]);
            }
            assert(paths@.dom() =~= Set::<u32>::empty().insert(source));
        }
        while frontier.len() > 0
            invariant
                adj == self.adjacency(),
                paths@.dom().finite(),
                level(adj, source, paths@, d),
                frontier_of(paths@, frontier@, d),
            decreases
                    (0x1_0000_0000 - paths@.dom().len()) * 2 + if frontier@.len() > 0 {
                        1int
                    } else {
                        0int
                    },
        {
            proof {
                lemma_vertex_set_bound(paths@.dom());
            }
            let ghost start = paths@;
            let mut next: Vec<u32> = Vec::new();
            let mut at: usize = 0;
            proof {
                reveal(widened);
            }
            while at < frontier.len()
                invariant
                    at <= frontier@.len(),
                    adj == self.adjacency(),
                    paths@.dom().finite(),
                    level(adj, source, start, d),
                    frontier_of(start, frontier@, d),
                    widened(adj, source, start, paths@, next@, d),
                    start.dom().len() <= paths@.dom().len(),
                    next@.len() > 0 ==> start.dom().len() < paths@.dom().len(),
                    forall|k: int, v: u32|
                        0 <= k < at && adj.contains_key(#[trigger] frontier@[k])
                            && #[trigger] adj[frontier@[k]].contains(v) ==> paths@.contains_key(v),
                decreases frontier@.len() - at,
            {
                let u = frontier[at];
                let ghost before = paths@;
                proof {
                    lemma_frontier_vertex(adj, source, start, frontier@, d, at as int);
                }
                expand_vertex(self, source, u, &mut paths, &mut next, Ghost(start), Ghost(d));
                proof {
                    assert forall|k: int, v: u32|
                        0 <= k < at + 1 && adj.contains_key(#[trigger] frontier@[k])
                            && #[trigger] adj[frontier@[k]].contains(v) implies paths@.contains_key(
                        v,
                    ) by {
                        if k < at {
                            assert(before.contains_key(v));
                        }
                    }
                }
                at = at + 1;
            }
            proof {
                lemma_level_up(adj, source, start, paths@, frontier@, next@, d);
                lemma_vertex_set_bound(paths@.dom());
                d = d + 1;
            }
            frontier = next;
        }
        proof {
            reveal(level);
            reveal(frontier_of);
            let set = paths@.dom();
            assert(closed(adj, set)) by {
                assert forall|u: u32, v: u32|
                    set.contains(u) && adj.contains_key(u) && #[trigger] adj[u].contains(
                        v,
                    ) implies set.contains(v) by {
                    if paths@[u]@.len() == d {
                        assert(frontier@.contains(u));
                    }
                }
            }
            assert forall|v: u32| reaches(adj, source, v) implies #[trigger] paths@.contains_key(
                v,
            ) by {
                lemma_closed_holds_reach(adj, set, source, v);
            }
            assert forall|v: u32| #[trigger] paths@.contains_key(v) implies reaches(
                adj,
                source,
                v,
            ) by {
                assert(leads_to(adj, source, paths@, v));
                let walk = paths@[v]@.push(v);
                assert(is_walk(adj, walk) && walk[0] == source && walk.last() == v);
            }
        }
        ShortestPaths(paths)
    }

    /// A path from `destination` back to `source`, if `source` is another
    /// vertex and reaches `destination`.
    ///
    /// The path starts with `destination` and ends with `source`, and each
    /// vertex of it is a neighbor of the next.
    pub fn shorted_path_to(&self, source: u32, destination: u32) -> (path: Option<Vec<u32>>)
        ensures
            path is Some <==> source != destination && reaches(
                self.adjacency(),
                source,
                destination,
            ),
            path matches Some(path) ==> {
                &&& path@.len() >= 2
                &&& path@[0] == destination
                &&& path@.last() == source
                &&& walks_back(self.adjacency(), path@)
            },
    {
        broadcast use vstd::std_specs::hash::group_hash_axioms;

        let ghost adj = self.adjacency();
        let mut previous: HashMap<u32, u32> = HashMap::new();
        let ghost mut depth: Map<u32, nat> = Map::empty().insert(source, 0nat);
        let mut visiting: Vec<u32> = Vec::new();
        visiting.push(source);
        let mut found = false;
        proof {
            lemma_reaches_self(adj, source);
            assert(visiting@[0] == source);
        }
        while !found
            invariant
                adj == self.adjacency(),
                previous@.dom().finite(),
                forest(adj, previous@, depth, source),
                forall|i: int|
                    0 <= i < visiting@.len() ==> discovered(
                        previous@,
                        source,
                        #[trigger] visiting@[i],
                    ),
                !found ==> forall|u: u32, v: u32|
                    discovered(previous@, source, u) && adj.contains_key(u)
                        && #[trigger] adj[u].contains(v) ==> discovered(previous@, source, v)
                        || visiting@.contains(u),
                found <==> previous@.contains_key(destination),
            ensures
                found,
                previous@.contains_key(destination),
                forest(adj, previous@, depth, source),
            decreases 0x1_0000_0000 - previous@.dom().len(), visiting@.len(),
        {
            proof {
                lemma_vertex_set_bound(previous@.dom());
            }
            let ghost stack = visiting@;
            let ghost known = previous@;
            let current = match visiting.pop() {
                Some(current) => current,
                None => {
                    proof {
                        let set = Set::new(|v: u32| discovered(previous@, source, v));
                        assert forall|u: u32, v: u32|
                            set.contains(u) && adj.contains_key(u) && #[trigger] adj[u].contains(
                                v,
                            ) implies set.contains(v) by {
                            assert(!visiting@.contains(u));
                        }
                        if source != destination && reaches(adj, source, destination) {
                            lemma_closed_holds_reach(adj, set, source, destination);
                        }
                    }
                    return None;
                },
            };
            let ghost rest = visiting@;
            proof {
                assert(stack[stack.len() - 1] == current);
                assert(discovered(previous@, source, stack[stack.len() - 1]));
                assert forall|v: u32| stack.contains(v) && v != current implies rest.contains(v) by {
                    let i = choose|i: int| 0 <= i < stack.len() && stack[i] == v;
                    assert(rest[i] == v);
                }
                if current != source {
                    assert(previous@.contains_key(current));
                } else {
                    lemma_reaches_self(adj, source);
                }
                assert(reaches(adj, source, current));
            }
            let (hit, deeper) = discover(
                self,
                current,
                source,
                destination,
                &mut previous,
                &mut visiting,
                Ghost(depth),
            );
            found = hit;
            proof {
                depth = deeper@;
                lemma_vertex_set_bound(previous@.dom());
                assert forall|i: int| 0 <= i < visiting@.len() implies discovered(
                    previous@,
                    source,
                    #[trigger] visiting@[i],
                ) by {
                    if i < rest.len() {
                        assert(visiting@[i] == rest[i]);
                        assert(rest[i] == stack[i]);
                        assert(discovered(known, source, stack[i]));
                    }
                }
                if !found {
                    assert forall|u: u32, v: u32|
                        discovered(previous@, source, u) && adj.contains_key(u)
                            && #[trigger] adj[u].contains(v) implies discovered(
                        previous@,
                        source,
                        v,
                    ) || visiting@.contains(u) by {
                        if u != current {
                            if discovered(known, source, u) {
                                if !discovered(known, source, v) {
                                    assert(stack.contains(u));
                                    assert(rest.contains(u));
                                }
                            }
                        }
                    }
                }
            }
        }
        let mut path: Vec<u32> = Vec::new();
        path.push(destination);
        let mut current = destination;
        while current != source
            invariant
                adj == self.adjacency(),
                forest(adj, previous@, depth, source),
                discovered(previous@, source, current),
                depth.contains_key(current),
                path@.len() >= 1,
                path@[0] == destination,
                path@.last() == current,
                walks_back(adj, path@),
                path@.len() >= 2 || current == destination,
            decreases depth[current],
        {
            let ghost so_far = path@;
            let before = *previous.get(&current).unwrap();
            path.push(before);
            proof {
                assert forall|i: int| 0 <= i < path@.len() - 1 implies adj.contains_key(
                    #[trigger] path@[i + 1],
                ) && adj[path@[i + 1]].contains(path@[i]) by {
                    if i < so_far.len() - 1 {
                        assert(path@[i + 1] == so_far[i + 1]);
                        assert(path@[i] == so_far[i]);
                    }
                }
            }
            current = before;
        }
        proof {
            assert(reaches(adj, source, destination));
        }
        Some(path)
    }
}

} // verus!
