//! Graphs whose vertices part into two sides with no edge within a side.

use std::collections::HashSet;
use vstd::prelude::*;

use crate::graph::static_a::search::{is_walk, lemma_reaches_self, lemma_reaches_step, reaches};
use crate::graph::static_a::shortest_paths::leads_to;
use crate::graph::{symmetric, Graph, Graphed};
use crate::utils::collections::{map_keys, set_items};

verus! {

/// Whether each vertex and each of its neighbors are on different sides,
/// where `side` holds the vertices of one side.
pub open spec fn two_sided(adj: Map<u32, Set<u32>>, side: Set<u32>) -> bool {
    forall|u: u32, v: u32|
        adj.contains_key(u) && #[trigger] adj[u].contains(v) ==> side.contains(u) != side.contains(
            v,
        )
}

/// Whether the vertices part into two sides with no edge within a side.
pub open spec fn two_colorable(adj: Map<u32, Set<u32>>) -> bool {
    exists|side: Set<u32>| two_sided(adj, side)
}

/// Along a walk the sides take turns: the end of a walk is on the side of
/// its start exactly if the walk has an even number of steps.
pub proof fn lemma_walk_alternates(adj: Map<u32, Set<u32>>, side: Set<u32>, walk: Seq<u32>)
    requires
        two_sided(adj, side),
        is_walk(adj, walk),
    ensures
        (side.contains(walk.last()) == side.contains(walk[0])) == ((walk.len() - 1) % 2 == 0),
    decreases walk.len(),
{
    if walk.len() > 1 {
        let shorter = walk.drop_last();
        assert(is_walk(adj, shorter)) by {
            assert forall|i: int| 0 <= i < shorter.len() - 1 implies adj.contains_key(
                #[trigger] shorter[i],
            ) && adj[shorter[i]].contains(shorter[i + 1]) by {
                assert(shorter[i] == walk[i]);
                assert(shorter[i + 1] == walk[i + 1]);
            }
        }
        lemma_walk_alternates(adj, side, shorter);
        let last = walk.len() - 2;
        assert(adj.contains_key(walk[last]) && adj[walk[last]].contains(walk[last + 1]));
        assert(shorter.last() == walk[last]);
        assert(shorter[0] == walk[0]);
    }
}

/// Whether the vertices that `root` reaches have the steps of `steps` from
/// it, and no vertex among them has a neighbor with as many steps, as far as
/// odd and even go.
pub open spec fn layered(adj: Map<u32, Set<u32>>, root: u32, steps: Map<u32, nat>) -> bool {
    &&& forall|v: u32| #[trigger] steps.contains_key(v) <==> reaches(adj, root, v)
    &&& forall|u: u32, v: u32|
        steps.contains_key(u) && adj.contains_key(u) && #[trigger] adj[u].contains(v)
            ==> steps.contains_key(v) && steps[u] % 2 != steps[v] % 2
}

/// Whether `v` is among the first `at` of the items.
spec fn among(items: Seq<u32>, at: int, v: u32) -> bool {
    exists|k: int| 0 <= k < at && items[k] == v
}

proof fn lemma_among_step(items: Seq<u32>, at: int, v: u32)
    requires
        0 <= at < items.len(),
    ensures
        among(items, at + 1, v) <==> among(items, at, v) || items[at] == v,
{
    if among(items, at + 1, v) {
        let k = choose|k: int| 0 <= k < at + 1 && items[k] == v;
        if k < at {
            assert(among(items, at, v));
        }
    }
    if among(items, at, v) {
        let k = choose|k: int| 0 <= k < at && items[k] == v;
        assert(0 <= k < at + 1 && items[k] == v);
    }
    if items[at] == v {
        assert(0 <= at < at + 1 && items[at] == v);
    }
}

/// Marks the items as visited.
fn mark_all(visited: &mut HashSet<u32>, items: &Vec<u32>)
    ensures
        forall|v: u32|
            final(visited)@.contains(v) <==> old(visited)@.contains(v) || items@.to_set().contains(
                v,
            ),
{
    broadcast use vstd::std_specs::hash::group_hash_axioms;

    let ghost seen = visited@;
    let mut at: usize = 0;
    while at < items.len()
        invariant
            at <= items@.len(),
            forall|v: u32|
                #![trigger visited@.contains(v)]
                #![trigger among(items@, at as int, v)]
                visited@.contains(v) <==> seen.contains(v) || among(items@, at as int, v),
        decreases items@.len() - at,
    {
        let u = items[at];
        proof {
            assert forall|v: u32|
                #[trigger] among(items@, at + 1, v) <==> among(items@, at as int, v) || items@[at as int]
                    == v by {
                lemma_among_step(items@, at as int, v);
            }
        }
        visited.insert(u);
        at = at + 1;
    }
    proof {
        assert forall|v: u32|
            visited@.contains(v) <==> seen.contains(v) || items@.to_set().contains(v) by {
            if among(items@, at as int, v) {
                let k = choose|k: int| 0 <= k < at && items@[k] == v;
                assert(items@.to_set().contains(items@[k]));
            }
            if items@.to_set().contains(v) {
                let k = choose|k: int| 0 <= k < items@.len() && items@[k] == v;
                assert(0 <= k < at && items@[k] == v);
            }
        }
    }
}

/// Counts the steps from `root` to the vertices that it reaches, and looks
/// for a vertex among them that has a neighbor with as many steps, as far
/// as odd and even go. Marks the vertices as visited.
fn layers(graph: &Graph, root: u32, visited: &mut HashSet<u32>) -> (r: (bool, Ghost<Map<u32, nat>>))
    ensures
        forall|v: u32|
            final(visited)@.contains(v) <==> old(visited)@.contains(v) || reaches(
                graph.adjacency(),
                root,
                v,
            ),
        r.0 ==> layered(graph.adjacency(), root, r.1@),
        !r.0 ==> !two_colorable(graph.adjacency()),
{
    broadcast use vstd::std_specs::hash::group_hash_axioms;

    let ghost adj = graph.adjacency();
    let ghost seen = visited@;
    let found = graph.shorted_path_from(root);
    let paths = found.as_ref();
    let ghost steps = Map::new(|v: u32| paths@.contains_key(v), |v: u32| paths@[v]@.len());
    let reached = map_keys(paths);
    mark_all(visited, &reached);
    proof {
        assert forall|v: u32|
            visited@.contains(v) <==> seen.contains(v) || reaches(adj, root, v) by {
            assert(reaches(adj, root, v) <==> paths@.contains_key(v));
            assert(paths@.contains_key(v) <==> reached@.to_set().contains(v));
        }
    }
    let mut ok = true;
    let mut at: usize = 0;
    while at < reached.len() && ok
        invariant
            at <= reached@.len(),
            adj == graph.adjacency(),
            reached@.to_set() == paths@.dom(),
            steps == Map::new(|v: u32| paths@.contains_key(v), |v: u32| paths@[v]@.len()),
            forall|v: u32| #[trigger] paths@.contains_key(v) <==> reaches(adj, root, v),
            forall|v: u32| #[trigger] paths@.contains_key(v) ==> leads_to(adj, root, paths@, v),
            ok ==> forall|k: int, v: u32|
                0 <= k < at && adj.contains_key(#[trigger] reached@[k])
                    && #[trigger] adj[reached@[k]].contains(v) ==> paths@.contains_key(v)
                    && steps[reached@[k]] % 2 != steps[v] % 2,
            !ok ==> !two_colorable(adj),
        decreases reached@.len() - at,
    {
        let u = reached[at];
        assert(reached@.to_set().contains(reached@[at as int]));
        let own = paths.get(&u).unwrap().len() % 2;
        match graph.get_neighbors(&u) {
            Some(neighbors) => {
                let neighbors = set_items(neighbors);
                let mut to: usize = 0;
                while to < neighbors.len() && ok
                    invariant
                        to <= neighbors@.len(),
                        adj == graph.adjacency(),
                        adj.contains_key(u),
                        neighbors@.to_set() == adj[u],
                        paths@.contains_key(u),
                        own == paths@[u]@.len() % 2,
                        forall|v: u32| #[trigger] paths@.contains_key(v) <==> reaches(adj, root, v),
                        forall|v: u32| #[trigger]
                            paths@.contains_key(v) ==> leads_to(adj, root, paths@, v),
                        ok ==> forall|k: int|
                            0 <= k < to ==> paths@.contains_key(#[trigger] neighbors@[k])
                                && paths@[neighbors@[k]]@.len() % 2 != own,
                        !ok ==> !two_colorable(adj),
                    decreases neighbors@.len() - to,
                {
                    let v = neighbors[to];
                    proof {
                        assert(neighbors@.to_set().contains(neighbors@[to as int]));
                        lemma_reaches_step(adj, root, u, v);
                    }
                    let other = paths.get(&v).unwrap().len() % 2;
                    if other == own {
                        ok = false;
                        proof {
                            assert forall|side: Set<u32>| !two_sided(adj, side) by {
                                if two_sided(adj, side) {
                                    lemma_walk_alternates(adj, side, paths@[u]@.push(u));
                                    lemma_walk_alternates(adj, side, paths@[v]@.push(v));
                                    assert(adj[u].contains(v));
                                }
                            }
                        }
                    }
                    to = to + 1;
                }
                proof {
                    if ok {
                        assert forall|v: u32| #[trigger] adj[u].contains(v) implies paths@.contains_key(
                            v,
                        ) && steps[u] % 2 != steps[v] % 2 by {
                            assert(neighbors@.to_set().contains(v));
                            let k = choose|k: int| 0 <= k < neighbors@.len() && neighbors@[k] == v;
                            assert(paths@.contains_key(neighbors@[k]));
                        }
                    }
                }
            },
            None => {},
        }
        at = at + 1;
    }
    proof {
        if ok {
            assert forall|u: u32, v: u32|
                steps.contains_key(u) && adj.contains_key(u) && #[trigger] adj[u].contains(
                    v,
                ) implies steps.contains_key(v) && steps[u] % 2 != steps[v] % 2 by {
                assert(reached@.to_set().contains(u));
                let k = choose|k: int| 0 <= k < reached@.len() && reached@[k] == u;
                assert(adj[reached@[k]].contains(v));
            }
        }
    }
    (ok, Ghost(steps))
}

/// The first of the layers that holds the vertex, or their number.
spec fn first_layer(layers: Seq<Map<u32, nat>>, v: u32) -> int
    decreases layers.len(),
{
    if layers.len() == 0 {
        0
    } else if first_layer(layers.drop_last(), v) < layers.len() - 1 {
        first_layer(layers.drop_last(), v)
    } else if layers.last().contains_key(v) {
        layers.len() - 1
    } else {
        layers.len() as int
    }
}

proof fn lemma_first_layer(layers: Seq<Map<u32, nat>>, v: u32)
    ensures
        0 <= first_layer(layers, v) <= layers.len(),
        first_layer(layers, v) < layers.len() ==> layers[first_layer(layers, v)].contains_key(v),
        forall|i: int| 0 <= i < first_layer(layers, v) ==> !(#[trigger] layers[i]).contains_key(v),
    decreases layers.len(),
{
    if layers.len() > 0 {
        lemma_first_layer(layers.drop_last(), v);
        assert forall|i: int| 0 <= i < layers.len() - 1 implies layers.drop_last()[i]
            == layers[i] by {}
    }
}

impl Graph {
    /// Whether the graph has a vertex and its vertices part into two sides
    /// with no edge within a side.
    ///
    /// The answer is right for a graph whose edges go both ways. For any
    /// other graph the answer `false` is right.
    pub fn is_bipartite(&self) -> (yes: bool)
        ensures
            yes ==> self.adjacency().dom() != Set::<u32>::empty(),
            !yes ==> self.adjacency().dom() == Set::<u32>::empty() || !two_colorable(
                self.adjacency(),
            ),
            symmetric(self.adjacency()) && yes ==> two_colorable(self.adjacency()),
    {
        broadcast use vstd::std_specs::hash::group_hash_axioms;

        let ghost adj = self.adjacency();
        let vertices = self.vertices();
        if vertices.len() == 0 {
            assert(adj.dom() =~= Set::<u32>::empty());
            return false;
        }
        assert(vertices@.to_set().contains(vertices@[0]));
        let mut visited: HashSet<u32> = HashSet::new();
        let ghost mut roots: Seq<u32> = Seq::empty();
        let ghost mut steps: Seq<Map<u32, nat>> = Seq::empty();
        let mut at: usize = 0;
        while at < vertices.len()
            invariant
                at <= vertices@.len(),
                adj == self.adjacency(),
                vertices@.to_set() == adj.dom(),
                roots.len() == steps.len(),
                forall|i: int| 0 <= i < steps.len() ==> layered(adj, roots[i], #[trigger] steps[i]),
                forall|v: u32|
                    visited@.contains(v) <==> exists|i: int|
                        0 <= i < steps.len() && (#[trigger] steps[i]).contains_key(v),
                forall|k: int| 0 <= k < at ==> visited@.contains(#[trigger] vertices@[k]),
            decreases vertices@.len() - at,
        {
            let root = vertices[at];
            if !visited.contains(&root) {
                let ghost before = visited@;
                let ghost so_far = steps;
                let (ok, layer) = layers(self, root, &mut visited);
                if !ok {
                    return false;
                }
                proof {
                    roots = roots.push(root);
                    steps = steps.push(layer@);
                    lemma_reaches_self(adj, root);
                    assert forall|v: u32|
                        visited@.contains(v) <==> exists|i: int|
                            0 <= i < steps.len() && (#[trigger] steps[i]).contains_key(v) by {
                        if before.contains(v) {
                            let i = choose|i: int|
                                0 <= i < so_far.len() && (#[trigger] so_far[i]).contains_key(v);
                            assert(steps[i].contains_key(v));
                        }
                        if reaches(adj, root, v) {
                            assert(steps[steps.len() - 1].contains_key(v));
                        }
                        if exists|i: int|
                            0 <= i < steps.len() && (#[trigger] steps[i]).contains_key(v) {
                            let i = choose|i: int|
                                0 <= i < steps.len() && (#[trigger] steps[i]).contains_key(v);
                            if i < so_far.len() {
                                assert(so_far[i].contains_key(v));
                            }
                        }
                    }
                    assert forall|i: int| 0 <= i < steps.len() implies layered(
                        adj,
                        roots[i],
                        #[trigger] steps[i],
                    ) by {
                        if i < so_far.len() {
                            assert(steps[i] == so_far[i]);
                        }
                    }
                }
            }
            at = at + 1;
        }
        proof {
            if symmetric(adj) {
                let side = Set::new(
                    |v: u32|
                        first_layer(steps, v) < steps.len() && steps[first_layer(steps, v)][v] % 2
                            == 1,
                );
                assert forall|u: u32, v: u32|
                    adj.contains_key(u) && #[trigger] adj[u].contains(v) implies side.contains(u)
                    != side.contains(v) by {
                    assert(vertices@.to_set().contains(u));
                    let k = choose|k: int| 0 <= k < vertices@.len() && vertices@[k] == u;
                    assert(visited@.contains(vertices@[k]));
                    lemma_first_layer(steps, u);
                    lemma_first_layer(steps, v);
                    let i = first_layer(steps, u);
                    let j = first_layer(steps, v);
                    if i >= steps.len() {
                        let any = choose|any: int|
                            0 <= any < steps.len() && (#[trigger] steps[any]).contains_key(u);
                        assert(false);
                    }
                    assert(layered(adj, roots[i], steps[i]));
                    assert(steps[i].contains_key(v));
                    assert(j <= i);
                    if j < i {
                        assert(layered(adj, roots[j], steps[j]));
                        assert(adj.contains_key(v) && adj[v].contains(u));
                        assert(steps[j].contains_key(u));
                    }
                }
                assert(two_sided(adj, side));
            }
        }
        true
    }
}

} // verus!
