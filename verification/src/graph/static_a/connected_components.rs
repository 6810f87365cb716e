//! The connected components of a graph.

use std::collections::HashSet;
use vstd::prelude::*;

use crate::graph::static_a::search::{closed, explore, reaches};
use crate::graph::{Graph, Graphed};

verus! {

/// What keeps a graph from having components.
#[derive(Debug, Clone, Copy, PartialEq, Eq, Structural)]
pub enum GraphError {
    /// The graph has no vertex.
    EmptyGraph,
}

/// The components of a graph, each the set of its vertices.
#[derive(Debug)]
pub struct ConnectedComponents(pub Vec<HashSet<u32>>);

impl ConnectedComponents {
    /// The components.
    pub fn as_ref(&self) -> (components: &Vec<HashSet<u32>>)
        ensures
            *components == self.0,
    {
        &self.0
    }
}

/// Whether the component at the place `i` holds what a vertex `root` of the
/// graph reaches, but for what the components before it hold.
pub open spec fn component_of(
    adj: Map<u32, Set<u32>>,
    components: Seq<HashSet<u32>>,
    i: int,
    root: u32,
) -> bool {
    &&& adj.contains_key(root)
    &&& components[i]@.contains(root)
    &&& forall|w: u32|
        #![trigger components[i]@.contains(w)]
        #![trigger reaches(adj, root, w)]
        components[i]@.contains(w) <==> reaches(adj, root, w) && forall|j: int|
            0 <= j < i ==> !(#[trigger] components[j])@.contains(w)
}

/// A component is that of a vertex whatever components come after it.
proof fn lemma_component_stays(
    adj: Map<u32, Set<u32>>,
    found: Seq<HashSet<u32>>,
    more: Seq<HashSet<u32>>,
    k: int,
    root: u32,
)
    requires
        0 <= k < found.len() <= more.len(),
        forall|j: int| 0 <= j < found.len() ==> #[trigger] more[j] == found[j],
        component_of(adj, found, k, root),
    ensures
        component_of(adj, more, k, root),
{
    assert(more[k] == found[k]);
    assert forall|w: u32|
        #![trigger more[k]@.contains(w)]
        #![trigger reaches(adj, root, w)]
        more[k]@.contains(w) <==> reaches(adj, root, w) && forall|j: int|
            0 <= j < k ==> !(#[trigger] more[j])@.contains(w) by {
        if found[k]@.contains(w) {
            assert forall|j: int| 0 <= j < k implies !(#[trigger] more[j])@.contains(w) by {
                assert(more[j] == found[j]);
                assert(!found[j]@.contains(w));
            }
        }
        if reaches(adj, root, w) && forall|j: int|
            0 <= j < k ==> !(#[trigger] more[j])@.contains(w) {
            assert forall|j: int| 0 <= j < k implies !(#[trigger] found[j])@.contains(w) by {
                assert(more[j] == found[j]);
                assert(!more[j]@.contains(w));
            }
        }
    }
}

/// Whether the component at the place `i` is that of a vertex of the graph.
pub open spec fn has_root(adj: Map<u32, Set<u32>>, components: Seq<HashSet<u32>>, i: int) -> bool {
    exists|root: u32| component_of(adj, components, i, root)
}

/// Whether a component holds the vertex.
pub open spec fn in_component(components: Seq<HashSet<u32>>, v: u32) -> bool {
    exists|i: int| 0 <= i < components.len() && (#[trigger] components[i])@.contains(v)
}

impl Graph {
    /// The components of the graph, or an error if the graph has no
    /// vertex.
    ///
    /// A component holds the vertices that one vertex of the graph
    /// reaches, but for those that a component before it holds. Every
    /// vertex is in a component.
    pub fn connected_components(&self) -> (found: Result<ConnectedComponents, GraphError>)
        ensures
            found is Err <==> self.adjacency().dom() == Set::<u32>::empty(),
            found matches Ok(components) ==> {
                &&& forall|i: int|
                    0 <= i < components.0@.len() ==> #[trigger] has_root(
                        self.adjacency(),
                        components.0@,
                        i,
                    )
                &&& forall|v: u32| #[trigger]
                    self.adjacency().contains_key(v) ==> in_component(components.0@, v)
            },
    {
        broadcast use vstd::std_specs::hash::group_hash_axioms;

        let ghost adj = self.adjacency();
        let vertices = self.vertices();
        if vertices.len() == 0 {
            assert(adj.dom() =~= Set::<u32>::empty());
            return Err(GraphError::EmptyGraph);
        }
        assert(vertices@.to_set().contains(vertices@[0]));
        let mut visited: HashSet<u32> = HashSet::new();
        let mut components: Vec<HashSet<u32>> = Vec::new();
        let mut at: usize = 0;
        while at < vertices.len()
            invariant
                at <= vertices@.len(),
                adj == self.adjacency(),
                vertices@.to_set() == adj.dom(),
                closed(adj, visited@),
                forall|w: u32| visited@.contains(w) <==> #[trigger] in_component(components@, w),
                forall|k: int| 0 <= k < at ==> visited@.contains(#[trigger] vertices@[k]),
                forall|i: int| 0 <= i < components@.len() ==> #[trigger] has_root(adj, components@, i),
            decreases vertices@.len() - at,
        {
            let next = vertices[at];
            assert(vertices@.to_set().contains(vertices@[at as int]));
            if !visited.contains(&next) {
                let ghost before = visited@;
                let ghost found = components@;
                let component = explore(self, next, &mut visited);
                components.push(component);
                proof {
                    let i = found.len() as int;
                    assert(components@[i] == component);
                    assert forall|j: int| 0 <= j < i implies components@[j] == found[j] by {}
                    assert(component_of(adj, components@, i, next)) by {
                        assert forall|w: u32|
                            #![trigger components@[i]@.contains(w)]
                            #![trigger reaches(adj, next, w)]
                            components@[i]@.contains(w) <==> reaches(adj, next, w) && forall|j: int|
                                0 <= j < i ==> !(#[trigger] components@[j])@.contains(w) by {
                            if before.contains(w) {
                                assert(in_component(found, w));
                                let j = choose|j: int|
                                    0 <= j < found.len() && (#[trigger] found[j])@.contains(w);
                                assert(components@[j]@.contains(w));
                            } else {
                                assert(!in_component(found, w));
                                assert forall|j: int| 0 <= j < i implies !(
                                #[trigger] components@[j])@.contains(w) by {
                                    assert(found[j] == components@[j]);
                                }
                            }
                        }
                    }
                    assert forall|k: int| 0 <= k < components@.len() implies #[trigger] has_root(
                        adj,
                        components@,
                        k,
                    ) by {
                        if k < i {
                            assert(has_root(adj, found, k));
                            let root = choose|root: u32| component_of(adj, found, k, root);
                            lemma_component_stays(adj, found, components@, k, root);
                        }
                    }
                    assert forall|w: u32| visited@.contains(w) <==> #[trigger] in_component(
                        components@,
                        w,
                    ) by {
                        if before.contains(w) {
                            assert(in_component(found, w));
                            let j = choose|j: int|
                                0 <= j < found.len() && (#[trigger] found[j])@.contains(w);
                            assert(components@[j]@.contains(w));
                        }
                        if component@.contains(w) {
                            assert(components@[i]@.contains(w));
                        }
                        if in_component(components@, w) {
                            let j = choose|j: int|
                                0 <= j < components@.len() && (#[trigger] components@[j])@.contains(
                                    w,
                                );
                            if j < i {
                                assert(found[j]@.contains(w));
                                assert(in_component(found, w));
                            }
                        }
                    }
                }
            }
            at = at + 1;
        }
        proof {
            assert forall|v: u32| #[trigger] adj.contains_key(v) implies in_component(
                components@,
                v,
            ) by {
                assert(vertices@.to_set().contains(v));
                let k = choose|k: int| 0 <= k < vertices@.len() && vertices@[k] == v;
                assert(visited@.contains(vertices@[k]));
            }
        }
        Ok(ConnectedComponents(components))
    }
}

} // verus!
