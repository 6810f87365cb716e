use g_raph::graph::edge::Edge;
use g_raph::graph::static_a::coloring::{color_smallest_last, degeneracy_ordering, Colorer};
use g_raph::graph::{Graph, GraphWithRecaller, Graphed};
use rand::seq::IteratorRandom;
use rand::Rng;
use std::collections::{HashMap, HashSet};

#[test]
fn new_graph() {
    let mut graph = GraphWithRecaller::new(Default::default());

    graph.add_edge(Edge::init(1, 2));
    graph.add_edge(Edge::init(2, 3));
    graph.add_edge(Edge::init(1, 3));

    assert_eq!(graph.priority(1).unwrap(), 2_usize);
    assert_eq!(graph.priority(2).unwrap(), 2_usize);
    assert_eq!(graph.priority(3).unwrap(), 2_usize);
}

fn both<G: Graphed>(edges: &[(u32, u32)]) -> G {
    let mut graph = G::new(HashMap::new());
    for (u, v) in edges {
        graph.add_edge(Edge::init(*u, *v));
    }
    graph
}

fn same<A: Graphed, B: Graphed>(a: &A, b: &B) {
    assert_eq!(a.adj_list(), b.adj_list());
    let mut left = a.vertices();
    let mut right = b.vertices();
    left.sort();
    right.sort();
    assert_eq!(left, right);
    assert_eq!(a.is_empty(), b.is_empty());
    assert_eq!(a.min_degree().map(|m| m.1), b.min_degree().map(|m| m.1));
}

#[test]
fn the_two_graphs_do_the_same() {
    let edges = [(0, 1), (1, 2), (2, 0), (2, 3), (4, 5), (5, 6), (6, 4), (3, 6)];
    let mut plain: Graph = both(&edges);
    let mut queue: GraphWithRecaller = both(&edges);
    same(&plain, &queue);
    assert_eq!(queue.min_degree().map(|m| m.1), Some(2));
    assert!(plain.has_edge(&Edge::init(3, 2)));
    assert!(queue.has_edge(&Edge::init(3, 6)));
    assert!(!queue.has_edge(&Edge::init(0, 6)));

    plain.remove_edge(Edge::init(2, 3));
    queue.remove_edge(Edge::init(2, 3));
    same(&plain, &queue);
    assert_eq!(queue.priority(3), Some(1));
    assert_eq!(queue.min_degree(), Some((3, 1)));

    plain.remove_edge(Edge::init(6, 3));
    queue.remove_edge(Edge::init(6, 3));
    same(&plain, &queue);
    assert_eq!(queue.priority(3), None);
    assert!(plain.get_neighbors(&3).is_none());

    plain.remove_vertex(&5);
    queue.remove_vertex(&5);
    same(&plain, &queue);
    assert_eq!(queue.priority(4), Some(1));
    assert_eq!(queue.priority(6), Some(1));
    assert_eq!(queue.priority(5), None);

    let copy = queue.duplicate();
    same(&copy, &queue);

    while let Some(least) = queue.min_degree() {
        let removed = queue.remove_min().unwrap();
        assert_eq!(least.0, removed);
        plain.remove_vertex(&removed);
        same(&plain, &queue);
    }
    assert!(queue.is_empty());
    assert_eq!(queue.remove_min(), None);
    assert_eq!(plain.remove_min(), None);
    assert!(!copy.is_empty());
}

#[test]
fn directed_edges_go_one_way() {
    let mut graph = Graph::new(HashMap::new());
    graph.add_edge(Edge::init_directed(1, 2));
    assert!(graph.has_edge(&Edge::init(1, 2)));
    assert!(!graph.has_edge(&Edge::init(2, 1)));
    assert_eq!(graph.vertices(), vec![1]);
    let mut queue = GraphWithRecaller::from(graph);
    assert_eq!(queue.priority(1), Some(1));
    assert_eq!(queue.priority(2), None);
    queue.add_edge(Edge::init_directed(2, 1));
    assert_eq!(queue.priority(2), Some(1));
}

#[test]
fn induced_part_keeps_the_edges_among_its_vertices() {
    let graph: Graph = both(&[(0, 1), (1, 2), (2, 3), (3, 0), (0, 2)]);
    let keep: HashSet<u32> = [0, 1, 2, 9].into_iter().collect();
    let part = graph.induce(&keep);
    let expected: Graph = both(&[(0, 1), (1, 2), (0, 2)]);
    assert_eq!(part.adj_list(), expected.adj_list());
}

#[test]
fn triangle_takes_three_colors() {
    let graph: GraphWithRecaller = both(&[(0, 1), (1, 2), (0, 2)]);
    let coloring = graph.color_degeneracy();
    let colors: HashSet<usize> = coloring.values().copied().collect();
    assert_eq!(colors, [0, 1, 2].into_iter().collect());
    assert!(graph.is_proper(&coloring));
    assert!(graph.is_partial(&coloring));
    let (_, degeneracy) = color_smallest_last(&graph);
    assert_eq!(degeneracy, 2);
}

#[test]
fn trees_take_two_colors_and_rings_three_at_most() {
    let tree: Graph = both(&[(0, 1), (0, 2), (1, 3), (1, 4), (2, 5), (5, 6)]);
    let (coloring, degeneracy) = color_smallest_last(&tree);
    assert_eq!(degeneracy, 1);
    assert!(coloring.values().all(|c| *c <= 1));
    assert!(tree.is_proper(&coloring));

    let ring: GraphWithRecaller = both(&[(0, 1), (1, 2), (2, 3), (3, 4), (4, 0)]);
    let (coloring, degeneracy) = color_smallest_last(&ring);
    assert_eq!(degeneracy, 2);
    assert!(coloring.values().all(|c| *c <= 2));
    assert!(ring.is_proper(&coloring));
}

#[test]
fn ordering_takes_each_vertex_once() {
    let graph: GraphWithRecaller = both(&[(0, 1), (1, 2), (2, 3), (3, 0), (0, 2), (4, 0)]);
    let (ordering, degeneracy) = degeneracy_ordering(&graph);
    let mut sorted = ordering.clone();
    sorted.sort();
    assert_eq!(sorted, vec![0, 1, 2, 3, 4]);
    assert_eq!(ordering[0], 4);
    assert_eq!(degeneracy, 2);
}

#[test]
fn complete_graph_takes_a_color_for_each_vertex() {
    let mut edges = vec![];
    for u in 0..9 {
        for v in (u + 1)..9 {
            edges.push((u, v));
        }
    }
    let graph: GraphWithRecaller = both(&edges);
    let coloring = graph.color_degeneracy();
    let colors: HashSet<usize> = coloring.values().copied().collect();
    assert_eq!(colors.len(), 9);
    assert!(graph.is_proper(&coloring));
}

#[test]
fn improper_colorings_are_told() {
    let graph: Graph = both(&[(0, 1), (1, 2)]);
    let good: HashMap<u32, usize> = [(0, 0), (1, 1), (2, 0)].into_iter().collect();
    let bad: HashMap<u32, usize> = [(0, 0), (1, 1), (2, 1)].into_iter().collect();
    let part: HashMap<u32, usize> = [(0, 4), (2, 4)].into_iter().collect();
    assert!(graph.is_proper(&good));
    assert!(!graph.is_proper(&bad));
    assert!(graph.is_partial(&part));
    assert!(!graph.is_partial(&bad));
}

#[test]
fn color_graph() {
    let mut rng = rand::thread_rng();
    let edges: Vec<(u32, u32)> = (0..100u32)
        .flat_map(|a| (0..100u32).map(move |b| (a, b)))
        .filter(|(a, b)| a != b)
        .choose_multiple(&mut rng, 300);
    let graph: GraphWithRecaller = both(&edges);

    let coloring = graph.color_degeneracy();

    assert!(graph.is_proper(&coloring))
}

#[test]
fn greedy_gives_every_vertex_a_small_color() {
    let graph: GraphWithRecaller = both(&[(0, 1), (1, 2), (2, 0), (2, 3), (3, 4)]);
    let coloring = graph.greedy(None);
    assert_eq!(coloring.len(), 5);
    assert!(coloring.values().all(|c| *c < 5));
    assert!(graph.is_proper(&coloring));
    let colors: HashSet<usize> = coloring.values().copied().collect();
    assert!(colors.len() >= 3 && colors.len() <= 4);
}

#[test]
fn greedy_takes_colors_from_the_lists() {
    let graph: Graph = both(&[(0, 1), (1, 2), (2, 0), (2, 3)]);
    let lists: HashMap<u32, HashSet<u32>> = [
        (0, [7].into_iter().collect()),
        (1, [8].into_iter().collect()),
        (2, [7, 8].into_iter().collect()),
        (3, [7, 9].into_iter().collect()),
    ]
    .into_iter()
    .collect();
    for _ in 0..20 {
        let coloring = graph.greedy(Some(lists.clone()));
        assert!(graph.is_partial(&coloring));
        for v in 0..4u32 {
            match coloring.get(&v) {
                Some(color) => assert!(lists[&v].contains(&(*color as u32))),
                None => {
                    for color in &lists[&v] {
                        assert!(graph
                            .get_neighbors(&v)
                            .unwrap()
                            .iter()
                            .any(|w| coloring.get(w) == Some(&(*color as usize))));
                    }
                }
            }
        }
        assert_eq!(coloring.len(), 3);
    }
    let none = graph.greedy(Some(HashMap::new()));
    assert!(none.is_empty());
}

#[test]
fn edges_leave_the_graph_one_by_one() {
    let mut graph: Graph = both(&[(0, 1), (1, 2), (2, 0), (5, 6)]);
    let mut taken = vec![];
    while let Some(edge) = graph.next() {
        let (u, v) = edge.vertices_ord();
        taken.push((*u, *v));
    }
    taken.sort();
    assert_eq!(taken, vec![(0, 1), (0, 2), (1, 2), (5, 6)]);
    assert!(graph.is_empty());
    let mut lonely = Graph::new([(4, HashSet::new())].into_iter().collect());
    assert!(lonely.next().is_none());
}

#[test]
fn color_random() {
    let mut rng = rand::thread_rng();
    let mut edges: Vec<(u32, u32)> = vec![];
    for u in 0..100u32 {
        for v in (u + 1)..100u32 {
            if u % 20 != v % 20 && rng.gen_bool(0.9) {
                edges.push((u, v));
            }
        }
    }
    let graph: Graph = both(&edges);

    let coloring = graph.randomized(usize::MAX).unwrap();

    assert!(graph.is_proper(&coloring))
}

#[test]
fn coloring_by_chance_stays_within_the_largest_degree() {
    let graph: Graph = both(&[(0, 1), (1, 2), (2, 0), (2, 3), (3, 4)]);
    for _ in 0..20 {
        let coloring = graph.randomized(100_000).unwrap();
        assert_eq!(coloring.len(), 5);
        assert!(coloring.values().all(|c| *c <= 3));
        assert!(graph.is_proper(&coloring));
    }
}

#[test]
fn coloring_by_chance_gives_up_where_no_coloring_is_proper() {
    // a vertex that is its own neighbor has a neighbor of its own color
    let mut lists = HashMap::new();
    lists.insert(0, [0].into_iter().collect::<HashSet<u32>>());
    let graph = Graph::new(lists);
    assert_eq!(graph.randomized(1000), None);
    // without a draw the first colors are checked and nothing else
    let single: Graph = both(&[(0, 1)]);
    if let Some(coloring) = single.randomized(0) {
        assert!(single.is_proper(&coloring));
    }
}

#[test]
fn coloring_by_chance_of_an_empty_graph_is_empty() {
    let graph = Graph::new(HashMap::new());
    assert_eq!(graph.randomized(10), Some(HashMap::new()));
}

#[test]
fn next_takes_an_edge_while_every_vertex_has_a_neighbor() {
    let mut graph: GraphWithRecaller = both(&[(0, 1), (1, 2), (2, 0)]);
    let edge = graph.next().unwrap();
    let (u, v) = edge.vertices();
    assert!(*u < 3 && *v < 3 && u != v);
    assert!(!graph.has_edge(&edge));
    assert_eq!(graph.priority(*u), Some(1));
    assert_eq!(graph.priority(*v), Some(1));
    let mut empty = GraphWithRecaller::new(HashMap::new());
    assert_eq!(empty.next(), None);
}

#[test]
fn coloring_by_chance_is_owed_where_no_edge_joins_two_vertices() {
    let mut lists = HashMap::new();
    lists.insert(0, HashSet::new());
    lists.insert(1, HashSet::new());
    let graph = Graph::new(lists);
    let coloring = graph.randomized(0).unwrap();
    assert_eq!(coloring.len(), 2);
    assert!(coloring.values().all(|c| *c == 0));
}
