use g_raph::graph::static_a::connected_components::GraphError;
use g_raph::graph::edge::{Edge, EdgeDestination};
use g_raph::graph::static_a::matching::{
    maximum_matching, AugmentingPath, Bipartite, MatchingT, SideMatching,
};
use g_raph::graph::GraphWithRecaller;
use g_raph::graph::static_a::search::{explore, BackTracking, ConnectedComponents, Search, Searcher};
use g_raph::graph::{Graph, Graphed};
use std::collections::{HashMap, HashSet};

fn graph_of(lists: Vec<(u32, Vec<u32>)>) -> Graph {
    let mut graph = HashMap::new();
    for (vertex, neighbors) in lists {
        graph.insert(vertex, neighbors.into_iter().collect::<HashSet<u32>>());
    }
    Graph::new(graph)
}

fn small_graph() -> Graph {
    graph_of(vec![
        (0, vec![1]),
        (1, vec![0]),
        (2, vec![3, 4]),
        (3, vec![2, 4]),
        (4, vec![2, 3]),
    ])
}

#[test]
fn test_size() {
    let graph = small_graph();

    let connected_components = graph.connected_components().unwrap();

    assert_eq!(connected_components.as_ref().len(), 2)
}

#[test]
fn test_content() {
    let graph = small_graph();

    let connected_components = graph.connected_components().unwrap();

    let mut components = connected_components.as_ref().iter();
    let component1 = components.next().unwrap();
    let component2 = components.next().unwrap();

    let expected1 = vec![2, 3, 4];
    let expected2 = vec![0, 1];
    let expected: Vec<HashSet<u32>> = vec![
        expected1.iter().copied().collect(),
        expected2.iter().copied().collect(),
    ];
    let expected1 = expected.get(0).unwrap();
    let expected2 = expected.get(1).unwrap();

    if component1
        .difference(&expected1)
        .into_iter()
        .next()
        .is_none()
        && component2
            .difference(&expected2)
            .into_iter()
            .next()
            .is_none()
    {
        assert!(true)
    } else if component2
        .difference(&expected1)
        .into_iter()
        .next()
        .is_none()
        && component1
            .difference(&expected2)
            .into_iter()
            .next()
            .is_none()
    {
        assert!(true)
    } else {
        assert!(false)
    }
}

#[test]
fn components_part_the_vertices() {
    let graph = graph_of(vec![
        (0, vec![1]),
        (1, vec![0, 2]),
        (2, vec![1]),
        (3, vec![]),
        (4, vec![5]),
        (5, vec![4]),
    ]);
    let components = graph.connected_components().unwrap();
    let mut found: Vec<Vec<u32>> = components
        .as_ref()
        .iter()
        .map(|c| {
            let mut c: Vec<u32> = c.iter().copied().collect();
            c.sort();
            c
        })
        .collect();
    found.sort();
    assert_eq!(found, vec![vec![0, 1, 2], vec![3], vec![4, 5]]);
}

#[test]
fn empty_graph_has_no_components() {
    let graph = Graph::new(HashMap::new());
    assert_eq!(
        graph.connected_components().unwrap_err(),
        GraphError::EmptyGraph
    );
}

#[test]
fn search_stays_out_of_what_was_visited() {
    let graph = graph_of(vec![(0, vec![1]), (1, vec![2]), (2, vec![])]);
    let mut visited: HashSet<u32> = [2].into_iter().collect();
    let component = explore(&graph, 0, &mut visited);
    assert_eq!(component, [0, 1].into_iter().collect());
    assert_eq!(visited, [0, 1, 2].into_iter().collect());
}

#[test]
fn shortest_paths_test() {
    let graph = small_graph();
    let res = graph.shorted_path_from(2);

    let shortest_paths = res.as_ref();

    assert_eq!(shortest_paths.get(&3).unwrap(), &vec![2]);
    assert_eq!(shortest_paths.get(&4).unwrap(), &vec![2]);

    let res = graph.shorted_path_from(1);

    let shortest_paths = res.as_ref();

    assert_eq!(shortest_paths.get(&0).unwrap(), &vec![1]);
    assert!(shortest_paths.get(&1).unwrap().is_empty());
}

#[test]
fn shorted_path_to() {
    let graph = graph_of(vec![
        (0, vec![1]),
        (1, vec![0]),
        (2, vec![3, 4]),
        (3, vec![2, 4]),
        (4, vec![2, 3, 5]),
        (5, vec![4]),
    ]);

    let shorted_path = graph.shorted_path_to(2, 5);

    assert_eq!(shorted_path, Some(vec![5, 4, 2]))
}

#[test]
fn no_path_to_what_is_not_reached() {
    let graph = small_graph();
    assert_eq!(graph.shorted_path_to(2, 0), None);
    assert_eq!(graph.shorted_path_to(2, 2), None);
    assert_eq!(graph.shorted_path_to(7, 2), None);
    assert_eq!(graph.shorted_path_to(0, 1), Some(vec![1, 0]));
    let paths = graph.shorted_path_from(2);
    assert_eq!(paths.as_ref().len(), 3);
    assert!(paths.as_ref().get(&0).is_none());
}

#[test]
fn paths_are_shortest_on_a_ring_with_a_chord() {
    // 0 - 1 - 2 - 3 - 4 - 5 - 0, and 0 - 3
    let graph = graph_of(vec![
        (0, vec![1, 5, 3]),
        (1, vec![0, 2]),
        (2, vec![1, 3]),
        (3, vec![2, 4, 0]),
        (4, vec![3, 5]),
        (5, vec![4, 0]),
    ]);
    let paths = graph.shorted_path_from(0);
    let steps: Vec<usize> = (0..6).map(|v| paths.as_ref().get(&v).unwrap().len()).collect();
    assert_eq!(steps, vec![0, 1, 2, 1, 2, 1]);
    assert_eq!(paths.as_ref().get(&3).unwrap(), &vec![0]);
    assert_eq!(paths.as_ref().get(&4).unwrap()[0], 0);
    let back = graph.shorted_path_to(0, 4).unwrap();
    assert_eq!(back[0], 4);
    assert_eq!(*back.last().unwrap(), 0);
    for pair in back.windows(2) {
        assert!(graph.get_neighbors(&pair[1]).unwrap().contains(&pair[0]));
    }
}

fn test_graph_not_bipartite() -> Graph {
    graph_of(vec![
        (0, vec![1]),
        (1, vec![0]),
        (2, vec![3, 4]),
        (3, vec![2, 4]),
        (4, vec![2, 3]),
    ])
}

fn test_graph_bipartite() -> Graph {
    graph_of(vec![
        (0, vec![1]),
        (1, vec![0]),
        (2, vec![3, 4]),
        (3, vec![2, 5]),
        (4, vec![2, 5]),
        (5, vec![3, 4]),
    ])
}

#[test]
fn bipartite_test() {
    assert_eq!(test_graph_not_bipartite().is_bipartite(), false);
}

#[test]
fn test_is() {
    assert_eq!(test_graph_bipartite().is_bipartite(), true)
}

#[test]
fn rings_are_bipartite_if_they_are_even() {
    for n in 3..12u32 {
        let ring = graph_of(
            (0..n)
                .map(|v| (v, vec![(v + 1) % n, (v + n - 1) % n]))
                .collect(),
        );
        assert_eq!(ring.is_bipartite(), n % 2 == 0);
    }
    assert!(!Graph::new(HashMap::new()).is_bipartite());
    assert!(graph_of(vec![(3, vec![])]).is_bipartite());
    assert!(!graph_of(vec![(3, vec![3])]).is_bipartite());
}

#[test]
fn test_graph() {
    let graph: Graph = r"2: 1,0
        5: 4
        4: 5
        1: 0
        0: 2
        3: 2"
        .parse()
        .unwrap();

    let mut backtracking = BackTracking::default();

    graph.breadth_first(&mut backtracking, vec![3]);

    let expected: Vec<u32> = vec![3, 2, 0];

    assert_eq!(expected, backtracking.shortest_path(0));
}

#[test]
fn connected_components() {
    let graph: Graph = r"0: 1
        1: 0,2
        2: 1,5
        5: 2
        3: 4
        4: 3"
        .parse()
        .unwrap();

    let mut conn = ConnectedComponents::default();

    graph.breadth_first(&mut conn, vec![0]);

    let expected_subgraph: Graph = r"4: 3
        3: 4"
        .parse()
        .unwrap();

    assert_eq!(conn.data[1], expected_subgraph);
}

#[test]
fn depth_first_gathers_the_components_too() {
    let graph: Graph = "0: 1\n1: 0,2\n2: 1\n7: 8\n8: 7".parse().unwrap();
    let mut conn = ConnectedComponents::default();
    graph.depth_first(&mut conn, &8);
    assert_eq!(conn.data.len(), 2);
    let first: Graph = "7: 8\n8: 7".parse().unwrap();
    let second: Graph = "0: 1\n1: 0,2\n2: 1".parse().unwrap();
    assert_eq!(conn.data[0], first);
    assert_eq!(conn.data[1], second);
}

#[test]
fn lighter_ways_take_the_place_of_heavier_ones() {
    let mut backtracking = BackTracking::default();
    backtracking.new_component(&0);
    backtracking.visit(&0, &EdgeDestination::init_with_label(1, 5));
    backtracking.visit(&0, &EdgeDestination::init_with_label(2, 1));
    backtracking.visit(&2, &EdgeDestination::init_with_label(1, 1));
    backtracking.visit(&1, &EdgeDestination::init_with_label(3, u32::MAX));
    backtracking.visit(&2, &EdgeDestination::init_with_label(3, u32::MAX));
    assert_eq!(backtracking.shortest_path(1), vec![0, 2, 1]);
    assert_eq!(backtracking.shortest_path(3), vec![0, 2, 1, 3]);
    assert_eq!(backtracking.shortest_path(9), vec![9]);
}

#[test]
fn search_parts_a_ring_of_six_into_its_sides() {
    let graph: Graph = "0: 1,5\n1: 0,2\n2: 1,3\n3: 2,4\n4: 3,5\n5: 4,0"
        .parse()
        .unwrap();
    let mut sides = Bipartite::default();
    sides.new_component(&0);
    graph.breadth_first(&mut sides, vec![0]);
    assert_eq!(sides.left_side(), &[0, 2, 4].into_iter().collect());
    assert_eq!(sides.right_side(), &[1, 3, 5].into_iter().collect());
}

#[test]
fn destinations_come_from_edges_and_edges_from_graphs() {
    let mut edge = Edge::<u32, u8>::init(3, 7);
    edge.update_label(4);
    let to = EdgeDestination::from(&edge);
    assert_eq!((to.destination, to.label), (7, 4));

    let mut graph: GraphWithRecaller = "1: 2\n2: 1,3\n3: 2".parse().unwrap();
    let mut taken = vec![];
    while let Some(edge) = graph.next() {
        let (u, v) = edge.vertices_ord();
        taken.push((*u, *v));
        assert_eq!(graph.min_degree().map(|m| m.1), graph.vertices().first().map(|_| 1));
    }
    taken.sort();
    assert_eq!(taken, vec![(1, 2), (2, 3)]);
}

fn path_of_eight() -> Graph {
    r"0: 3,4
        1: 3
        2: 4,7
        3: 0,1
        4: 0,2
        5: 6
        6: 5,7
        7: 2,6"
        .parse()
        .unwrap()
}

/// Checks that the edges are edges of the graph and share no vertex.
fn assert_matching(graph: &Graph, matching: &[Edge<u32, ()>]) {
    let mut met = HashSet::new();
    for edge in matching {
        let (u, v) = edge.vertices();
        assert!(graph.has_edge(edge), "{u}-{v} is no edge of the graph");
        assert!(met.insert(*u), "{u} is matched twice");
        assert!(met.insert(*v), "{v} is matched twice");
    }
}

#[test]
fn matching_test() {
    let graph = path_of_eight();
    println!("{:?}", graph);

    let matching = graph.hopkroft_karp(None);

    println!("Matching: {:?}", matching);
    assert_matching(&graph, &matching);
    assert_eq!(matching.len(), 4);
}

#[test]
fn matching_on_a_given_side_is_perfect_on_a_path() {
    let graph = path_of_eight();
    let side: HashSet<u32> = [0, 1, 2, 6].into_iter().collect();

    let matching = graph.hopkroft_karp(Some(side.clone()));

    assert_matching(&graph, &matching);
    assert_eq!(matching.len(), 4);
    for edge in &matching {
        let (u, v) = edge.vertices();
        assert!(side.contains(u));
        assert!(!side.contains(v));
    }
}

#[test]
fn matching_needs_an_augmenting_path_of_three_edges() {
    // 0 and 1 on the side; 0 sees 10 and 11, 1 sees only 10.
    let graph = graph_of(vec![
        (0, vec![10, 11]),
        (1, vec![10]),
        (10, vec![0, 1]),
        (11, vec![0]),
    ]);
    let side: HashSet<u32> = [0, 1].into_iter().collect();
    let mut left = SideMatching::new();
    let mut right = SideMatching::new();
    left.insert(0, 10);
    right.insert(10, 0);

    let paths = graph.find_augmenting_paths(&side, (&left, &right));

    assert_eq!(paths, vec![vec![(1, 10), (0, 11)]]);
    let matching = maximum_matching(&graph, &side);
    assert_matching(&graph, &matching);
    assert_eq!(matching.len(), 2);
}

#[test]
fn matching_that_is_full_has_no_augmenting_path() {
    let graph = graph_of(vec![(0, vec![10]), (1, vec![10]), (10, vec![0, 1])]);
    let side: HashSet<u32> = [0, 1].into_iter().collect();
    let mut left = SideMatching::new();
    let mut right = SideMatching::new();
    left.insert(1, 10);
    right.insert(10, 1);

    let paths = graph.find_augmenting_paths(&side, (&left, &right));

    assert!(paths.is_empty());
    assert_eq!(maximum_matching(&graph, &side).len(), 1);
}

#[test]
fn matching_of_disjoint_edges_finds_all_paths_at_once() {
    let graph = graph_of(vec![
        (0, vec![10]),
        (1, vec![11]),
        (2, vec![12]),
        (10, vec![0]),
        (11, vec![1]),
        (12, vec![2]),
    ]);
    let side: HashSet<u32> = [0, 1, 2].into_iter().collect();
    let left = SideMatching::new();
    let right = SideMatching::new();

    let mut paths = graph.find_augmenting_paths(&side, (&left, &right));
    paths.sort();

    assert_eq!(paths, vec![vec![(0, 10)], vec![(1, 11)], vec![(2, 12)]]);
}

#[test]
fn matching_of_an_empty_graph_is_empty() {
    let graph = Graph::new(HashMap::new());
    assert!(graph.hopkroft_karp(None).is_empty());
    assert!(graph.hopkroft_karp(Some(HashSet::new())).is_empty());
}

#[test]
fn matching_ignores_edges_within_a_side() {
    // a triangle: with 0 and 1 on the side only one of them can be matched
    let graph = graph_of(vec![(0, vec![1, 2]), (1, vec![0, 2]), (2, vec![0, 1])]);
    let side: HashSet<u32> = [0, 1].into_iter().collect();

    let matching = graph.hopkroft_karp(Some(side));

    assert_matching(&graph, &matching);
    assert_eq!(matching.len(), 1);
    assert_eq!(*matching[0].vertices().1, 2);
}
