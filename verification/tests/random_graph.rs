use g_raph::graph::edge::Edge;
use g_raph::graph::{Graph, GraphWithRecaller, Graphed};
use g_raph::random_graph::uniform::{build, UniformGraphDistribution};
use std::collections::HashSet;

fn pairs_of(stream: &[(Edge<u32, ()>, bool)]) -> Vec<(u32, u32, bool)> {
    stream
        .iter()
        .map(|(edge, kept)| {
            let (u, v) = edge.vertices();
            (*u, *v, *kept)
        })
        .collect()
}

#[test]
fn sample_simple() {
    let dist = UniformGraphDistribution::init(10, 30);

    let stream: Vec<_> = dist.sample();

    assert_eq!(stream.len(), 30)
}

#[test]
fn sample_with_noise() {
    let dist = UniformGraphDistribution::init(10, 30).with_noise(20);

    let stream: Vec<_> = dist.sample();

    assert_eq!(stream.len(), 70)
}

#[test]
fn sample_with_copies() {
    let dist = UniformGraphDistribution::init(10, 30).with_copies(10);

    let stream: Vec<_> = dist.sample();

    assert!(stream.len() >= 30);
    assert!(stream.len() <= 300);
}

#[test]
fn sample_with_noise_andcopies() {
    let dist = UniformGraphDistribution::init(10, 30)
        .with_copies(10)
        .with_noise(20);

    let stream: Vec<_> = dist.sample();

    assert!(stream.len() >= 70);
    assert!(stream.len() <= 300);
}

#[test]
fn sample_holds_different_pairs_of_different_nodes() {
    let dist = UniformGraphDistribution::init(10, 30);
    let stream = pairs_of(&dist.sample());
    let distinct: HashSet<(u32, u32)> = stream.iter().map(|t| (t.0, t.1)).collect();
    assert_eq!(distinct.len(), 30);
    for (u, v, kept) in stream {
        assert!(u < 10 && v < 10 && u != v);
        assert!(kept);
    }
}

#[test]
fn sample_takes_every_pair_where_more_are_asked_for() {
    let dist = UniformGraphDistribution::init(4, 100);
    assert_eq!(dist.pairs(), 12);
    let stream = pairs_of(&dist.sample());
    let distinct: HashSet<(u32, u32)> = stream.iter().map(|t| (t.0, t.1)).collect();
    assert_eq!(stream.len(), 12);
    assert_eq!(distinct.len(), 12);
    assert_eq!(UniformGraphDistribution::init(0, 5).sample().len(), 0);
    assert_eq!(UniformGraphDistribution::init(1, 5).sample().len(), 0);
}

#[test]
fn sampled_noise_is_put_in_and_taken_out() {
    let dist = UniformGraphDistribution::init(10, 0).with_noise(5);
    let stream = pairs_of(&dist.sample());
    assert_eq!(stream.len(), 10);
    for pair in stream.chunks(2) {
        assert_eq!((pair[0].0, pair[0].1), (pair[1].0, pair[1].1));
        assert!(pair[0].2 && !pair[1].2);
        assert!(pair[0].0 <= pair[0].1 && pair[0].1 < 10);
    }
    let graph: Graph = dist.sample_graph();
    assert!(graph.adj_list().values().all(|neighbors| neighbors.is_empty()) || graph.is_empty());
}

#[test]
fn pairs_are_counted_by_their_first_node() {
    let dist = UniformGraphDistribution::init(4, 0);
    let all: Vec<(u32, u32)> = (0..12).map(|index| dist.pair(index)).collect();
    assert_eq!(
        all,
        vec![
            (0, 1),
            (0, 2),
            (0, 3),
            (1, 0),
            (1, 2),
            (1, 3),
            (2, 0),
            (2, 1),
            (2, 3),
            (3, 0),
            (3, 1),
            (3, 2)
        ]
    );
}

#[test]
fn stream_of_given_picks() {
    let dist = UniformGraphDistribution::init(4, 2);
    let stream = dist.stream(&vec![0, 11], &vec![2, 1], &vec![(1, 3)]);
    assert_eq!(
        pairs_of(&stream),
        vec![
            (0, 1, true),
            (0, 1, true),
            (3, 2, true),
            (1, 3, true),
            (1, 3, false)
        ]
    );
    assert!(stream.iter().all(|(edge, _)| !edge.directed()));
}

#[test]
fn stream_builds_its_graph() {
    let stream = vec![
        (Edge::init(0, 1), true),
        (Edge::init(1, 2), true),
        (Edge::init(2, 3), true),
        (Edge::init(1, 2), false),
    ];
    let graph: Graph = build(&stream);
    let mut vertices = graph.vertices();
    vertices.sort();
    assert_eq!(vertices, vec![0, 1, 2, 3]);
    assert!(graph.has_edge(&Edge::init(0, 1)));
    assert!(graph.has_edge(&Edge::init(3, 2)));
    assert!(!graph.has_edge(&Edge::init(1, 2)));
    let recaller: GraphWithRecaller = build(&stream);
    assert_eq!(recaller.adj_list(), graph.adj_list());
}
