use g_raph::error::ParameterError;
use g_raph::graph::edge::Edge;
use g_raph::graph::static_a::coloring::Colorer;
use g_raph::graph::streaming::coloring::bcg::{
    count_colors, fewest_colors, recolor, ColoringEngine, StreamColoring,
};
use rand::Rng;
use g_raph::graph::{GraphWithRecaller, Graphed};
use g_raph::random_graph::uniform::UniformGraphDistribution;
use std::collections::HashMap;

fn small_stream() -> Vec<(u32, u32, bool)> {
    vec![
        (1, 3, true),
        (3, 2, true),
        (2, 4, true),
        (2, 5, true),
        (1, 3, false),
        (1, 3, true),
        (3, 2, false),
        (4, 5, true),
    ]
}

fn proper(coloring: &[(u64, u64)], edges: &[(u32, u32)]) -> bool {
    edges
        .iter()
        .all(|(u, v)| coloring[*u as usize] != coloring[*v as usize])
}

#[test]
fn stanford_fake_test() {
    let n = 10_f32;
    let edges: Vec<Edge<u32, ()>> = [(1, 3), (2, 4), (2, 5), (4, 5)]
        .into_iter()
        .map(|(u, v)| Edge::init(u, v))
        .collect();

    let mut colorers: Vec<_> = (0..(n.log2().floor() as u32))
        .into_iter()
        .map(|i| {
            let k = 2_u32.pow(i) as u64;
            StreamColoring::init(n as u32, k, 499, 1, 100).unwrap()
        })
        .collect();

    let mut whole_graph = GraphWithRecaller::new(Default::default());

    for edge in edges {
        for colorer in &mut colorers {
            colorer.feed(edge, true).unwrap()
        }
        whole_graph.add_edge(edge);
    }

    let mut min_color = usize::MAX;
    for colorer in colorers.into_iter() {
        if let Some(coloring) = colorer.query() {
            let count = count_colors(&coloring);
            if count < min_color {
                min_color = count;
            }
        }
    }

    let actual = count_colors(
        &whole_graph
            .color_degeneracy()
            .values()
            .map(|c| (0, *c as u64))
            .collect(),
    );

    let res = (actual, min_color);

    println!("{:?}", res)
}

#[test]
fn small_stream_is_colored_properly() {
    let mut engine = ColoringEngine::init(10, 499, 1, 100).unwrap();
    for (u, v, ins) in small_stream() {
        engine.feed(Edge::init(u, v), ins).unwrap();
    }
    let coloring = engine.query().unwrap();
    assert_eq!(coloring.len(), 10);
    assert!(proper(&coloring, &[(1, 3), (2, 4), (2, 5), (4, 5)]));
    assert!(count_colors(&coloring) <= 3);
}

#[test]
fn each_sketch_colors_the_small_stream_properly() {
    for k in [1u64, 2, 4, 8] {
        for s in [1u64, 5, 40, 499] {
            let mut sketch = StreamColoring::init(10, k, s, 1, 100).unwrap();
            assert_eq!(sketch.vertex_count(), 10);
            assert_eq!(sketch.palette_size(), (20 * k + s - 1) / s);
            for (u, v, ins) in small_stream() {
                sketch.feed(Edge::init(u, v), ins).unwrap();
            }
            if let Some(coloring) = sketch.query() {
                assert_eq!(coloring.len(), 10);
                assert!(proper(&coloring, &[(1, 3), (2, 4), (2, 5), (4, 5)]));
            }
        }
    }
}

#[test]
fn one_palette_color_recovers_every_edge() {
    let mut sketch = StreamColoring::init(10, 1, 499, 1, 100).unwrap();
    assert_eq!(sketch.palette_size(), 1);
    for (u, v, ins) in small_stream() {
        sketch.feed(Edge::init(u, v), ins).unwrap();
    }
    assert_eq!(sketch.tokens_fed(), 8);
    let coloring = sketch.query().unwrap();
    assert!(proper(&coloring, &[(1, 3), (2, 4), (2, 5), (4, 5)]));
    assert_eq!(count_colors(&coloring), 3);
    for color in &coloring {
        assert!(*color == (0, 0) || (color.0 == 1 && color.1 > 0));
    }
}

#[test]
fn empty_stream_gives_no_coloring() {
    let sketch = StreamColoring::init(10, 1, 499, 1, 100).unwrap();
    assert_eq!(sketch.query(), None);
    let engine = ColoringEngine::init(10, 499, 1, 100).unwrap();
    assert_eq!(engine.query(), None);
}

#[test]
fn too_many_edges_give_no_coloring() {
    let mut sketch = StreamColoring::init(10, 1, 3, 1, 100).unwrap();
    assert_eq!(sketch.palette_size(), 7);
    let mut engine = ColoringEngine::init(10, 3, 1, 100).unwrap();
    for u in 0..10 {
        for v in (u + 1)..10 {
            engine.feed(Edge::init(u, v), true).unwrap();
            sketch.feed(Edge::init(v, u), true).unwrap();
        }
    }
    if let Some(coloring) = sketch.query() {
        assert_eq!(coloring.len(), 10);
    }
    if let Some(coloring) = engine.query() {
        assert_eq!(coloring.len(), 10);
    }
    let mut full = StreamColoring::init(10, 1, 3, 1, 100).unwrap();
    assert!(full.new_k(10, 1).is_none());
    let mut one = full.new_k(10, 2).unwrap();
    assert_eq!(one.palette_size(), 14);
    assert_eq!(one.tokens_fed(), 0);
    one.feed(Edge::init(0, 1), true).unwrap();
    full.feed(Edge::init(0, 1), true).unwrap();
}

#[test]
fn recovered_edges_are_colored_again() {
    // The vertices 0 to 3 drew the color 0, and 4 and 5 the color 1.
    let colors = vec![(0, 0), (0, 0), (0, 0), (0, 0), (0, 1), (0, 1)];
    // The edges 0-1, 1-2 and 0-2, the edge 4-5, and the edge 3-4 between the classes.
    let recovered: HashMap<u64, i64> = [(0, 1), (2, 1), (1, 1), (14, 1), (9, 1)]
        .into_iter()
        .collect();
    let out = recolor(colors.clone(), &recovered);
    assert_eq!(out.len(), 6);
    assert!(proper(&out, &[(0, 1), (1, 2), (0, 2), (4, 5), (3, 4)]));
    assert_eq!(out[3], (0, 0));
    let mut triangle = vec![out[0], out[1], out[2]];
    triangle.sort();
    assert_eq!(triangle, vec![(0, 0), (1, 1), (1, 2)]);
    let mut pair = vec![out[4], out[5]];
    pair.sort();
    assert_eq!(pair, vec![(0, 1), (2, 1)]);
    assert_eq!(count_colors(&out), 5);

    let none = recolor(colors.clone(), &HashMap::new());
    assert_eq!(none, colors);
    let far: HashMap<u64, i64> = [(15, 1), (u64::MAX, 1)].into_iter().collect();
    assert_eq!(recolor(colors.clone(), &far), colors);
}

#[test]
fn colors_are_counted_once() {
    assert_eq!(count_colors(&vec![]), 0);
    assert_eq!(count_colors(&vec![(0, 1)]), 1);
    assert_eq!(count_colors(&vec![(0, 1), (1, 0), (0, 1), (1, 1), (1, 0)]), 3);
}

#[test]
fn malformed_edges_are_refused() {
    let mut sketch = StreamColoring::init(10, 1, 499, 1, 100).unwrap();
    assert_eq!(
        sketch.feed(Edge::init(3, 3), true),
        Err(ParameterError::MalformedEdge)
    );
    assert_eq!(
        sketch.feed(Edge::init(3, 10), true),
        Err(ParameterError::MalformedEdge)
    );
    assert_eq!(
        sketch.feed(Edge::init(11, 2), false),
        Err(ParameterError::MalformedEdge)
    );
    assert_eq!(sketch.tokens_fed(), 0);
    let mut engine = ColoringEngine::init(10, 499, 1, 100).unwrap();
    assert_eq!(
        engine.feed(Edge::init(10, 0), true),
        Err(ParameterError::MalformedEdge)
    );
    assert_eq!(engine.feed(Edge::init(9, 0), true), Ok(()));
}

#[test]
fn parameters_of_a_sketch_are_checked() {
    assert!(matches!(
        StreamColoring::init(0, 1, 5, 1, 100),
        Err(ParameterError::EmptyDomain)
    ));
    assert!(matches!(
        StreamColoring::init(1, 1, 5, 1, 100),
        Err(ParameterError::EmptyDomain)
    ));
    assert!(matches!(
        StreamColoring::init(10, 0, 5, 1, 100),
        Err(ParameterError::ZeroDegeneracy)
    ));
    assert!(matches!(
        StreamColoring::init(10, 1, 0, 1, 100),
        Err(ParameterError::ZeroSparsity)
    ));
    assert!(matches!(
        StreamColoring::init(10, 1, 5, 1, 1),
        Err(ParameterError::FailureProbability)
    ));
    assert!(matches!(
        StreamColoring::init(10, 1, 5, 0, 1),
        Err(ParameterError::FailureProbability)
    ));
    assert!(matches!(
        StreamColoring::init(2049, 1, 5, 1, 100),
        Err(ParameterError::DomainTooLarge)
    ));
    assert!(matches!(
        StreamColoring::init(10, u64::MAX, 5, 1, 100),
        Err(ParameterError::DegeneracyTooLarge)
    ));
    assert!(matches!(
        ColoringEngine::init(1, 5, 1, 100),
        Err(ParameterError::EmptyDomain)
    ));
    assert!(StreamColoring::init(2048, 1, 5, 1, 100).is_ok());
}

#[test]
fn engine_has_a_sketch_for_each_palette_size() {
    let engine = ColoringEngine::init(10, 499, 1, 100).unwrap();
    assert_eq!(engine.len(), 1);
    let engine = ColoringEngine::init(10, 5, 1, 100).unwrap();
    assert_eq!(engine.len(), 3);
    let engine = ColoringEngine::init(2, 5, 1, 100).unwrap();
    assert_eq!(engine.len(), 1);
}

#[test]
fn distributions_are_built_step_by_step() {
    let plain = UniformGraphDistribution::init(10, 30);
    assert_eq!(
        (plain.nodes, plain.edges, plain.noise, plain.copies),
        (10, 30, 0, 1)
    );
    let noisy = plain.with_noise(20);
    assert_eq!(
        (noisy.nodes, noisy.edges, noisy.noise, noisy.copies),
        (10, 30, 20, 1)
    );
    let copied = noisy.with_copies(10);
    assert_eq!(
        (copied.nodes, copied.edges, copied.noise, copied.copies),
        (10, 30, 20, 10)
    );
}

#[test]
fn coloring_with_the_fewest_colors_is_picked() {
    let three = vec![(0, 0), (1, 1), (1, 2)];
    let two = vec![(0, 0), (1, 1), (0, 0)];
    let other_two = vec![(0, 5), (0, 6), (0, 5)];
    assert_eq!(fewest_colors(vec![]), None);
    assert_eq!(fewest_colors(vec![None, None]), None);
    assert_eq!(
        fewest_colors(vec![None, Some(three.clone()), None]),
        Some(three.clone())
    );
    assert_eq!(
        fewest_colors(vec![
            Some(three.clone()),
            None,
            Some(two.clone()),
            Some(other_two.clone())
        ]),
        Some(two.clone())
    );
    assert_eq!(
        fewest_colors(vec![Some(other_two.clone()), Some(two), Some(three)]),
        Some(other_two)
    );
}

#[test]
fn dense_random_graph_takes_as_many_colors_in_the_stream() {
    let n = 40u32;
    let mut rng = rand::thread_rng();
    let mut edges = vec![];
    for u in 0..n {
        for v in (u + 1)..n {
            if rng.gen_bool(0.9) {
                edges.push((u, v));
            }
        }
    }
    let s = (15.0 * n as f64 * (n as f64).log2()).ceil() as u64;
    let mut engine = ColoringEngine::init(n, s, 1, 100).unwrap();
    let mut whole_graph = GraphWithRecaller::new(Default::default());
    for (u, v) in &edges {
        engine.feed(Edge::init(*u, *v), true).unwrap();
        whole_graph.add_edge(Edge::init(*u, *v));
    }
    let actual = count_colors(
        &whole_graph
            .color_degeneracy()
            .values()
            .map(|c| (0, *c as u64))
            .collect(),
    );
    // A cell of the recovery may take two edges for one, with a small
    // chance, and the sketch then gives no coloring.
    if let Some(coloring) = engine.query() {
        assert!(proper(&coloring, &edges));
        let min_color = count_colors(&coloring);
        assert!((actual as isize - min_color as isize).abs() <= 2 || actual <= min_color);
    }
}
