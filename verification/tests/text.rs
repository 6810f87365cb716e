use g_raph::graph::text::{
    decimal_digits, from_str, parse_graph, shown_bytes, sorted, to_bytes, to_str, GraphParseError,
};
use g_raph::graph::{Graph, GraphWithRecaller, Graphed};
use std::collections::{HashMap, HashSet};

fn lists(graph: &Graph) -> Vec<(u32, Vec<u32>)> {
    let mut lists: Vec<(u32, Vec<u32>)> = graph
        .adj_list()
        .iter()
        .map(|(v, n)| {
            let mut n: Vec<u32> = n.iter().copied().collect();
            n.sort();
            (*v, n)
        })
        .collect();
    lists.sort();
    lists
}

#[test]
fn graph_to_iter() {
    let graph: Graph = r"0: 1
        1: 0,2
        2: 1,5
        5: 2
        3: 4
        4: 3"
        .parse()
        .unwrap();
    assert_eq!(
        lists(&graph),
        vec![
            (0, vec![1]),
            (1, vec![0, 2]),
            (2, vec![1, 5]),
            (3, vec![4]),
            (4, vec![3]),
            (5, vec![2]),
        ]
    );
}

#[test]
fn lines_add_to_the_lines_before_them() {
    let graph: Graph = from_str("2: 1,0\n5: 4\n2: 7,+1\r\n\t 007 :9 : ignored\n").unwrap();
    assert_eq!(
        lists(&graph),
        vec![(2, vec![0, 1, 7]), (5, vec![4]), (7, vec![9])]
    );
    let with_queue: GraphWithRecaller = "1: 2,3\n2: 1".parse().unwrap();
    assert_eq!(with_queue.min_degree(), Some((2, 1)));
    let empty: Graph = from_str("").unwrap();
    assert!(empty.is_empty());
    let bytes: Graph = parse_graph(b"4294967295:0").unwrap();
    let expected: HashMap<u32, HashSet<u32>> =
        [(u32::MAX, [0].into_iter().collect())].into_iter().collect();
    assert_eq!(bytes.adj_list(), &expected);
}

#[test]
fn texts_that_are_no_graphs_are_refused() {
    let invalid = [
        "1: 2, 3",
        "1: 2,",
        "1:",
        "1: ,2",
        "x: 2",
        ": 2",
        "-1: 2",
        "1: 4294967296",
        "1: 2\n\n2: 1",
        "1: 2\n3: +",
        "1 2: 3",
        "\n",
        "1: 99999999999999999999999999",
    ];
    for text in invalid {
        assert_eq!(
            from_str::<Graph>(text).unwrap_err(),
            GraphParseError::InvalidNumber,
            "{:?}",
            text
        );
    }
    for text in ["1", " 12 ", "1: 2\n3", "1: 2\n3\n4: x"] {
        assert_eq!(
            from_str::<Graph>(text).unwrap_err(),
            GraphParseError::MissingColon,
            "{:?}",
            text
        );
    }
    assert_eq!(
        "7".parse::<GraphWithRecaller>().unwrap_err(),
        GraphParseError::MissingColon
    );
}

fn star() -> Graph {
    let mut graph = HashMap::new();
    graph.insert(1, [2, 10, 100].into_iter().collect::<HashSet<u32>>());
    graph.insert(2, [1].into_iter().collect::<HashSet<u32>>());
    graph.insert(10, [1].into_iter().collect::<HashSet<u32>>());
    graph.insert(100, [1].into_iter().collect::<HashSet<u32>>());
    Graph::new(graph)
}

#[test]
fn decimal_digits_of_numbers() {
    assert_eq!(decimal_digits(0), b"0".to_vec());
    assert_eq!(decimal_digits(7), b"7".to_vec());
    assert_eq!(decimal_digits(10), b"10".to_vec());
    assert_eq!(decimal_digits(4_294_967_295), b"4294967295".to_vec());
}

#[test]
fn numbers_are_sorted_by_value_or_by_their_digits() {
    let numbers = vec![100, 9, 10, 2, 1];
    assert_eq!(sorted(&numbers, false), vec![1, 2, 9, 10, 100]);
    assert_eq!(sorted(&numbers, true), vec![1, 10, 100, 2, 9]);
    assert_eq!(sorted(&Vec::new(), true), Vec::<u32>::new());
}

#[test]
fn graph_is_written_by_vertex_with_neighbors_in_dictionary_order() {
    let graph = star();
    assert_eq!(to_str(&graph), "1: 10,100,2\n2: 1\n10: 1\n100: 1");
    assert_eq!(to_bytes(&graph), b"1: 10,100,2\n2: 1\n10: 1\n100: 1".to_vec());
}

#[test]
fn graph_is_shown_between_two_lines() {
    let graph = star();
    assert_eq!(
        graph.to_string(),
        "--- Graph ---\n1: 10,100,2\n2: 1\n10: 1\n100: 1\n---\n"
    );
    assert_eq!(
        shown_bytes(&graph),
        b"--- Graph ---\n1: 10,100,2\n2: 1\n10: 1\n100: 1\n---\n".to_vec()
    );
    let recaller = GraphWithRecaller::new(graph.adj_list().clone());
    assert_eq!(recaller.to_string(), graph.to_string());
}

#[test]
fn empty_graph_is_written_as_nothing() {
    let graph = Graph::new(HashMap::new());
    assert_eq!(to_str(&graph), "");
    assert_eq!(graph.to_string(), "--- Graph ---\n\n---\n");
}

#[test]
fn vertex_without_neighbors_is_written_with_its_colon() {
    let mut graph = HashMap::new();
    graph.insert(5, HashSet::new());
    assert_eq!(to_str(&Graph::new(graph)), "5: ");
}

#[test]
fn written_graph_is_read_back() {
    let graph = star();
    let read: Graph = from_str(&to_str(&graph)).unwrap();
    assert_eq!(read, graph);
}
