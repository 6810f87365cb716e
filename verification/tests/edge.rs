use g_raph::graph::edge::{Edge, EdgeDestination};

#[test]
fn from_d1() {
    let edge = Edge::<u32, ()>::init(4, 5);

    let d1 = edge.to_d1();

    assert_eq!(d1, 14);

    let edge = Edge::<u32, ()>::from_d1(14);

    assert_eq!(edge.vertices_ord(), (&4, &5));
}

#[test]
fn numbers_and_edges_go_back_and_forth() {
    for d in 0..100u64 {
        let edge = Edge::<u32, ()>::from_d1(d);
        let (u, v) = edge.vertices();
        assert!(u < v);
        assert_eq!(edge.to_d1(), d);
    }
}

#[test]
fn numbers_stay_in_the_range_of_the_vertices() {
    let n: u32 = 40;
    let edges = (n as u64) * (n as u64 - 1) / 2;
    for d in 0..edges {
        let edge = Edge::<u32, ()>::from_d1(d);
        let (u, v) = edge.vertices();
        assert!(*u < *v && *v < n);
    }
}

#[test]
fn first_numbers_are_the_first_pairs() {
    let pairs = [(0u32, 1u32), (0, 2), (1, 2), (0, 3), (1, 3), (2, 3), (0, 4)];
    for (d, (u, v)) in pairs.iter().enumerate() {
        let edge = Edge::<u32, ()>::from_d1(d as u64);
        assert_eq!(edge.vertices(), (u, v));
        assert_eq!(Edge::<u32, ()>::init(*v, *u).to_d1(), d as u64);
    }
}

#[test]
fn largest_number_is_the_last_pair() {
    let last = 0x7FFF_FFFF_7FFF_FFFFu64;
    let edge = Edge::<u32, ()>::from_d1(last);
    assert_eq!(edge.vertices(), (&0xFFFF_FFFE, &0xFFFF_FFFF));
    assert_eq!(edge.to_d1(), last);
}

#[test]
fn edge_of_vertex_zero_twice_has_number_zero() {
    assert_eq!(Edge::<u32, ()>::init(0, 0).to_d1(), 0);
}

#[test]
fn edges_know_their_vertices() {
    let mut edge = Edge::<u32, u8>::init(3, 7);
    assert!(edge.is_incident(&3));
    assert!(edge.is_incident(&7));
    assert!(!edge.is_incident(&5));
    assert!(!edge.directed());
    edge.update_label(9);
    let back = edge.reverse();
    assert_eq!(back.vertices(), (&7, &3));
    assert!(Edge::<u32, ()>::init_directed(1, 2).directed());
}

#[test]
fn destinations_hold_what_they_are_given() {
    let with = EdgeDestination::<u32, u8>::init_with_label(4, 2);
    assert_eq!(with.destination, 4);
    assert_eq!(with.label, 2);
    let plain = EdgeDestination::<u32, u8>::init(6);
    assert_eq!(plain.destination, 6);
    assert_eq!(plain.label, 0);
}
