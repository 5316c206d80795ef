use typstuml::layout::elk::alg::graph::{LEdgeId, LGraphArena, LPortId};
use typstuml::layout::elk::alg::high_degree::{degree, edges_of, has_single_connection, is_high_degree_node, other, Dir};

fn connect(arena: &mut LGraphArena, from: LPortId, to: LPortId) -> LEdgeId {
    let e = arena.new_edge();
    arena.edge_set_source(e, Some(from));
    arena.edge_set_target(e, Some(to));
    e
}

#[test]
fn degree_counts_every_edge_end_at_the_ports() {
    let mut arena = LGraphArena::default();
    let g = arena.new_graph();
    let a = arena.new_node(g);
    let b = arena.new_node(g);
    let pa = arena.new_port(a);
    let pb = arena.new_port(b);
    let pb2 = arena.new_port(b);
    connect(&mut arena, pa, pb);
    connect(&mut arena, pa, pb2);
    connect(&mut arena, pb, pa);
    assert_eq!(degree(&arena, b), 3);
    assert!(is_high_degree_node(&arena, b, 3));
    assert!(!is_high_degree_node(&arena, b, 4));
    assert_eq!(edges_of(&arena, b, Dir::Incoming).len(), 2);
    assert_eq!(edges_of(&arena, b, Dir::Outgoing).len(), 1);
}

#[test]
fn other_gives_the_far_end() {
    let mut arena = LGraphArena::default();
    let g = arena.new_graph();
    let a = arena.new_node(g);
    let b = arena.new_node(g);
    let pa = arena.new_port(a);
    let pb = arena.new_port(b);
    let e = connect(&mut arena, pa, pb);
    assert_eq!(other(&arena, e, a), b);
    assert_eq!(other(&arena, e, b), a);
}

#[test]
fn single_connection_means_one_neighbour() {
    let mut arena = LGraphArena::default();
    let g = arena.new_graph();
    let a = arena.new_node(g);
    let b = arena.new_node(g);
    let c = arena.new_node(g);
    let pa = arena.new_port(a);
    let pb = arena.new_port(b);
    let pc = arena.new_port(c);
    connect(&mut arena, pa, pb);
    connect(&mut arena, pa, pb);
    assert!(has_single_connection(&arena, b, Dir::Incoming));
    assert!(has_single_connection(&arena, b, Dir::Outgoing));
    connect(&mut arena, pc, pb);
    assert!(!has_single_connection(&arena, b, Dir::Incoming));
}
