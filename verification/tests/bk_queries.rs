use typstuml::layout::elk::alg::graph::{LEdgeId, LGraphArena, LPortId, NodeType};
use typstuml::layout::elk::alg::p4nodes::bk::{get_edge, incident_to_inner_segment, is_in_layer_edge};

fn connect(arena: &mut LGraphArena, from: LPortId, to: LPortId) -> LEdgeId {
    let e = arena.new_edge();
    arena.edge_set_source(e, Some(from));
    arena.edge_set_target(e, Some(to));
    e
}

#[test]
fn in_layer_edges_join_nodes_of_one_layer() {
    let mut arena = LGraphArena::default();
    let g = arena.new_graph();
    arena.insert_layer(g, 0);
    arena.insert_layer(g, 1);
    let a = arena.new_node(g);
    let b = arena.new_node(g);
    let c = arena.new_node(g);
    arena.node_set_layer(g, a, Some(0));
    arena.node_set_layer(g, b, Some(0));
    arena.node_set_layer(g, c, Some(1));
    let pa = arena.new_port(a);
    let pb = arena.new_port(b);
    let pc = arena.new_port(c);
    let same = connect(&mut arena, pa, pb);
    let across = connect(&mut arena, pa, pc);
    assert!(is_in_layer_edge(&arena, same));
    assert!(!is_in_layer_edge(&arena, across));
}

#[test]
fn inner_segments_run_between_long_edge_dummies() {
    let mut arena = LGraphArena::default();
    let g = arena.new_graph();
    arena.insert_layer(g, 0);
    arena.insert_layer(g, 1);
    let d0 = arena.new_node(g);
    let d1 = arena.new_node(g);
    let n = arena.new_node(g);
    arena.node_set_layer(g, d0, Some(0));
    arena.node_set_layer(g, d1, Some(1));
    arena.node_set_layer(g, n, Some(1));
    arena.nodes[d0.0].node_type = NodeType::LongEdge;
    arena.nodes[d1.0].node_type = NodeType::LongEdge;
    let p0 = arena.new_port(d0);
    let p1 = arena.new_port(d1);
    let pn = arena.new_port(n);
    connect(&mut arena, p0, p1);
    connect(&mut arena, p0, pn);
    assert!(incident_to_inner_segment(&arena, d1, 1, 0));
    assert!(!incident_to_inner_segment(&arena, d1, 1, 5));
    assert!(!incident_to_inner_segment(&arena, d1, 0, 0));
    assert!(!incident_to_inner_segment(&arena, n, 1, 0));
}

#[test]
fn get_edge_finds_the_first_edge_to_a_neighbour() {
    let mut arena = LGraphArena::default();
    let g = arena.new_graph();
    let a = arena.new_node(g);
    let b = arena.new_node(g);
    let c = arena.new_node(g);
    let x = arena.new_node(g);
    let pa = arena.new_port(a);
    let pb = arena.new_port(b);
    let pc = arena.new_port(c);
    let ab = connect(&mut arena, pa, pb);
    let ca = connect(&mut arena, pc, pa);
    let ab2 = connect(&mut arena, pa, pb);
    assert_eq!(get_edge(&arena, a, b), Some(ab));
    assert_eq!(get_edge(&arena, a, c), Some(ca));
    assert_eq!(get_edge(&arena, a, x), None);
    assert_ne!(get_edge(&arena, a, b), Some(ab2));
}
