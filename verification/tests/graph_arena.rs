use typstuml::layout::elk::alg::graph::{LEdgeId, LGraphArena, LGraphId, LNodeId};
use typstuml::layout::elk::alg::intermediate::swap_nodes;
use typstuml::layout::elk::alg::options::PortSide;

fn simple_edge(arena: &mut LGraphArena, g: LGraphId) -> (LNodeId, LNodeId, LEdgeId) {
    let a = arena.new_node(g);
    let b = arena.new_node(g);
    let pa = arena.new_port(a);
    let pb = arena.new_port(b);
    let e = arena.new_edge();
    arena.edge_set_source(e, Some(pa));
    arena.edge_set_target(e, Some(pb));
    (a, b, e)
}

#[test]
fn edge_reverse_swaps_endpoints_and_marks_reversed() {
    let mut arena = LGraphArena::default();
    let g = arena.new_graph();
    let (a, b, e) = simple_edge(&mut arena, g);

    assert_eq!(arena.edge_source_node(e), Some(a));
    assert_eq!(arena.edge_target_node(e), Some(b));
    assert!(!arena.edges[e.0].props.reversed);

    arena.edge_reverse(e, true);
    assert_eq!(arena.edge_source_node(e), Some(b));
    assert_eq!(arena.edge_target_node(e), Some(a));
    assert!(arena.edges[e.0].props.reversed);
    let pa = arena.nodes[a.0].ports[0];
    let pb = arena.nodes[b.0].ports[0];
    assert_eq!(arena.ports[pa.0].incoming_edges, vec![e]);
    assert!(arena.ports[pa.0].outgoing_edges.is_empty());
    assert_eq!(arena.ports[pb.0].outgoing_edges, vec![e]);
    assert!(arena.ports[pb.0].incoming_edges.is_empty());

    arena.edge_reverse(e, true);
    assert_eq!(arena.edge_source_node(e), Some(a));
    assert!(!arena.edges[e.0].props.reversed);
}

#[test]
fn self_loop_detection() {
    let mut arena = LGraphArena::default();
    let g = arena.new_graph();
    let n = arena.new_node(g);
    let p1 = arena.new_port(n);
    let p2 = arena.new_port(n);
    let e = arena.new_edge();
    arena.edge_set_source(e, Some(p1));
    arena.edge_set_target(e, Some(p2));
    assert!(arena.edge_is_self_loop(e));
}

#[test]
fn edge_between_two_nodes_is_no_self_loop() {
    let mut arena = LGraphArena::default();
    let g = arena.new_graph();
    let (_, _, e) = simple_edge(&mut arena, g);
    assert!(!arena.edge_is_self_loop(e));
    let dangling = arena.new_edge();
    assert!(!arena.edge_is_self_loop(dangling));
    assert_eq!(arena.edge_source_node(dangling), None);
}

#[test]
fn new_elements_get_consecutive_ids() {
    let mut arena = LGraphArena::default();
    let g = arena.new_graph();
    assert_eq!(g, LGraphId(0));
    let n0 = arena.new_node(g);
    let n1 = arena.new_node(g);
    assert_eq!((n0.0, n1.0), (0, 1));
    assert_eq!(arena.graphs[g.0].layerless_nodes, vec![n0, n1]);
    let p = arena.new_port(n1);
    assert_eq!(arena.ports[p.0].owner, Some(n1));
    assert_eq!(arena.nodes[n1.0].ports, vec![p]);
    let l = arena.new_label(String::from("x"));
    assert_eq!(arena.labels[l.0].text, "x");
}

#[test]
fn set_source_moves_edge_between_port_lists() {
    let mut arena = LGraphArena::default();
    let g = arena.new_graph();
    let (a, b, e) = simple_edge(&mut arena, g);
    let pa = arena.nodes[a.0].ports[0];
    let pb = arena.nodes[b.0].ports[0];
    arena.edge_set_source(e, Some(pb));
    assert!(arena.ports[pa.0].outgoing_edges.is_empty());
    assert_eq!(arena.ports[pb.0].outgoing_edges, vec![e]);
    assert!(arena.edge_is_self_loop(e));
    arena.edge_set_source(e, None);
    assert!(arena.ports[pb.0].outgoing_edges.is_empty());
    assert_eq!(arena.edge_source_node(e), None);
}

#[test]
fn set_target_at_index_inserts_in_place() {
    let mut arena = LGraphArena::default();
    let g = arena.new_graph();
    let n = arena.new_node(g);
    let t = arena.new_port(n);
    let e0 = arena.new_edge();
    let e1 = arena.new_edge();
    let e2 = arena.new_edge();
    arena.edge_set_target(e0, Some(t));
    arena.edge_set_target(e1, Some(t));
    arena.edge_set_target_at_index(e2, t, 1);
    assert_eq!(arena.ports[t.0].incoming_edges, vec![e0, e2, e1]);
    arena.edge_set_target_at_index(e0, t, 2);
    assert_eq!(arena.ports[t.0].incoming_edges, vec![e2, e1, e0]);
}

#[test]
fn port_set_node_moves_port() {
    let mut arena = LGraphArena::default();
    let g = arena.new_graph();
    let a = arena.new_node(g);
    let b = arena.new_node(g);
    let p = arena.new_port(a);
    let q = arena.new_port(b);
    arena.port_set_node(p, Some(b));
    assert!(arena.nodes[a.0].ports.is_empty());
    assert_eq!(arena.nodes[b.0].ports, vec![q, p]);
    arena.port_set_side(p, PortSide::East);
    assert_eq!(arena.ports[p.0].side, PortSide::East);
    arena.port_set_node(p, None);
    assert_eq!(arena.ports[p.0].owner, None);
    assert_eq!(arena.nodes[b.0].ports, vec![q]);
}

#[test]
fn connected_edges_list_incoming_then_outgoing_per_port() {
    let mut arena = LGraphArena::default();
    let g = arena.new_graph();
    let a = arena.new_node(g);
    let b = arena.new_node(g);
    let p0 = arena.new_port(a);
    let p1 = arena.new_port(a);
    let q = arena.new_port(b);
    let e_out0 = arena.new_edge();
    arena.edge_set_source(e_out0, Some(p0));
    arena.edge_set_target(e_out0, Some(q));
    let e_in0 = arena.new_edge();
    arena.edge_set_source(e_in0, Some(q));
    arena.edge_set_target(e_in0, Some(p0));
    let e_in1 = arena.new_edge();
    arena.edge_set_source(e_in1, Some(q));
    arena.edge_set_target(e_in1, Some(p1));
    assert_eq!(arena.node_connected_edges(a), vec![e_in0, e_out0, e_in1]);
    assert_eq!(arena.node_outgoing_edges(a), vec![e_out0]);
    assert_eq!(arena.node_incoming_edges(a), vec![e_in0, e_in1]);
    assert_eq!(arena.node_outgoing_edges(b), vec![e_in0, e_in1]);
}

#[test]
fn layers_insert_assign_and_compact() {
    let mut arena = LGraphArena::default();
    let g = arena.new_graph();
    let a = arena.new_node(g);
    let b = arena.new_node(g);
    arena.insert_layer(g, 0);
    arena.insert_layer(g, 1);
    assert_eq!(arena.graphs[g.0].layers.len(), 2);
    arena.node_set_layer(g, a, Some(1));
    arena.node_set_layer(g, b, Some(1));
    assert_eq!(arena.nodes[a.0].layer, Some(1));
    assert_eq!(arena.graphs[g.0].layers[1].nodes, vec![a, b]);
    arena.node_set_layer_at_index(g, b, 1, 0);
    assert_eq!(arena.graphs[g.0].layers[1].nodes, vec![b, a]);

    // A new first layer shifts the stored layer of every node after it.
    arena.insert_layer(g, 0);
    assert_eq!(arena.nodes[a.0].layer, Some(2));
    assert_eq!(arena.nodes[b.0].layer, Some(2));

    arena.remove_empty_layers(g);
    assert_eq!(arena.graphs[g.0].layers.len(), 1);
    assert_eq!(arena.nodes[a.0].layer, Some(0));
    assert_eq!(arena.graphs[g.0].layers[0].nodes, vec![b, a]);

    arena.node_set_layer(g, a, None);
    assert_eq!(arena.nodes[a.0].layer, None);
    assert_eq!(arena.graphs[g.0].layers[0].nodes, vec![b]);
}

#[test]
fn swap_nodes_trades_layers_and_edges() {
    let mut arena = LGraphArena::default();
    let g = arena.new_graph();
    let a = arena.new_node(g);
    let x = arena.new_node(g);
    let y = arena.new_node(g);
    let b = arena.new_node(g);
    for l in 0..4 {
        arena.insert_layer(g, l);
    }
    arena.node_set_layer(g, a, Some(0));
    arena.node_set_layer(g, x, Some(1));
    arena.node_set_layer(g, y, Some(2));
    arena.node_set_layer(g, b, Some(3));
    let pa = arena.new_port(a);
    let xw = arena.new_port(x);
    arena.port_set_side(xw, PortSide::West);
    let xe = arena.new_port(x);
    arena.port_set_side(xe, PortSide::East);
    let yw = arena.new_port(y);
    arena.port_set_side(yw, PortSide::West);
    let ye = arena.new_port(y);
    arena.port_set_side(ye, PortSide::East);
    let pb = arena.new_port(b);
    let e0 = arena.new_edge();
    arena.edge_set_source(e0, Some(pa));
    arena.edge_set_target(e0, Some(xw));
    let e1 = arena.new_edge();
    arena.edge_set_source(e1, Some(xe));
    arena.edge_set_target(e1, Some(yw));
    let e2 = arena.new_edge();
    arena.edge_set_source(e2, Some(ye));
    arena.edge_set_target(e2, Some(pb));

    swap_nodes(&mut arena, g, x, y);

    assert_eq!(arena.nodes[x.0].layer, Some(2));
    assert_eq!(arena.nodes[y.0].layer, Some(1));
    assert_eq!(arena.graphs[g.0].layers[1].nodes, vec![y]);
    assert_eq!(arena.graphs[g.0].layers[2].nodes, vec![x]);
    assert_eq!(arena.edge_target_node(e0), Some(y));
    assert_eq!(arena.edges[e0.0].target, Some(yw));
    assert_eq!(arena.edge_source_node(e1), Some(y));
    assert_eq!(arena.edge_target_node(e1), Some(x));
    assert_eq!(arena.edge_source_node(e2), Some(x));
    assert_eq!(arena.edges[e2.0].source, Some(xe));
    assert_eq!(arena.ports[yw.0].incoming_edges, vec![e0]);
    assert_eq!(arena.ports[xw.0].incoming_edges, vec![e1]);
    assert_eq!(arena.ports[ye.0].outgoing_edges, vec![e1]);
    assert_eq!(arena.ports[xe.0].outgoing_edges, vec![e2]);
}
