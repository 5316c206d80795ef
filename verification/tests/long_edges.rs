use typstuml::layout::elk::alg::graph::{LEdgeId, LGraphArena, LPortId, NodeType};
use typstuml::layout::elk::alg::long_edges::{join_at, long_edge_joiner, long_edge_splitter, split_edge};
use typstuml::layout::elk::alg::options::{PortConstraints, PortSide};

fn connect(arena: &mut LGraphArena, from: LPortId, to: LPortId) -> LEdgeId {
    let e = arena.new_edge();
    arena.edge_set_source(e, Some(from));
    arena.edge_set_target(e, Some(to));
    e
}

#[test]
fn split_edge_routes_through_the_dummy() {
    let mut arena = LGraphArena::default();
    let g = arena.new_graph();
    let a = arena.new_node(g);
    let b = arena.new_node(g);
    let d = arena.new_node(g);
    let pa = arena.new_port(a);
    let pb = arena.new_port(b);
    let e = connect(&mut arena, pa, pb);
    arena.edges[e.0].props.priority = 3;
    let e2 = split_edge(&mut arena, e, d);
    assert_eq!(e2, LEdgeId(1));
    let ports = arena.nodes[d.0].ports.clone();
    assert_eq!(ports.len(), 2);
    assert_eq!(arena.ports[ports[0].0].side, PortSide::West);
    assert_eq!(arena.ports[ports[1].0].side, PortSide::East);
    assert_eq!(arena.edges[e.0].source, Some(pa));
    assert_eq!(arena.edges[e.0].target, Some(ports[0]));
    assert_eq!(arena.edges[e2.0].source, Some(ports[1]));
    assert_eq!(arena.edges[e2.0].target, Some(pb));
    assert_eq!(arena.edges[e2.0].props.priority, 3);
    assert_eq!(arena.ports[pb.0].incoming_edges, vec![e2]);
    assert_eq!(arena.nodes[d.0].props.long_edge_source, Some(pa));
    assert_eq!(arena.nodes[d.0].props.long_edge_target, Some(pb));
    assert!(!arena.nodes[d.0].props.long_edge_has_label_dummies);
}

#[test]
fn split_edge_after_a_label_dummy_marks_the_chain() {
    let mut arena = LGraphArena::default();
    let g = arena.new_graph();
    let label = arena.new_node(g);
    let b = arena.new_node(g);
    let d = arena.new_node(g);
    arena.nodes[label.0].node_type = NodeType::Label;
    let pl = arena.new_port(label);
    let pb = arena.new_port(b);
    arena.nodes[label.0].props.long_edge_source = Some(pb);
    let e = connect(&mut arena, pl, pb);
    split_edge(&mut arena, e, d);
    assert_eq!(arena.nodes[d.0].props.long_edge_source, Some(pb));
    assert_eq!(arena.nodes[d.0].props.long_edge_target, None);
    assert!(arena.nodes[d.0].props.long_edge_has_label_dummies);
}

#[test]
fn long_edges_get_one_dummy_per_layer_crossed() {
    let mut arena = LGraphArena::default();
    let g = arena.new_graph();
    for at in 0..4 {
        arena.insert_layer(g, at);
    }
    let a = arena.new_node(g);
    let b = arena.new_node(g);
    let c = arena.new_node(g);
    arena.node_set_layer(g, a, Some(0));
    arena.node_set_layer(g, b, Some(3));
    arena.node_set_layer(g, c, Some(1));
    let pa = arena.new_port(a);
    let pb = arena.new_port(b);
    let pc = arena.new_port(c);
    let long = connect(&mut arena, pa, pb);
    let short = connect(&mut arena, pa, pc);
    long_edge_splitter(&mut arena, g);
    assert_eq!(arena.nodes.len(), 5);
    assert_eq!(arena.edges.len(), 4);
    let layers: Vec<Vec<usize>> = arena.graphs[g.0].layers.iter().map(|l| l.nodes.iter().map(|n| n.0).collect()).collect();
    assert_eq!(layers, vec![vec![a.0], vec![c.0, 3], vec![4], vec![b.0]]);
    for e in 0..arena.edges.len() {
        let s = arena.edge_source_node(LEdgeId(e)).unwrap();
        let t = arena.edge_target_node(LEdgeId(e)).unwrap();
        let ls = arena.nodes[s.0].layer.unwrap();
        let lt = arena.nodes[t.0].layer.unwrap();
        assert!(lt == ls || lt == ls + 1);
    }
    assert_eq!(arena.edges[short.0].target, Some(pc));
    assert_eq!(arena.edge_target_node(long).unwrap().0, 3);
    for d in [3, 4] {
        assert_eq!(arena.nodes[d].node_type, NodeType::LongEdge);
        assert_eq!(arena.nodes[d].props.port_constraints, PortConstraints::FixedPos);
        assert_eq!(arena.nodes[d].props.long_edge_source, Some(pa));
        assert_eq!(arena.nodes[d].props.long_edge_target, Some(pb));
    }
    assert_eq!(arena.nodes[3].props.origin_edge, Some(long));
    assert_eq!(arena.graphs[g.0].layerless_nodes, vec![a, b, c]);
}

#[test]
fn two_layers_need_no_dummies() {
    let mut arena = LGraphArena::default();
    let g = arena.new_graph();
    arena.insert_layer(g, 0);
    arena.insert_layer(g, 1);
    let a = arena.new_node(g);
    let b = arena.new_node(g);
    arena.node_set_layer(g, a, Some(0));
    arena.node_set_layer(g, b, Some(1));
    let pa = arena.new_port(a);
    let pb = arena.new_port(b);
    connect(&mut arena, pa, pb);
    long_edge_splitter(&mut arena, g);
    assert_eq!(arena.nodes.len(), 2);
    assert_eq!(arena.edges.len(), 1);
}

#[test]
fn join_at_reconnects_the_halves_of_a_split_edge() {
    let mut arena = LGraphArena::default();
    let g = arena.new_graph();
    let a = arena.new_node(g);
    let b = arena.new_node(g);
    let d = arena.new_node(g);
    let pa = arena.new_port(a);
    let pb = arena.new_port(b);
    let other = arena.new_port(b);
    let e = connect(&mut arena, pa, pb);
    // another edge already ends at `pb` behind `e`
    let other_edge = connect(&mut arena, pa, pb);
    let lab = arena.new_label(String::from("x"));
    let lab2 = arena.new_label(String::from("y"));
    arena.edges[e.0].labels.push(lab);
    let e2 = split_edge(&mut arena, e, d);
    arena.edges[e2.0].labels.push(lab2);
    // after the split `pb` lists the other edge, then the continuation
    assert_eq!(arena.ports[pb.0].incoming_edges, vec![other_edge, e2]);
    join_at(&mut arena, d);
    assert_eq!(arena.edges[e.0].source, Some(pa));
    assert_eq!(arena.edges[e.0].target, Some(pb));
    assert_eq!(arena.edges[e2.0].source, None);
    assert_eq!(arena.edges[e2.0].target, None);
    assert_eq!(arena.ports[pb.0].incoming_edges, vec![other_edge, e]);
    assert_eq!(arena.edges[e.0].labels, vec![lab, lab2]);
    assert!(arena.edges[e2.0].labels.is_empty());
    let ports = arena.nodes[d.0].ports.clone();
    assert!(arena.ports[ports[0].0].incoming_edges.is_empty());
    assert!(arena.ports[ports[1].0].outgoing_edges.is_empty());
    assert!(arena.ports[other.0].incoming_edges.is_empty());
}

#[test]
fn joining_after_splitting_restores_the_long_edge() {
    let mut arena = LGraphArena::default();
    let g = arena.new_graph();
    for at in 0..4 {
        arena.insert_layer(g, at);
    }
    let a = arena.new_node(g);
    let b = arena.new_node(g);
    let c = arena.new_node(g);
    arena.node_set_layer(g, a, Some(0));
    arena.node_set_layer(g, b, Some(3));
    arena.node_set_layer(g, c, Some(1));
    let pa = arena.new_port(a);
    let pb = arena.new_port(b);
    let pc = arena.new_port(c);
    let long = connect(&mut arena, pa, pb);
    let short = connect(&mut arena, pa, pc);
    long_edge_splitter(&mut arena, g);
    long_edge_joiner(&mut arena, g);
    assert_eq!(arena.edges[long.0].source, Some(pa));
    assert_eq!(arena.edges[long.0].target, Some(pb));
    assert_eq!(arena.edges[short.0].target, Some(pc));
    assert_eq!(arena.ports[pb.0].incoming_edges, vec![long]);
    assert_eq!(arena.nodes[3].layer, None);
    assert_eq!(arena.nodes[4].layer, None);
    let layers: Vec<Vec<usize>> = arena.graphs[g.0].layers.iter().map(|l| l.nodes.iter().map(|n| n.0).collect()).collect();
    assert_eq!(layers, vec![vec![a.0], vec![c.0], vec![], vec![b.0]]);
}
