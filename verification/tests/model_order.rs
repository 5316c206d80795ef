use std::collections::HashMap;
use typstuml::layout::elk::alg::graph::{LGraphArena, NodeType};
use typstuml::layout::elk::alg::options::{OrderingStrategy, PortSide};
use typstuml::layout::elk::alg::preserve_order::{ModelOrderNodeComparator, ModelOrderPortComparator};

#[test]
fn nodes_with_model_order_compare_by_it_and_remember() {
    let mut arena = LGraphArena::default();
    let g = arena.new_graph();
    let a = arena.new_node(g);
    let b = arena.new_node(g);
    let c = arena.new_node(g);
    arena.nodes[a.0].props.model_order = Some(5);
    arena.nodes[b.0].props.model_order = Some(3);
    arena.nodes[c.0].props.model_order = Some(1);
    let mut cmp = ModelOrderNodeComparator::new(g, vec![], OrderingStrategy::NodesAndEdges, true);
    assert_eq!(cmp.compare(&arena, a, b), 1);
    assert_eq!(cmp.compare(&arena, b, a), -1);
    assert_eq!(cmp.compare(&arena, c, b), -1);
    // Transitivity: c < b < a is already recorded.
    assert_eq!(cmp.compare(&arena, a, c), 1);
}

#[test]
fn nodes_without_model_order_follow_the_previous_layer() {
    let mut arena = LGraphArena::default();
    let g = arena.new_graph();
    arena.insert_layer(g, 0);
    arena.insert_layer(g, 1);
    let u = arena.new_node(g);
    let v = arena.new_node(g);
    arena.node_set_layer(g, u, Some(0));
    arena.node_set_layer(g, v, Some(0));
    let x = arena.new_node(g);
    let y = arena.new_node(g);
    arena.nodes[x.0].node_type = NodeType::LongEdge;
    arena.nodes[y.0].node_type = NodeType::LongEdge;
    arena.node_set_layer(g, x, Some(1));
    arena.node_set_layer(g, y, Some(1));
    let pu = arena.new_port(u);
    let pv = arena.new_port(v);
    let px = arena.new_port(x);
    let py = arena.new_port(y);
    let e1 = arena.new_edge();
    arena.edge_set_source(e1, Some(pv));
    arena.edge_set_target(e1, Some(px));
    let e2 = arena.new_edge();
    arena.edge_set_source(e2, Some(pu));
    arena.edge_set_target(e2, Some(py));
    let mut cmp = ModelOrderNodeComparator::new(g, vec![u, v], OrderingStrategy::NodesAndEdges, true);
    // x hangs off v, y off u, and u comes first: x goes after y.
    assert_eq!(cmp.compare(&arena, x, y), 1);
}

#[test]
fn ports_compare_by_side_then_model_order() {
    let mut arena = LGraphArena::default();
    let g = arena.new_graph();
    let n = arena.new_node(g);
    let m = arena.new_node(g);
    let east = arena.new_port(n);
    arena.port_set_side(east, PortSide::East);
    let west = arena.new_port(n);
    arena.port_set_side(west, PortSide::West);
    let mut cmp = ModelOrderPortComparator::new(g, vec![], OrderingStrategy::NodesAndEdges, HashMap::new());
    assert_eq!(cmp.compare(&arena, east, west), -2);

    let o1 = arena.new_port(n);
    arena.port_set_side(o1, PortSide::East);
    let o2 = arena.new_port(n);
    arena.port_set_side(o2, PortSide::East);
    let t = arena.new_port(m);
    let e1 = arena.new_edge();
    arena.edge_set_source(e1, Some(o1));
    arena.edge_set_target(e1, Some(t));
    arena.edges[e1.0].props.model_order = Some(7);
    let e2 = arena.new_edge();
    arena.edge_set_source(e2, Some(o2));
    arena.edge_set_target(e2, Some(t));
    arena.edges[e2.0].props.model_order = Some(2);
    let mut cmp = ModelOrderPortComparator::new(g, vec![], OrderingStrategy::NodesAndEdges, HashMap::new());
    assert_eq!(cmp.compare(&arena, o1, o2), 1);
    assert_eq!(cmp.compare(&arena, o2, o1), -1);
}
