use typstuml::layout::elk::alg::components::split;
use typstuml::layout::elk::alg::graph::{LEdgeId, LGraphArena, LPortId};
use typstuml::layout::elk::alg::options::PortConstraints;

fn connect(arena: &mut LGraphArena, from: LPortId, to: LPortId) -> LEdgeId {
    let e = arena.new_edge();
    arena.edge_set_source(e, Some(from));
    arena.edge_set_target(e, Some(to));
    e
}

#[test]
fn split_lists_nodes_in_discovery_order() {
    let mut arena = LGraphArena::default();
    let g = arena.new_graph();
    let a = arena.new_node(g);
    let b = arena.new_node(g);
    let c = arena.new_node(g);
    let pa = arena.new_port(a);
    let pb = arena.new_port(b);
    let pc = arena.new_port(c);
    connect(&mut arena, pc, pa);
    connect(&mut arena, pa, pb);
    arena.nodes[a.0].id = 7;
    let graphs = split(&mut arena, g);
    assert_eq!(graphs, vec![g]);
    assert_eq!(arena.graphs[g.0].layerless_nodes, vec![a, c, b]);
    assert_eq!(arena.nodes[a.0].id, 1);
    assert_eq!(arena.nodes[b.0].id, 1);
    assert_eq!(arena.nodes[c.0].id, 1);
}

#[test]
fn split_without_separation_changes_nothing() {
    let mut arena = LGraphArena::default();
    let g = arena.new_graph();
    let a = arena.new_node(g);
    let b = arena.new_node(g);
    let pa = arena.new_port(a);
    let pb = arena.new_port(b);
    connect(&mut arena, pb, pa);
    arena.graphs[g.0].props.separate_connected_components = false;
    let graphs = split(&mut arena, g);
    assert_eq!(graphs, vec![g]);
    assert_eq!(arena.graphs[g.0].layerless_nodes, vec![a, b]);
    assert_eq!(arena.nodes[a.0].id, 0);
}

#[test]
fn split_keeps_external_ports_with_fixed_order() {
    let mut arena = LGraphArena::default();
    let g = arena.new_graph();
    let a = arena.new_node(g);
    let b = arena.new_node(g);
    let pa = arena.new_port(a);
    let pb = arena.new_port(b);
    connect(&mut arena, pb, pa);
    arena.graphs[g.0].props.graph_properties.external_ports = true;
    arena.graphs[g.0].props.port_constraints = PortConstraints::FixedOrder;
    split(&mut arena, g);
    assert_eq!(arena.graphs[g.0].layerless_nodes, vec![a, b]);
    // with free port order the graph is split again
    arena.graphs[g.0].props.port_constraints = PortConstraints::Free;
    split(&mut arena, g);
    assert_eq!(arena.graphs[g.0].layerless_nodes, vec![a, b]);
    assert_eq!(arena.nodes[b.0].id, 1);
}

#[test]
fn split_of_an_empty_graph_returns_it() {
    let mut arena = LGraphArena::default();
    let g = arena.new_graph();
    assert_eq!(split(&mut arena, g), vec![g]);
    assert!(arena.graphs[g.0].layerless_nodes.is_empty());
}

#[test]
fn split_enters_outside_nodes_whose_id_is_zero() {
    let mut arena = LGraphArena::default();
    let g = arena.new_graph();
    let other = arena.new_graph();
    let a = arena.new_node(g);
    let b = arena.new_node(g);
    let d = arena.new_node(other);
    let pa = arena.new_port(a);
    let pb = arena.new_port(b);
    let pd = arena.new_port(d);
    connect(&mut arena, pa, pb);
    connect(&mut arena, pb, pd);
    split(&mut arena, g);
    assert_eq!(arena.graphs[g.0].layerless_nodes, vec![a, b, d]);
    assert_eq!(arena.nodes[d.0].id, 1);
}

#[test]
fn split_skips_outside_nodes_with_an_id() {
    let mut arena = LGraphArena::default();
    let g = arena.new_graph();
    let other = arena.new_graph();
    let a = arena.new_node(g);
    let b = arena.new_node(g);
    let d = arena.new_node(other);
    let pa = arena.new_port(a);
    let pb = arena.new_port(b);
    let pd = arena.new_port(d);
    connect(&mut arena, pa, pb);
    connect(&mut arena, pb, pd);
    arena.nodes[d.0].id = 5;
    split(&mut arena, g);
    assert_eq!(arena.graphs[g.0].layerless_nodes, vec![a, b]);
    assert_eq!(arena.nodes[d.0].id, 5);
}
