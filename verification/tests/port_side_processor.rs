use typstuml::layout::elk::alg::graph::{LEdgeId, LGraphArena, LPortId};
use typstuml::layout::elk::alg::intermediate::port_side_processor;
use typstuml::layout::elk::alg::options::{PortConstraints, PortSide};

fn connect(arena: &mut LGraphArena, from: LPortId, to: LPortId) -> LEdgeId {
    let e = arena.new_edge();
    arena.edge_set_source(e, Some(from));
    arena.edge_set_target(e, Some(to));
    e
}

#[test]
fn free_ports_follow_their_flow() {
    let mut arena = LGraphArena::default();
    let g = arena.new_graph();
    arena.insert_layer(g, 0);
    arena.insert_layer(g, 1);
    let a = arena.new_node(g);
    let b = arena.new_node(g);
    arena.node_set_layer(g, a, Some(0));
    arena.node_set_layer(g, b, Some(1));
    let out_port = arena.new_port(a);
    let in_port = arena.new_port(b);
    let idle = arena.new_port(b);
    connect(&mut arena, out_port, in_port);
    connect(&mut arena, out_port, in_port);
    port_side_processor(&mut arena, g);
    assert_eq!(arena.ports[out_port.0].side, PortSide::East);
    assert_eq!(arena.ports[in_port.0].side, PortSide::West);
    assert_eq!(arena.ports[idle.0].side, PortSide::West);
    assert_eq!(arena.nodes[a.0].props.port_constraints, PortConstraints::FixedSide);
    assert_eq!(arena.nodes[b.0].props.port_constraints, PortConstraints::FixedSide);
}

#[test]
fn fixed_sides_keep_defined_sides() {
    let mut arena = LGraphArena::default();
    let g = arena.new_graph();
    arena.insert_layer(g, 0);
    let a = arena.new_node(g);
    let b = arena.new_node(g);
    arena.node_set_layer(g, a, Some(0));
    arena.nodes[a.0].props.port_constraints = PortConstraints::FixedOrder;
    let north = arena.new_port(a);
    let open = arena.new_port(a);
    let pb = arena.new_port(b);
    arena.port_set_side(north, PortSide::North);
    connect(&mut arena, north, pb);
    connect(&mut arena, open, pb);
    port_side_processor(&mut arena, g);
    assert_eq!(arena.ports[north.0].side, PortSide::North);
    assert_eq!(arena.ports[open.0].side, PortSide::East);
    assert_eq!(arena.nodes[a.0].props.port_constraints, PortConstraints::FixedOrder);
    // b has no layer and is left alone
    assert_eq!(arena.ports[pb.0].side, PortSide::Undefined);
    assert_eq!(arena.nodes[b.0].props.port_constraints, PortConstraints::Undefined);
}

#[test]
fn dummy_ports_take_the_side_of_their_external_port() {
    let mut arena = LGraphArena::default();
    let g = arena.new_graph();
    arena.insert_layer(g, 0);
    let a = arena.new_node(g);
    let dummy = arena.new_node(g);
    arena.node_set_layer(g, a, Some(0));
    arena.nodes[dummy.0].props.ext_port_side = PortSide::South;
    let p = arena.new_port(a);
    arena.ports[p.0].port_dummy = Some(dummy);
    port_side_processor(&mut arena, g);
    assert_eq!(arena.ports[p.0].side, PortSide::South);
}

#[test]
fn settling_port_sides_twice_changes_nothing() {
    let mut arena = LGraphArena::default();
    let g = arena.new_graph();
    arena.insert_layer(g, 0);
    arena.insert_layer(g, 1);
    let a = arena.new_node(g);
    let b = arena.new_node(g);
    arena.node_set_layer(g, a, Some(0));
    arena.node_set_layer(g, b, Some(1));
    let pa = arena.new_port(a);
    let pb = arena.new_port(b);
    let idle = arena.new_port(a);
    connect(&mut arena, pa, pb);
    port_side_processor(&mut arena, g);
    let sides: Vec<PortSide> = arena.ports.iter().map(|p| p.side).collect();
    port_side_processor(&mut arena, g);
    let again: Vec<PortSide> = arena.ports.iter().map(|p| p.side).collect();
    assert_eq!(sides, again);
    assert_eq!(arena.ports[idle.0].side, PortSide::West);
    assert_eq!(arena.nodes[a.0].props.port_constraints, PortConstraints::FixedSide);
}
