use typstuml::layout::elk::alg::compound::create_external_port_dummy;
use typstuml::layout::elk::alg::graph::{LGraphArena, NodeType};
use typstuml::layout::elk::alg::options::{
    Direction, EdgeConstraint, InLayerConstraint, LayerConstraint, PortConstraints, PortSide,
};

#[test]
fn fixed_west_side_makes_a_first_layer_dummy() {
    let mut arena = LGraphArena::default();
    let g = arena.new_graph();
    let (d, side) = create_external_port_dummy(&mut arena, g, PortConstraints::FixedSide, PortSide::West, -3, Direction::Down);
    assert_eq!(side, PortSide::West);
    assert_eq!(arena.nodes[d.0].node_type, NodeType::ExternalPort);
    assert_eq!(arena.nodes[d.0].props.port_constraints, PortConstraints::FixedPos);
    assert_eq!(arena.nodes[d.0].props.layer_constraint, LayerConstraint::FirstSeparate);
    assert_eq!(arena.nodes[d.0].props.edge_constraint, EdgeConstraint::OutgoingOnly);
    assert_eq!(arena.nodes[d.0].props.in_layer_constraint, InLayerConstraint::NoConstraint);
    assert_eq!(arena.nodes[d.0].props.ext_port_side, PortSide::West);
    assert_eq!(arena.nodes[d.0].ports.len(), 1);
    let p = arena.nodes[d.0].ports[0];
    assert_eq!(arena.ports[p.0].side, PortSide::East);
    assert!(arena.graphs[g.0].layerless_nodes.is_empty());
}

#[test]
fn free_side_follows_the_flow_and_direction() {
    let mut arena = LGraphArena::default();
    let g = arena.new_graph();
    let (d, side) = create_external_port_dummy(&mut arena, g, PortConstraints::Free, PortSide::East, -1, Direction::Down);
    assert_eq!(side, PortSide::North);
    assert_eq!(arena.nodes[d.0].props.in_layer_constraint, InLayerConstraint::Top);
    assert_eq!(arena.nodes[d.0].props.layer_constraint, LayerConstraint::FirstSeparate);
    assert_eq!(arena.nodes[d.0].props.edge_constraint, EdgeConstraint::NoConstraint);
    let p = arena.nodes[d.0].ports[0];
    assert_eq!(arena.ports[p.0].side, PortSide::South);

    let (e, side2) = create_external_port_dummy(&mut arena, g, PortConstraints::Undefined, PortSide::West, 0, Direction::Right);
    assert_eq!(side2, PortSide::East);
    assert_eq!(arena.nodes[e.0].props.layer_constraint, LayerConstraint::LastSeparate);
    assert_eq!(arena.nodes[e.0].props.edge_constraint, EdgeConstraint::IncomingOnly);
    let q = arena.nodes[e.0].ports[0];
    assert_eq!(arena.ports[q.0].side, PortSide::West);
}
