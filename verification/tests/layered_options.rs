use typstuml::layout::elk::alg::compound::{shallowest_edge_segment, CrossHierarchyEdge};
use typstuml::layout::elk::alg::graph::{LEdgeId, LGraphId, LNodeId, LPortId, NodeType};
use typstuml::layout::elk::alg::intermediate::reverse_range;
use typstuml::layout::elk::alg::layer_constraint::combine;
use typstuml::layout::elk::alg::options::{
    rightward, Direction, EdgeLabelPlacement, EdgeProps, LabelProps, LayerConstraint,
    PortConstraints, PortSide, PortType,
};
use typstuml::layout::elk::alg::preserve_order::{
    model_order_or, ModelOrderNodeComparator, ModelOrderPortComparator,
};
use typstuml::layout::elk::alg::options::OrderingStrategy;
use std::collections::HashMap;

#[test]
fn opposite_sides() {
    assert_eq!(PortSide::North.opposed(), PortSide::South);
    assert_eq!(PortSide::East.opposed(), PortSide::West);
    assert_eq!(PortSide::South.opposed(), PortSide::North);
    assert_eq!(PortSide::West.opposed(), PortSide::East);
    assert_eq!(PortSide::Undefined.opposed(), PortSide::Undefined);
    for s in [PortSide::Undefined, PortSide::North, PortSide::East, PortSide::South, PortSide::West] {
        assert_eq!(s.opposed().opposed(), s);
    }
}

#[test]
fn output_side_per_direction() {
    assert_eq!(PortSide::from_direction(Direction::Right), PortSide::East);
    assert_eq!(PortSide::from_direction(Direction::Left), PortSide::West);
    assert_eq!(PortSide::from_direction(Direction::Down), PortSide::South);
    assert_eq!(PortSide::from_direction(Direction::Up), PortSide::North);
    assert_eq!(PortSide::from_direction(Direction::Undefined), PortSide::Undefined);
}

#[test]
fn rightward_frame() {
    assert_eq!(rightward(PortSide::North), PortSide::West);
    assert_eq!(rightward(PortSide::South), PortSide::East);
    assert_eq!(rightward(PortSide::East), PortSide::East);
    assert_eq!(rightward(PortSide::West), PortSide::West);
    assert_eq!(rightward(PortSide::Undefined), PortSide::Undefined);
}

#[test]
fn port_constraint_predicates() {
    let table = [
        (PortConstraints::Undefined, false, false, false, false),
        (PortConstraints::Free, false, false, false, false),
        (PortConstraints::FixedSide, true, false, false, false),
        (PortConstraints::FixedOrder, true, true, false, false),
        (PortConstraints::FixedRatio, true, true, true, false),
        (PortConstraints::FixedPos, true, true, false, true),
    ];
    for (c, side, order, ratio, pos) in table {
        assert_eq!(c.is_side_fixed(), side);
        assert_eq!(c.is_order_fixed(), order);
        assert_eq!(c.is_ratio_fixed(), ratio);
        assert_eq!(c.is_pos_fixed(), pos);
    }
    assert_eq!(PortConstraints::default(), PortConstraints::Undefined);
}

#[test]
fn property_defaults() {
    let e = EdgeProps::default();
    assert_eq!(e.priority, 0);
    assert!(!e.reversed && e.origin.is_none() && e.model_order.is_none());
    let l = LabelProps::default();
    assert_eq!(l.placement, EdgeLabelPlacement::Center);
    assert_eq!(PortType::default(), PortType::Undefined);
    assert_eq!(NodeType::default(), NodeType::Normal);
    assert_eq!(LayerConstraint::default(), LayerConstraint::NoConstraint);
}

#[test]
fn combining_layer_constraints() {
    assert_eq!(combine(LayerConstraint::NoConstraint, LayerConstraint::FirstSeparate), LayerConstraint::FirstSeparate);
    assert_eq!(combine(LayerConstraint::FirstSeparate, LayerConstraint::FirstSeparate), LayerConstraint::FirstSeparate);
    assert_eq!(combine(LayerConstraint::FirstSeparate, LayerConstraint::LastSeparate), LayerConstraint::NoConstraint);
    assert_eq!(combine(LayerConstraint::LastSeparate, LayerConstraint::NoConstraint), LayerConstraint::NoConstraint);
    assert_eq!(combine(LayerConstraint::NoConstraint, LayerConstraint::NoConstraint), LayerConstraint::NoConstraint);
}

fn ports(ids: &[usize]) -> Vec<LPortId> {
    ids.iter().map(|&i| LPortId(i)).collect()
}

#[test]
fn reversing_port_ranges() {
    let mut p = ports(&[0, 1, 2, 3, 4, 5]);
    reverse_range(&mut p, 1, 5);
    assert_eq!(p, ports(&[0, 4, 3, 2, 1, 5]));
    let mut p = ports(&[0, 1, 2, 3, 4]);
    reverse_range(&mut p, 0, 5);
    assert_eq!(p, ports(&[4, 3, 2, 1, 0]));
    let mut p = ports(&[0, 1, 2, 3]);
    reverse_range(&mut p, 1, 4);
    assert_eq!(p, ports(&[0, 3, 2, 1]));
    // ranges of at most two ports stay as they are
    let mut p = ports(&[0, 1, 2, 3]);
    reverse_range(&mut p, 1, 3);
    assert_eq!(p, ports(&[0, 1, 2, 3]));
    reverse_range(&mut p, 2, 2);
    assert_eq!(p, ports(&[0, 1, 2, 3]));
}

fn seg(e: usize, t: PortType) -> CrossHierarchyEdge {
    CrossHierarchyEdge { edge: LEdgeId(e), graph: LGraphId(0), port_type: t }
}

#[test]
fn shallowest_segment_of_a_chain() {
    assert_eq!(shallowest_edge_segment(&[]), None);
    assert_eq!(shallowest_edge_segment(&[seg(0, PortType::Output)]), Some(0));
    assert_eq!(shallowest_edge_segment(&[seg(0, PortType::Output), seg(1, PortType::Output), seg(2, PortType::Input)]), Some(1));
    assert_eq!(shallowest_edge_segment(&[seg(0, PortType::Input), seg(1, PortType::Input)]), Some(0));
    assert_eq!(shallowest_edge_segment(&[seg(0, PortType::Output), seg(1, PortType::Output)]), Some(1));
    assert_eq!(
        shallowest_edge_segment(&[seg(0, PortType::Output), seg(1, PortType::Input), seg(2, PortType::Input)]),
        Some(0)
    );
}

#[test]
fn model_order_defaults_to_minus_one() {
    assert_eq!(model_order_or(Some(7)), 7);
    assert_eq!(model_order_or(None), -1);
}

#[test]
fn reference_layer_order() {
    let prev = vec![LNodeId(4), LNodeId(2), LNodeId(9)];
    let c = ModelOrderPortComparator::new(LGraphId(0), prev, OrderingStrategy::NodesAndEdges, HashMap::new());
    assert_eq!(c.check_reference_layer(LNodeId(2), LNodeId(9)), -1);
    assert_eq!(c.check_reference_layer(LNodeId(9), LNodeId(2)), 1);
    assert_eq!(c.check_reference_layer(LNodeId(9), LNodeId(7)), -1);
    assert_eq!(c.check_reference_layer(LNodeId(7), LNodeId(8)), 0);
}

#[test]
fn recording_decisions() {
    let mut c = ModelOrderNodeComparator::new(LGraphId(0), Vec::new(), OrderingStrategy::NodesAndEdges, true);
    c.update(LNodeId(2), LNodeId(1));
    c.update(LNodeId(3), LNodeId(2));
    c.clear_transitive_ordering();
    let mut p = ModelOrderPortComparator::new(LGraphId(0), Vec::new(), OrderingStrategy::NodesAndEdges, HashMap::new());
    p.update(LPortId(1), LPortId(0), -1);
    p.update(LPortId(5), LPortId(0), 1);
    p.clear_transitive_ordering();
}
