//! Cross-hierarchy edges: an edge between nodes of different nesting
//! levels is split into one segment per graph it passes through.

use vstd::prelude::*;
use crate::layout::elk::alg::graph::{LEdgeId, LGraphArena, LGraphId, LNodeId, NodeType};
use crate::layout::elk::alg::options::{
    default_node_props, opposite_side, side_for_direction, Direction, EdgeConstraint, InLayerConstraint, LayerConstraint,
    PortConstraints, PortSide, PortType,
};

verus! {

/// One segment of a split cross-hierarchy edge: the dummy edge standing
/// in for the original within `graph`.
#[derive(Debug, Clone, PartialEq, Eq, Structural)]
pub struct CrossHierarchyEdge {
    pub edge: LEdgeId,
    pub graph: LGraphId,
    pub port_type: PortType,
}

/// Index of the first input segment at or after `i`, or the length when
/// there is none.
pub open spec fn first_input_from(segments: Seq<CrossHierarchyEdge>, i: int) -> int
    decreases segments.len() - i,
{
    if i >= segments.len() {
        segments.len() as int
    } else if segments[i].port_type == PortType::Input {
        i
    } else {
        first_input_from(segments, i + 1)
    }
}

proof fn lemma_first_input_from(segments: Seq<CrossHierarchyEdge>, i: int)
    requires
        0 <= i <= segments.len(),
    ensures
        i <= first_input_from(segments, i) <= segments.len(),
        forall|k: int| i <= k < first_input_from(segments, i) ==> segments[k].port_type != PortType::Input,
        first_input_from(segments, i) < segments.len() ==> segments[first_input_from(segments, i)].port_type
            == PortType::Input,
    decreases segments.len() - i,
{
    if i < segments.len() && segments[i].port_type != PortType::Input {
        lemma_first_input_from(segments, i + 1);
    }
}

/// The segment of a sorted chain that lies in the shallowest graph.
pub open spec fn shallowest_index(segments: Seq<CrossHierarchyEdge>) -> Option<int> {
    let f = first_input_from(segments, 0);
    if f < segments.len() {
        Some(if f == 0 { 0 } else { f - 1 })
    } else if segments.len() > 0 {
        Some(segments.len() - 1)
    } else {
        None
    }
}

/// The last output segment of the sorted chain (the segment right before
/// the first input one), or the first segment when the chain starts with
/// an input segment; the last segment when no input segment exists.
pub fn shallowest_edge_segment(segments: &[CrossHierarchyEdge]) -> (r: Option<usize>)
    ensures
        r matches Some(k) ==> shallowest_index(segments@) == Some(k as int),
        r is None ==> shallowest_index(segments@) is None,
{
    let mut index: usize = 0;
    proof {
        lemma_first_input_from(segments@, 0);
    }
    while index < segments.len()
        invariant
            index <= segments.len(),
            segments.len() > 0 ==> index < segments.len(),
            first_input_from(segments@, 0) >= index,
            0 <= first_input_from(segments@, 0) <= segments.len(),
            forall|k: int| 0 <= k < first_input_from(segments@, 0) ==> segments@[k].port_type != PortType::Input,
            first_input_from(segments@, 0) < segments.len() ==> segments@[first_input_from(segments@, 0)].port_type
                == PortType::Input,
        decreases segments.len() - index,
    {
        if segments[index].port_type == PortType::Input {
            return Some(if index == 0 { 0 } else { index - 1 });
        } else if index == segments.len() - 1 {
            return Some(index);
        }
        index += 1;
    }
    None
}

/// The side the port of an external-port dummy ends up on: the given
/// side where the parent's port sides are fixed, else the layout
/// direction's output side for a port with non-negative net flow and its
/// input side otherwise.
pub open spec fn dummy_side(pc: PortConstraints, side: PortSide, net_flow: i32, dir: Direction) -> PortSide {
    if !(pc is Undefined || pc is Free) {
        side
    } else if net_flow >= 0 {
        side_for_direction(dir)
    } else {
        opposite_side(side_for_direction(dir))
    }
}

/// The layer constraint of an external-port dummy on `side`: input-side
/// dummies go into a first layer of their own, output-side dummies into
/// a last one (north acting as west, south as east).
pub open spec fn dummy_layer_constraint(side: PortSide) -> LayerConstraint {
    match side {
        PortSide::West | PortSide::North => LayerConstraint::FirstSeparate,
        PortSide::East | PortSide::South => LayerConstraint::LastSeparate,
        PortSide::Undefined => LayerConstraint::NoConstraint,
    }
}

/// The edge constraint of an external-port dummy on `side`.
pub open spec fn dummy_edge_constraint(side: PortSide) -> EdgeConstraint {
    match side {
        PortSide::West => EdgeConstraint::OutgoingOnly,
        PortSide::East => EdgeConstraint::IncomingOnly,
        _ => EdgeConstraint::NoConstraint,
    }
}

/// The in-layer constraint of an external-port dummy on `side`.
pub open spec fn dummy_in_layer_constraint(side: PortSide) -> InLayerConstraint {
    match side {
        PortSide::North => InLayerConstraint::Top,
        PortSide::South => InLayerConstraint::Bottom,
        _ => InLayerConstraint::NoConstraint,
    }
}

/// Creates, in `graph`, the dummy node standing for a port of the
/// graph's parent node, with one port facing into the graph. Returns the
/// dummy and the side it stands for. The dummy is not put into the
/// graph's list of nodes; its size and its port's position are left to
/// the geometry stage.
pub fn create_external_port_dummy(
    arena: &mut LGraphArena,
    graph: LGraphId,
    pc: PortConstraints,
    side: PortSide,
    net_flow: i32,
    dir: Direction,
) -> (r: (LNodeId, PortSide))
    requires
        old(arena).wf(),
        graph.0 < old(arena).graphs@.len(),
        !(pc is FixedOrder || pc is FixedRatio || pc is FixedPos),
        dummy_side(pc, side, net_flow, dir) != PortSide::Undefined,
    ensures
        final(arena).wf(),
        r.1 == dummy_side(pc, side, net_flow, dir),
        r.0.0 == old(arena).nodes@.len(),
        final(arena).nodes@.len() == old(arena).nodes@.len() + 1,
        forall|k: int|
            0 <= k < old(arena).nodes@.len() ==> #[trigger] final(arena).nodes@[k] == (crate::layout::elk::alg::graph::LNode {
                ports: final(arena).nodes@[k].ports,
                ..old(arena).nodes@[k]
            }),
        final(arena).graph_of() == old(arena).graph_of().push(graph.0),
        final(arena).layer_of() == old(arena).layer_of().push(None),
        final(arena).layerless_lists() == old(arena).layerless_lists(),
        final(arena).layer_lists() == old(arena).layer_lists(),
        final(arena).nodes@[r.0.0 as int].node_type == NodeType::ExternalPort,
        final(arena).nodes@[r.0.0 as int].props.port_constraints == PortConstraints::FixedPos,
        final(arena).nodes@[r.0.0 as int].props.ext_port_side == r.1,
        final(arena).nodes@[r.0.0 as int].props.layer_constraint == dummy_layer_constraint(r.1),
        final(arena).nodes@[r.0.0 as int].props.edge_constraint == dummy_edge_constraint(r.1),
        final(arena).nodes@[r.0.0 as int].props.in_layer_constraint == dummy_in_layer_constraint(r.1),
        default_node_props(
            crate::layout::elk::alg::options::NodeProps {
                port_constraints: PortConstraints::Undefined,
                ext_port_side: PortSide::Undefined,
                layer_constraint: LayerConstraint::NoConstraint,
                edge_constraint: EdgeConstraint::NoConstraint,
                in_layer_constraint: InLayerConstraint::NoConstraint,
                ..final(arena).nodes@[r.0.0 as int].props
            },
        ),
        final(arena).port_lists() == old(arena).port_lists().push(seq![old(arena).ports@.len() as usize]),
        final(arena).ports@.len() == old(arena).ports@.len() + 1,
        final(arena).ports@[old(arena).ports@.len() as int].side == opposite_side(r.1),
        final(arena).owners() == old(arena).owners().push(Some(r.0.0)),
        final(arena).edges == old(arena).edges,
        final(arena).labels == old(arena).labels,
        forall|k: int| 0 <= k < old(arena).ports@.len() ==> #[trigger] final(arena).ports@[k] == old(arena).ports@[k],
        final(arena).graphs@.len() == old(arena).graphs@.len(),
        forall|i: int|
            0 <= i < old(arena).graphs@.len() ==> (#[trigger] final(arena).graphs@[i]).props == old(arena).graphs@[i].props,
{
    let ghost a0 = *arena;
    let dummy = arena.new_node(graph);
    let ghost a1 = *arena;
    let popped = arena.graphs[graph.0].layerless_nodes.pop();
    proof {
        let g = graph.0 as int;
        let l1 = a1.graphs@[g].layerless_nodes@;
        assert(a1.layerless_lists()[g] == a0.layerless_lists()[g].push(dummy.0));
        assert(l1.map_values(|n: LNodeId| n.0) == a0.layerless_lists()[g].push(dummy.0));
        assert(l1.len() == a0.layerless_lists()[g].len() + 1);
        assert(arena.graphs@[g].layerless_nodes@ == l1.drop_last());
        assert(arena.layerless_lists()[g] =~= a0.layerless_lists()[g]) by {
            assert forall|i: int| 0 <= i < a0.layerless_lists()[g].len() implies arena.layerless_lists()[g][i]
                == a0.layerless_lists()[g][i] by {
                assert(arena.graphs@[g].layerless_nodes@[i] == l1[i]);
                assert(l1.map_values(|n: LNodeId| n.0)[i] == l1[i].0);
            }
        }
        assert forall|k: int| 0 <= k < arena.graphs@.len() && k != g implies arena.graphs@[k] == a1.graphs@[k] by {}
        assert(arena.layerless_lists() =~= a0.layerless_lists()) by {
            assert forall|k: int| 0 <= k < arena.graphs@.len() implies arena.layerless_lists()[k] == a0.layerless_lists()[k] by {
                if k != g {
                    assert(arena.graphs@[k] == a1.graphs@[k]);
                    assert(a1.layerless_lists()[k] == a0.layerless_lists()[k]);
                    assert(arena.layerless_lists()[k] == a1.layerless_lists()[k]);
                }
            }
        }
        assert(arena.graph_of() =~= a1.graph_of());
        assert(arena.layer_of() =~= a1.layer_of());
        assert(arena.layer_lists() =~= a1.layer_lists());
        assert(arena.port_lists() =~= a1.port_lists());
        assert(arena.owners() =~= a1.owners());
        assert(arena.sources() =~= a1.sources());
        assert(arena.targets() =~= a1.targets());
        assert(arena.in_lists() =~= a1.in_lists());
        assert(arena.out_lists() =~= a1.out_lists());
        assert(arena.edge_label_lists() =~= a1.edge_label_lists());
    }
    let mut final_side = side;
    if !pc.is_side_fixed() {
        final_side = if net_flow >= 0 {
            PortSide::from_direction(dir)
        } else {
            PortSide::from_direction(dir).opposed()
        };
    }
    arena.nodes[dummy.0].node_type = NodeType::ExternalPort;
    arena.nodes[dummy.0].props.port_constraints = PortConstraints::FixedPos;
    match final_side {
        PortSide::West => {
            arena.nodes[dummy.0].props.edge_constraint = EdgeConstraint::OutgoingOnly;
        },
        PortSide::East => {
            arena.nodes[dummy.0].props.edge_constraint = EdgeConstraint::IncomingOnly;
        },
        PortSide::North => {
            arena.nodes[dummy.0].props.in_layer_constraint = InLayerConstraint::Top;
        },
        PortSide::South => {
            arena.nodes[dummy.0].props.in_layer_constraint = InLayerConstraint::Bottom;
        },
        PortSide::Undefined => {},
    }
    arena.nodes[dummy.0].props.ext_port_side = final_side;
    arena.nodes[dummy.0].props.layer_constraint = match final_side {
        PortSide::West | PortSide::North => LayerConstraint::FirstSeparate,
        PortSide::East | PortSide::South => LayerConstraint::LastSeparate,
        PortSide::Undefined => LayerConstraint::NoConstraint,
    };
    proof {
        assert(arena.graph_of() =~= a1.graph_of());
        assert(arena.layer_of() =~= a1.layer_of());
        assert(arena.port_lists() =~= a1.port_lists());
        assert(arena.layer_lists() =~= a1.layer_lists());
        assert(arena.layerless_lists() =~= a0.layerless_lists());
    }
    let port = arena.new_port(dummy);
    arena.port_set_side(port, final_side.opposed());
    proof {
        assert(arena.graph_of() =~= a0.graph_of().push(graph.0));
        assert(arena.layer_of() =~= a0.layer_of().push(None));
        assert(arena.port_lists() =~= a0.port_lists().push(seq![a0.ports@.len() as usize]));
        assert(arena.layer_lists() =~= a0.layer_lists());
        assert(arena.layerless_lists() =~= a0.layerless_lists());
    }
    (dummy, final_side)
}

} // verus!
