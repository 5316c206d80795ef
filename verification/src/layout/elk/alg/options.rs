//! The option enums and per-element property records of the layered
//! algorithm: port sides and constraints, edge routing, hierarchy
//! handling, layout direction, ordering and cycle-breaking strategies,
//! layer constraints.

use vstd::prelude::*;
use crate::layout::elk::alg::graph::{LEdgeId, LLabelId, LPortId};

verus! {

/// The side of a node a port sits on.
#[derive(Debug, Clone, Copy, PartialEq, Eq, Hash, Structural)]
pub enum PortSide {
    Undefined,
    North,
    East,
    South,
    West,
}

impl Default for PortSide {
    fn default() -> (r: Self)
        ensures
            r == PortSide::Undefined,
    {
        PortSide::Undefined
    }
}

/// The side across the node; `Undefined` stays `Undefined`.
pub open spec fn opposite_side(s: PortSide) -> PortSide {
    match s {
        PortSide::North => PortSide::South,
        PortSide::East => PortSide::West,
        PortSide::South => PortSide::North,
        PortSide::West => PortSide::East,
        PortSide::Undefined => PortSide::Undefined,
    }
}

/// The side an output port defaults to under a layout direction.
pub open spec fn side_for_direction(d: Direction) -> PortSide {
    match d {
        Direction::Right => PortSide::East,
        Direction::Left => PortSide::West,
        Direction::Down => PortSide::South,
        Direction::Up => PortSide::North,
        Direction::Undefined => PortSide::Undefined,
    }
}

/// A side in the rightward frame: north acts as west (the input side),
/// south as east (the output side); the others pass through.
pub open spec fn rightward_side(s: PortSide) -> PortSide {
    match s {
        PortSide::North => PortSide::West,
        PortSide::South => PortSide::East,
        _ => s,
    }
}

impl PortSide {
    /// The side across the node.
    pub fn opposed(self) -> (r: PortSide)
        ensures
            r == opposite_side(self),
    {
        match self {
            PortSide::North => PortSide::South,
            PortSide::East => PortSide::West,
            PortSide::South => PortSide::North,
            PortSide::West => PortSide::East,
            PortSide::Undefined => PortSide::Undefined,
        }
    }

    /// The side an output port defaults to under the given layout
    /// direction.
    pub fn from_direction(direction: Direction) -> (r: PortSide)
        ensures
            r == side_for_direction(direction),
    {
        match direction {
            Direction::Right => PortSide::East,
            Direction::Left => PortSide::West,
            Direction::Down => PortSide::South,
            Direction::Up => PortSide::North,
            Direction::Undefined => PortSide::Undefined,
        }
    }
}

/// Normalize a port side into the rightward frame: north acts as west
/// (input side), south as east (output side); west and east pass through.
pub fn rightward(side: PortSide) -> (r: PortSide)
    ensures
        r == rightward_side(side),
{
    match side {
        PortSide::North => PortSide::West,
        PortSide::South => PortSide::East,
        s => s,
    }
}

/// Going to the opposite side twice comes back to the same side.
pub proof fn lemma_opposed_involution(s: PortSide)
    ensures
        opposite_side(opposite_side(s)) == s,
{
}

/// Opposite layout directions put output ports on opposite sides.
pub proof fn lemma_direction_sides_opposed()
    ensures
        side_for_direction(Direction::Right) == opposite_side(side_for_direction(Direction::Left)),
        side_for_direction(Direction::Down) == opposite_side(side_for_direction(Direction::Up)),
{
}

/// The rightward frame has only west, east and undefined sides, and
/// normalizing twice changes nothing more.
pub proof fn lemma_rightward_normal(s: PortSide)
    ensures
        !(rightward_side(s) is North) && !(rightward_side(s) is South),
        rightward_side(rightward_side(s)) == rightward_side(s),
{
}

/// Whether a port is an input or an output of its node.
#[derive(Debug, Clone, Copy, PartialEq, Eq, Structural)]
pub enum PortType {
    Undefined,
    Input,
    Output,
}

impl Default for PortType {
    fn default() -> (r: Self)
        ensures
            r == PortType::Undefined,
    {
        PortType::Undefined
    }
}

/// How freely the layout may move a node's ports.
#[derive(Debug, Clone, Copy, PartialEq, Eq, Structural)]
pub enum PortConstraints {
    Undefined,
    Free,
    FixedSide,
    FixedOrder,
    FixedRatio,
    FixedPos,
}

impl Default for PortConstraints {
    fn default() -> (r: Self)
        ensures
            r == PortConstraints::Undefined,
    {
        PortConstraints::Undefined
    }
}

impl PortConstraints {
    /// The side of each port is fixed.
    pub fn is_side_fixed(self) -> (r: bool)
        ensures
            r == !(self is Undefined || self is Free),
    {
        !matches!(self, PortConstraints::Undefined | PortConstraints::Free)
    }

    /// The order of the ports on each side is fixed.
    pub fn is_order_fixed(self) -> (r: bool)
        ensures
            r == (self is FixedOrder || self is FixedRatio || self is FixedPos),
    {
        matches!(self, PortConstraints::FixedOrder | PortConstraints::FixedRatio | PortConstraints::FixedPos)
    }

    /// The ratio of the port positions is fixed.
    pub fn is_ratio_fixed(self) -> (r: bool)
        ensures
            r == (self is FixedRatio),
    {
        matches!(self, PortConstraints::FixedRatio)
    }

    /// The port positions are fixed.
    pub fn is_pos_fixed(self) -> (r: bool)
        ensures
            r == (self is FixedPos),
    {
        matches!(self, PortConstraints::FixedPos)
    }
}

/// The constraints form a chain: a fixed position or ratio fixes the
/// order, and a fixed order fixes the side.
pub proof fn lemma_constraints_nested(c: PortConstraints)
    ensures
        (c is FixedPos || c is FixedRatio) ==> (c is FixedOrder || c is FixedRatio || c is FixedPos),
        (c is FixedOrder || c is FixedRatio || c is FixedPos) ==> !(c is Undefined || c is Free),
{
}

/// Whether a graph is laid out together with its nested graphs.
#[derive(Debug, Clone, Copy, PartialEq, Eq, Structural)]
pub enum HierarchyHandling {
    Inherit,
    IncludeChildren,
    SeparateChildren,
}

impl Default for HierarchyHandling {
    fn default() -> (r: Self)
        ensures
            r == HierarchyHandling::Inherit,
    {
        HierarchyHandling::Inherit
    }
}

/// How edges are routed.
#[derive(Debug, Clone, Copy, PartialEq, Eq, Structural)]
pub enum EdgeRouting {
    Undefined,
    Polyline,
    Orthogonal,
    Splines,
}

impl Default for EdgeRouting {
    fn default() -> (r: Self)
        ensures
            r == EdgeRouting::Undefined,
    {
        EdgeRouting::Undefined
    }
}

/// The overall direction in which edges point.
#[derive(Debug, Clone, Copy, PartialEq, Eq, Structural)]
pub enum Direction {
    Undefined,
    Right,
    Left,
    Down,
    Up,
}

impl Default for Direction {
    fn default() -> (r: Self)
        ensures
            r == Direction::Undefined,
    {
        Direction::Undefined
    }
}

/// How strongly the input order of the model is kept.
#[derive(Debug, Clone, Copy, PartialEq, Eq, Structural)]
pub enum OrderingStrategy {
    /// Model order is not considered.
    NoOrdering,
    NodesAndEdges,
    PreferEdges,
    PreferNodes,
}

impl Default for OrderingStrategy {
    fn default() -> (r: Self)
        ensures
            r == OrderingStrategy::NoOrdering,
    {
        OrderingStrategy::NoOrdering
    }
}

/// Which of the four node-placement sweeps is used.
#[derive(Debug, Clone, Copy, PartialEq, Eq, Structural)]
pub enum FixedAlignment {
    /// No alignment is forced.
    NoAlignment,
    LeftUp,
    RightUp,
    LeftDown,
    RightDown,
    Balanced,
}

impl Default for FixedAlignment {
    fn default() -> (r: Self)
        ensures
            r == FixedAlignment::NoAlignment,
    {
        FixedAlignment::NoAlignment
    }
}

/// How cycles are broken before layering.
#[derive(Debug, Clone, Copy, PartialEq, Eq, Structural)]
pub enum CycleBreakingStrategy {
    Greedy,
    DepthFirst,
    Interactive,
    ModelOrder,
    GreedyModelOrder,
}

impl Default for CycleBreakingStrategy {
    fn default() -> (r: Self)
        ensures
            r == CycleBreakingStrategy::Greedy,
    {
        CycleBreakingStrategy::Greedy
    }
}

/// Which layer a node is pinned to.
#[derive(Debug, Clone, Copy, PartialEq, Eq, Structural)]
pub enum LayerConstraint {
    /// Not pinned.
    NoConstraint,
    First,
    FirstSeparate,
    Last,
    LastSeparate,
}

impl Default for LayerConstraint {
    fn default() -> (r: Self)
        ensures
            r == LayerConstraint::NoConstraint,
    {
        LayerConstraint::NoConstraint
    }
}

/// Where in its layer a node is pinned.
#[derive(Debug, Clone, Copy, PartialEq, Eq, Structural)]
pub enum InLayerConstraint {
    /// Not pinned.
    NoConstraint,
    Top,
    Bottom,
}

impl Default for InLayerConstraint {
    fn default() -> (r: Self)
        ensures
            r == InLayerConstraint::NoConstraint,
    {
        InLayerConstraint::NoConstraint
    }
}

/// Which edges a node may have.
#[derive(Debug, Clone, Copy, PartialEq, Eq, Structural)]
pub enum EdgeConstraint {
    /// Any edges.
    NoConstraint,
    IncomingOnly,
    OutgoingOnly,
}

impl Default for EdgeConstraint {
    fn default() -> (r: Self)
        ensures
            r == EdgeConstraint::NoConstraint,
    {
        EdgeConstraint::NoConstraint
    }
}

/// Structural facts the importer discovers about a graph, consumed when
/// the processors are configured.
#[derive(Debug, Clone, Copy, PartialEq, Eq, Structural)]
pub struct GraphPropertiesSet {
    pub comments: bool,
    pub external_ports: bool,
    pub hyperedges: bool,
    pub hypernodes: bool,
    pub non_free_ports: bool,
    pub north_south_ports: bool,
    pub self_loops: bool,
    pub center_labels: bool,
    pub end_labels: bool,
    pub partitions: bool,
}

impl GraphPropertiesSet {
    /// No property discovered.
    pub open spec fn spec_empty() -> GraphPropertiesSet {
        GraphPropertiesSet {
            comments: false,
            external_ports: false,
            hyperedges: false,
            hypernodes: false,
            non_free_ports: false,
            north_south_ports: false,
            self_loops: false,
            center_labels: false,
            end_labels: false,
            partitions: false,
        }
    }
}

impl Default for GraphPropertiesSet {
    fn default() -> (r: Self)
        ensures
            r == GraphPropertiesSet::spec_empty(),
    {
        GraphPropertiesSet {
            comments: false,
            external_ports: false,
            hyperedges: false,
            hypernodes: false,
            non_free_ports: false,
            north_south_ports: false,
            self_loops: false,
            center_labels: false,
            end_labels: false,
            partitions: false,
        }
    }
}

/// Per-graph layout options, without the spacings.
#[derive(Debug, Clone, PartialEq)]
pub struct GraphProps {
    /// External id the graph was imported from.
    pub origin: Option<String>,
    pub hierarchy_handling: HierarchyHandling,
    pub edge_routing: EdgeRouting,
    pub direction: Direction,
    /// Seed of the tie-breaking random numbers.
    pub random_seed: u64,
    pub consider_model_order: OrderingStrategy,
    pub cycle_breaking: CycleBreakingStrategy,
    pub merge_edges: bool,
    /// Whether the connected components are laid out one by one.
    pub separate_connected_components: bool,
    pub bk_fixed_alignment: FixedAlignment,
    pub post_compaction_left: bool,
    pub favor_straight_edges: bool,
    pub high_degree_nodes_treatment: bool,
    pub high_degree_nodes_threshold: i32,
    pub high_degree_nodes_tree_height: i32,
    /// Iteration-limit factor.
    pub thoroughness: i32,
    pub graph_properties: GraphPropertiesSet,
    pub max_model_order_nodes: i32,
    pub merge_hierarchy_edges: bool,
    /// Port constraints stamped on the graph for external-port handling.
    pub port_constraints: PortConstraints,
}

impl GraphProps {
    /// The options of a graph that sets none.
    pub open spec fn spec_default() -> GraphProps {
        GraphProps {
            origin: None,
            hierarchy_handling: HierarchyHandling::Inherit,
            edge_routing: EdgeRouting::Undefined,
            direction: Direction::Undefined,
            random_seed: 0,
            consider_model_order: OrderingStrategy::NoOrdering,
            cycle_breaking: CycleBreakingStrategy::Greedy,
            merge_edges: false,
            separate_connected_components: true,
            bk_fixed_alignment: FixedAlignment::NoAlignment,
            post_compaction_left: false,
            favor_straight_edges: true,
            high_degree_nodes_treatment: false,
            high_degree_nodes_threshold: 16,
            high_degree_nodes_tree_height: 5,
            thoroughness: 7,
            graph_properties: GraphPropertiesSet::spec_empty(),
            max_model_order_nodes: 0,
            merge_hierarchy_edges: true,
            port_constraints: PortConstraints::Undefined,
        }
    }
}

impl Default for GraphProps {
    fn default() -> (r: Self)
        ensures
            r == GraphProps::spec_default(),
    {
        GraphProps {
            origin: None,
            hierarchy_handling: HierarchyHandling::Inherit,
            edge_routing: EdgeRouting::Undefined,
            direction: Direction::Undefined,
            random_seed: 0,
            consider_model_order: OrderingStrategy::NoOrdering,
            cycle_breaking: CycleBreakingStrategy::Greedy,
            merge_edges: false,
            separate_connected_components: true,
            bk_fixed_alignment: FixedAlignment::NoAlignment,
            post_compaction_left: false,
            favor_straight_edges: true,
            high_degree_nodes_treatment: false,
            high_degree_nodes_threshold: 16,
            high_degree_nodes_tree_height: 5,
            thoroughness: 7,
            graph_properties: GraphPropertiesSet::default(),
            max_model_order_nodes: 0,
            merge_hierarchy_edges: true,
            port_constraints: PortConstraints::Undefined,
        }
    }
}

/// Which side of its edge a label is placed on.
#[derive(Debug, Clone, Copy, PartialEq, Eq, Structural)]
pub enum LabelSide {
    Unknown,
    Above,
    Below,
    Inline,
}

impl Default for LabelSide {
    fn default() -> (r: Self)
        ensures
            r == LabelSide::Unknown,
    {
        LabelSide::Unknown
    }
}

/// Per-node properties, without the port geometry of external-port
/// dummies.
#[derive(Debug, Clone, PartialEq)]
pub struct NodeProps {
    /// External id the node was imported from.
    pub origin: Option<String>,
    /// The parent node's port an external-port dummy stands for.
    pub origin_port: Option<LPortId>,
    /// The edge a long-edge dummy splits.
    pub origin_edge: Option<LEdgeId>,
    pub port_constraints: PortConstraints,
    /// Position of the node in the input model.
    pub model_order: Option<i32>,
    pub compound_node: bool,
    /// The side of the parent node an external-port dummy's port is on.
    pub ext_port_side: PortSide,
    pub layer_constraint: LayerConstraint,
    pub in_layer_constraint: InLayerConstraint,
    pub edge_constraint: EdgeConstraint,
    /// On a long-edge dummy, the real source and target ports of the
    /// edge it is part of.
    pub long_edge_source: Option<LPortId>,
    pub long_edge_target: Option<LPortId>,
    /// The long edge this dummy is part of also has a label dummy.
    pub long_edge_has_label_dummies: bool,
    /// This long-edge dummy comes before its edge's label dummy.
    pub long_edge_before_label_dummy: bool,
    /// The center labels a label dummy reserves space for.
    pub represented_labels: Vec<LLabelId>,
    /// The side of its edge a label dummy's labels are placed on.
    pub label_side: LabelSide,
}

/// `p` holds the properties of a node that sets none.
pub open spec fn default_node_props(p: NodeProps) -> bool {
    &&& p.origin is None
    &&& p.origin_port is None
    &&& p.origin_edge is None
    &&& p.port_constraints == PortConstraints::Undefined
    &&& p.model_order is None
    &&& !p.compound_node
    &&& p.ext_port_side == PortSide::Undefined
    &&& p.layer_constraint == LayerConstraint::NoConstraint
    &&& p.in_layer_constraint == InLayerConstraint::NoConstraint
    &&& p.edge_constraint == EdgeConstraint::NoConstraint
    &&& p.long_edge_source is None
    &&& p.long_edge_target is None
    &&& !p.long_edge_has_label_dummies
    &&& !p.long_edge_before_label_dummy
    &&& p.represented_labels@.len() == 0
    &&& p.label_side == LabelSide::Unknown
}

impl Default for NodeProps {
    fn default() -> (r: Self)
        ensures
            default_node_props(r),
    {
        NodeProps {
            origin: None,
            origin_port: None,
            origin_edge: None,
            port_constraints: PortConstraints::Undefined,
            model_order: None,
            compound_node: false,
            ext_port_side: PortSide::Undefined,
            layer_constraint: LayerConstraint::NoConstraint,
            in_layer_constraint: InLayerConstraint::NoConstraint,
            edge_constraint: EdgeConstraint::NoConstraint,
            long_edge_source: None,
            long_edge_target: None,
            long_edge_has_label_dummies: false,
            long_edge_before_label_dummy: false,
            represented_labels: Vec::new(),
            label_side: LabelSide::Unknown,
        }
    }
}

/// Per-edge properties.
#[derive(Debug, Clone, PartialEq)]
pub struct EdgeProps {
    /// External id the edge was imported from.
    pub origin: Option<String>,
    /// Flipped by every reversal (cycle breaking, compound processing).
    pub reversed: bool,
    /// Priority of the edge's direction; cycle breaking weighs edges by it.
    pub priority: i32,
    /// Position of the edge in the input model.
    pub model_order: Option<i32>,
    /// The port at the far end of an edge that was disconnected when its
    /// node was hidden, so it can be reconnected.
    pub original_opposite_port: Option<LPortId>,
}

impl EdgeProps {
    /// No origin, not reversed, priority 0, no model order.
    pub open spec fn spec_default() -> EdgeProps {
        EdgeProps { origin: None, reversed: false, priority: 0, model_order: None, original_opposite_port: None }
    }
}

impl Default for EdgeProps {
    fn default() -> (r: Self)
        ensures
            r == EdgeProps::spec_default(),
    {
        EdgeProps { origin: None, reversed: false, priority: 0, model_order: None, original_opposite_port: None }
    }
}

/// Per-label properties.
#[derive(Debug, Clone, PartialEq)]
pub struct LabelProps {
    /// Where an edge label sits; head and tail swap when the edge is
    /// reversed.
    pub placement: EdgeLabelPlacement,
    /// Raw placement option of a node label.
    pub node_placement: Option<String>,
    /// Inline option set on the label itself.
    pub inline: bool,
    /// The cross-hierarchy edge this label was moved off of.
    pub original_label_edge: Option<LEdgeId>,
}

impl Default for LabelProps {
    fn default() -> (r: Self)
        ensures
            r.placement == EdgeLabelPlacement::Center,
            r.node_placement is None,
            !r.inline,
            r.original_label_edge is None,
    {
        LabelProps { placement: EdgeLabelPlacement::Center, node_placement: None, inline: false, original_label_edge: None }
    }
}

/// Where along its edge a label is placed.
#[derive(Debug, Clone, Copy, PartialEq, Eq, Structural)]
pub enum EdgeLabelPlacement {
    Center,
    Head,
    Tail,
}

impl Default for EdgeLabelPlacement {
    fn default() -> (r: Self)
        ensures
            r == EdgeLabelPlacement::Center,
    {
        EdgeLabelPlacement::Center
    }
}

} // verus!
