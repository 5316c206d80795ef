//! Reading the layout options of a graph, one key and value at a time,
//! into its properties. Only the keys of the supported scope are
//! accepted; an option outside it is rejected rather than silently
//! ignored.

use vstd::prelude::*;
use crate::layout::elk::alg::options::{
    CycleBreakingStrategy, Direction, EdgeRouting, FixedAlignment, GraphProps, HierarchyHandling, OrderingStrategy,
};

verus! {

/// Why a layout option is refused.
#[derive(Debug, Clone, Copy, PartialEq, Eq, Structural)]
pub enum OptionError {
    /// The key is not one of the supported options.
    UnknownKey,
    /// The key is supported, the value is not one of its values.
    UnknownValue,
    /// The option asks for a feature outside the supported scope.
    Unsupported,
}

/// Whether two strings hold the same characters.
pub fn str_eq(a: &str, b: &str) -> (r: bool)
    ensures
        r == (a@ == b@),
{
    let n = a.unicode_len();
    if b.unicode_len() != n {
        return false;
    }
    let mut i: usize = 0;
    while i < n
        invariant
            n == a@.len(),
            b@.len() == n,
            i <= n,
            forall|k: int| 0 <= k < i ==> a@[k] == b@[k],
        decreases n - i,
    {
        if a.get_char(i) != b.get_char(i) {
            return false;
        }
        i += 1;
    }
    proof {
        assert(a@ =~= b@);
    }
    true
}

/// The boolean a value spells: `true` for exactly `"true"`, `false` for
/// anything else (an unreadable value falls back to the default, false).
pub open spec fn bool_value(v: Seq<char>) -> bool {
    v == "true"@
}

/// The keys whose values are numbers or geometry, read by the numeric
/// stage: the padding, the content alignment, the spacings and the
/// high-degree threshold.
pub open spec fn numeric_key(k: Seq<char>) -> bool {
    ||| k == "elk.padding"@
    ||| k == "elk.contentAlignment"@
    ||| k == "elk.spacing.nodeNode"@
    ||| k == "elk.spacing.edgeNode"@
    ||| k == "elk.spacing.edgeEdge"@
    ||| k == "elk.spacing.edgeLabel"@
    ||| k == "elk.spacing.nodeSelfLoop"@
    ||| k == "elk.spacing.componentComponent"@
    ||| k == "elk.layered.spacing.nodeNodeBetweenLayers"@
    ||| k == "elk.layered.spacing.edgeNodeBetweenLayers"@
    ||| k == "elk.layered.spacing.edgeEdgeBetweenLayers"@
    ||| k == "elk.layered.highDegreeNodes.threshold"@
}

/// What option `elk.algorithm` with value `v` makes of `p`.
pub open spec fn algorithm_effect(p: GraphProps, v: Seq<char>) -> Result<(GraphProps, bool), OptionError> {
    if v == "layered"@ {
        Ok((p, true))
    } else {
        Err(OptionError::Unsupported)
    }
}

/// What option `elk.direction` with value `v` makes of `p`.
pub open spec fn direction_effect(p: GraphProps, v: Seq<char>) -> Result<(GraphProps, bool), OptionError> {
    if v == "RIGHT"@ {
        Ok((GraphProps { direction: Direction::Right, ..p }, true))
    } else if v == "LEFT"@ {
        Ok((GraphProps { direction: Direction::Left, ..p }, true))
    } else if v == "DOWN"@ {
        Ok((GraphProps { direction: Direction::Down, ..p }, true))
    } else if v == "UP"@ {
        Ok((GraphProps { direction: Direction::Up, ..p }, true))
    } else {
        Err(OptionError::UnknownValue)
    }
}

/// What option `elk.edgeRouting` with value `v` makes of `p`.
pub open spec fn edge_routing_effect(p: GraphProps, v: Seq<char>) -> Result<(GraphProps, bool), OptionError> {
    if v == "ORTHOGONAL"@ {
        Ok((GraphProps { edge_routing: EdgeRouting::Orthogonal, ..p }, true))
    } else if v == "POLYLINE"@ {
        Ok((GraphProps { edge_routing: EdgeRouting::Polyline, ..p }, true))
    } else if v == "SPLINES"@ {
        Ok((GraphProps { edge_routing: EdgeRouting::Splines, ..p }, true))
    } else {
        Err(OptionError::UnknownValue)
    }
}

/// What option `elk.hierarchyHandling` with value `v` makes of `p`.
pub open spec fn hierarchy_effect(p: GraphProps, v: Seq<char>) -> Result<(GraphProps, bool), OptionError> {
    if v == "INCLUDE_CHILDREN"@ {
        Ok((GraphProps { hierarchy_handling: HierarchyHandling::IncludeChildren, ..p }, true))
    } else if v == "SEPARATE_CHILDREN"@ {
        Ok((GraphProps { hierarchy_handling: HierarchyHandling::SeparateChildren, ..p }, true))
    } else {
        Err(OptionError::UnknownValue)
    }
}

/// What option `elk.layered.considerModelOrder.strategy` with value `v` makes of `p`.
pub open spec fn model_order_effect(p: GraphProps, v: Seq<char>) -> Result<(GraphProps, bool), OptionError> {
    if v == "NODES_AND_EDGES"@ {
        Ok((GraphProps { consider_model_order: OrderingStrategy::NodesAndEdges, ..p }, true))
    } else if v == "PREFER_EDGES"@ {
        Ok((GraphProps { consider_model_order: OrderingStrategy::PreferEdges, ..p }, true))
    } else if v == "PREFER_NODES"@ {
        Ok((GraphProps { consider_model_order: OrderingStrategy::PreferNodes, ..p }, true))
    } else {
        Err(OptionError::UnknownValue)
    }
}

/// What option `elk.layered.cycleBreaking.strategy` with value `v` makes of `p`.
pub open spec fn cycle_breaking_effect(p: GraphProps, v: Seq<char>) -> Result<(GraphProps, bool), OptionError> {
    if v == "GREEDY"@ {
        Ok((GraphProps { cycle_breaking: CycleBreakingStrategy::Greedy, ..p }, true))
    } else if v == "MODEL_ORDER"@ {
        Ok((GraphProps { cycle_breaking: CycleBreakingStrategy::ModelOrder, ..p }, true))
    } else if v == "GREEDY_MODEL_ORDER"@ {
        Ok((GraphProps { cycle_breaking: CycleBreakingStrategy::GreedyModelOrder, ..p }, true))
    } else if v == "DEPTH_FIRST"@ {
        Ok((GraphProps { cycle_breaking: CycleBreakingStrategy::DepthFirst, ..p }, true))
    } else {
        Err(OptionError::UnknownValue)
    }
}

/// What option `elk.layered.mergeEdges` with value `v` makes of `p`.
pub open spec fn merge_edges_effect(p: GraphProps, v: Seq<char>) -> Result<(GraphProps, bool), OptionError> {
    if bool_value(v) {
        Err(OptionError::Unsupported)
    } else {
        Ok((GraphProps { merge_edges: false, ..p }, true))
    }
}

/// What option `elk.layered.nodePlacement.bk.fixedAlignment` with value `v` makes of `p`.
pub open spec fn fixed_alignment_effect(p: GraphProps, v: Seq<char>) -> Result<(GraphProps, bool), OptionError> {
    if v == "BALANCED"@ {
        Ok((GraphProps { bk_fixed_alignment: FixedAlignment::Balanced, ..p }, true))
    } else if v == "NONE"@ {
        Ok((GraphProps { bk_fixed_alignment: FixedAlignment::NoAlignment, ..p }, true))
    } else if v == "LEFTUP"@ {
        Ok((GraphProps { bk_fixed_alignment: FixedAlignment::LeftUp, ..p }, true))
    } else if v == "RIGHTUP"@ {
        Ok((GraphProps { bk_fixed_alignment: FixedAlignment::RightUp, ..p }, true))
    } else if v == "LEFTDOWN"@ {
        Ok((GraphProps { bk_fixed_alignment: FixedAlignment::LeftDown, ..p }, true))
    } else if v == "RIGHTDOWN"@ {
        Ok((GraphProps { bk_fixed_alignment: FixedAlignment::RightDown, ..p }, true))
    } else {
        Err(OptionError::UnknownValue)
    }
}

/// The value of `elk.layered.nodePlacement.bk.fixedAlignment` that names
/// alignment `al`.
pub open spec fn alignment_name(al: FixedAlignment) -> Seq<char> {
    match al {
        FixedAlignment::NoAlignment => "NONE"@,
        FixedAlignment::LeftUp => "LEFTUP"@,
        FixedAlignment::RightUp => "RIGHTUP"@,
        FixedAlignment::LeftDown => "LEFTDOWN"@,
        FixedAlignment::RightDown => "RIGHTDOWN"@,
        FixedAlignment::Balanced => "BALANCED"@,
    }
}

/// Reading the fixed alignment sets the alignment the value names: an
/// accepted value is read, sets `bk_fixed_alignment` to the variant of
/// that name and leaves every other property alone, so distinct values
/// give distinct variants; a value that names no alignment is refused as
/// an unknown value and changes nothing.
pub proof fn lemma_fixed_alignment_is_named_by_its_value(p: GraphProps, v: Seq<char>)
    ensures
        option_effect(p, "elk.layered.nodePlacement.bk.fixedAlignment"@, v) matches Ok((q, read)) ==> {
            &&& read
            &&& alignment_name(q.bk_fixed_alignment) == v
            &&& q == GraphProps { bk_fixed_alignment: q.bk_fixed_alignment, ..p }
        },
        option_effect(p, "elk.layered.nodePlacement.bk.fixedAlignment"@, v) is Err ==> {
            &&& option_effect(p, "elk.layered.nodePlacement.bk.fixedAlignment"@, v) == Err::<(GraphProps, bool), OptionError>(
                OptionError::UnknownValue,
            )
            &&& forall|al: FixedAlignment| alignment_name(al) != v
        },
{
    reveal_strlit("elk.layered.nodePlacement.bk.fixedAlignment");
    reveal_strlit("elk.algorithm");
    reveal_strlit("elk.direction");
    reveal_strlit("elk.edgeRouting");
    reveal_strlit("elk.hierarchyHandling");
    reveal_strlit("elk.layered.considerModelOrder.strategy");
    reveal_strlit("elk.layered.cycleBreaking.strategy");
    reveal_strlit("elk.layered.mergeEdges");
    let k = "elk.layered.nodePlacement.bk.fixedAlignment"@;
    assert(k.len() != "elk.algorithm"@.len());
    assert(k.len() != "elk.direction"@.len());
    assert(k.len() != "elk.edgeRouting"@.len());
    assert(k.len() != "elk.hierarchyHandling"@.len());
    assert(k.len() != "elk.layered.considerModelOrder.strategy"@.len());
    assert(k.len() != "elk.layered.cycleBreaking.strategy"@.len());
    assert(k.len() != "elk.layered.mergeEdges"@.len());
    assert(option_effect(p, k, v) == fixed_alignment_effect(p, v));
}

/// The value of `elk.direction` that names the layout direction `x`.
pub open spec fn direction_name(x: Direction) -> Seq<char> {
    match x {
        Direction::Undefined => "UNDEFINED"@,
        Direction::Right => "RIGHT"@,
        Direction::Left => "LEFT"@,
        Direction::Down => "DOWN"@,
        Direction::Up => "UP"@,
    }
}

/// Reading `elk.direction` sets the layout direction the value names: an accepted value is
/// read, sets `direction` to the variant of that name and leaves every other
/// property alone, so distinct values give distinct variants; any other
/// value is refused as an unknown value.
pub proof fn lemma_direction_is_named_by_its_value(p: GraphProps, v: Seq<char>)
    ensures
        option_effect(p, "elk.direction"@, v) matches Ok((q, read)) ==> {
            &&& read
            &&& direction_name(q.direction) == v
            &&& q == GraphProps { direction: q.direction, ..p }
        },
        option_effect(p, "elk.direction"@, v) is Err ==> option_effect(p, "elk.direction"@, v) == Err::<(GraphProps, bool), OptionError>(
            OptionError::UnknownValue,
        ),
{
    reveal_strlit("elk.algorithm");
    reveal_strlit("elk.direction");
    let k = "elk.direction"@;
    assert(k[4] != "elk.algorithm"@[4]);
    assert(option_effect(p, k, v) == direction_effect(p, v));
}

/// The value of `elk.edgeRouting` that names the edge routing `x`.
pub open spec fn edge_routing_name(x: EdgeRouting) -> Seq<char> {
    match x {
        EdgeRouting::Undefined => "UNDEFINED"@,
        EdgeRouting::Polyline => "POLYLINE"@,
        EdgeRouting::Orthogonal => "ORTHOGONAL"@,
        EdgeRouting::Splines => "SPLINES"@,
    }
}

/// Reading `elk.edgeRouting` sets the edge routing the value names: an accepted value is
/// read, sets `edge_routing` to the variant of that name and leaves every other
/// property alone, so distinct values give distinct variants; any other
/// value is refused as an unknown value.
pub proof fn lemma_edge_routing_is_named_by_its_value(p: GraphProps, v: Seq<char>)
    ensures
        option_effect(p, "elk.edgeRouting"@, v) matches Ok((q, read)) ==> {
            &&& read
            &&& edge_routing_name(q.edge_routing) == v
            &&& q == GraphProps { edge_routing: q.edge_routing, ..p }
        },
        option_effect(p, "elk.edgeRouting"@, v) is Err ==> option_effect(p, "elk.edgeRouting"@, v) == Err::<(GraphProps, bool), OptionError>(
            OptionError::UnknownValue,
        ),
{
    reveal_strlit("elk.algorithm");
    reveal_strlit("elk.direction");
    reveal_strlit("elk.edgeRouting");
    let k = "elk.edgeRouting"@;
    assert(k.len() != "elk.algorithm"@.len());
    assert(k.len() != "elk.direction"@.len());
    assert(option_effect(p, k, v) == edge_routing_effect(p, v));
}

/// The value of `elk.hierarchyHandling` that names the hierarchy handling `x`.
pub open spec fn hierarchy_name(x: HierarchyHandling) -> Seq<char> {
    match x {
        HierarchyHandling::Inherit => "INHERIT"@,
        HierarchyHandling::IncludeChildren => "INCLUDE_CHILDREN"@,
        HierarchyHandling::SeparateChildren => "SEPARATE_CHILDREN"@,
    }
}

/// Reading `elk.hierarchyHandling` sets the hierarchy handling the value names: an accepted value is
/// read, sets `hierarchy_handling` to the variant of that name and leaves every other
/// property alone, so distinct values give distinct variants; any other
/// value is refused as an unknown value.
pub proof fn lemma_hierarchy_is_named_by_its_value(p: GraphProps, v: Seq<char>)
    ensures
        option_effect(p, "elk.hierarchyHandling"@, v) matches Ok((q, read)) ==> {
            &&& read
            &&& hierarchy_name(q.hierarchy_handling) == v
            &&& q == GraphProps { hierarchy_handling: q.hierarchy_handling, ..p }
        },
        option_effect(p, "elk.hierarchyHandling"@, v) is Err ==> option_effect(p, "elk.hierarchyHandling"@, v) == Err::<(GraphProps, bool), OptionError>(
            OptionError::UnknownValue,
        ),
{
    reveal_strlit("elk.algorithm");
    reveal_strlit("elk.direction");
    reveal_strlit("elk.edgeRouting");
    reveal_strlit("elk.hierarchyHandling");
    let k = "elk.hierarchyHandling"@;
    assert(k.len() != "elk.algorithm"@.len());
    assert(k.len() != "elk.direction"@.len());
    assert(k.len() != "elk.edgeRouting"@.len());
    assert(option_effect(p, k, v) == hierarchy_effect(p, v));
}

/// The value of `elk.layered.considerModelOrder.strategy` that names the model-order strategy `x`.
pub open spec fn model_order_name(x: OrderingStrategy) -> Seq<char> {
    match x {
        OrderingStrategy::NoOrdering => "NONE"@,
        OrderingStrategy::NodesAndEdges => "NODES_AND_EDGES"@,
        OrderingStrategy::PreferEdges => "PREFER_EDGES"@,
        OrderingStrategy::PreferNodes => "PREFER_NODES"@,
    }
}

/// Reading `elk.layered.considerModelOrder.strategy` sets the model-order strategy the value names: an accepted value is
/// read, sets `consider_model_order` to the variant of that name and leaves every other
/// property alone, so distinct values give distinct variants; any other
/// value is refused as an unknown value.
pub proof fn lemma_model_order_is_named_by_its_value(p: GraphProps, v: Seq<char>)
    ensures
        option_effect(p, "elk.layered.considerModelOrder.strategy"@, v) matches Ok((q, read)) ==> {
            &&& read
            &&& model_order_name(q.consider_model_order) == v
            &&& q == GraphProps { consider_model_order: q.consider_model_order, ..p }
        },
        option_effect(p, "elk.layered.considerModelOrder.strategy"@, v) is Err ==> option_effect(p, "elk.layered.considerModelOrder.strategy"@, v) == Err::<(GraphProps, bool), OptionError>(
            OptionError::UnknownValue,
        ),
{
    reveal_strlit("elk.algorithm");
    reveal_strlit("elk.direction");
    reveal_strlit("elk.edgeRouting");
    reveal_strlit("elk.hierarchyHandling");
    reveal_strlit("elk.layered.considerModelOrder.strategy");
    let k = "elk.layered.considerModelOrder.strategy"@;
    assert(k.len() != "elk.algorithm"@.len());
    assert(k.len() != "elk.direction"@.len());
    assert(k.len() != "elk.edgeRouting"@.len());
    assert(k.len() != "elk.hierarchyHandling"@.len());
    assert(option_effect(p, k, v) == model_order_effect(p, v));
}

/// The value of `elk.layered.cycleBreaking.strategy` that names the cycle-breaking strategy `x`.
pub open spec fn cycle_breaking_name(x: CycleBreakingStrategy) -> Seq<char> {
    match x {
        CycleBreakingStrategy::Greedy => "GREEDY"@,
        CycleBreakingStrategy::DepthFirst => "DEPTH_FIRST"@,
        CycleBreakingStrategy::Interactive => "INTERACTIVE"@,
        CycleBreakingStrategy::ModelOrder => "MODEL_ORDER"@,
        CycleBreakingStrategy::GreedyModelOrder => "GREEDY_MODEL_ORDER"@,
    }
}

/// Reading `elk.layered.cycleBreaking.strategy` sets the cycle-breaking strategy the value names: an accepted value is
/// read, sets `cycle_breaking` to the variant of that name and leaves every other
/// property alone, so distinct values give distinct variants; any other
/// value is refused as an unknown value.
pub proof fn lemma_cycle_breaking_is_named_by_its_value(p: GraphProps, v: Seq<char>)
    ensures
        option_effect(p, "elk.layered.cycleBreaking.strategy"@, v) matches Ok((q, read)) ==> {
            &&& read
            &&& cycle_breaking_name(q.cycle_breaking) == v
            &&& q == GraphProps { cycle_breaking: q.cycle_breaking, ..p }
        },
        option_effect(p, "elk.layered.cycleBreaking.strategy"@, v) is Err ==> option_effect(p, "elk.layered.cycleBreaking.strategy"@, v) == Err::<(GraphProps, bool), OptionError>(
            OptionError::UnknownValue,
        ),
{
    reveal_strlit("elk.algorithm");
    reveal_strlit("elk.direction");
    reveal_strlit("elk.edgeRouting");
    reveal_strlit("elk.hierarchyHandling");
    reveal_strlit("elk.layered.considerModelOrder.strategy");
    reveal_strlit("elk.layered.cycleBreaking.strategy");
    let k = "elk.layered.cycleBreaking.strategy"@;
    assert(k.len() != "elk.algorithm"@.len());
    assert(k.len() != "elk.direction"@.len());
    assert(k.len() != "elk.edgeRouting"@.len());
    assert(k.len() != "elk.hierarchyHandling"@.len());
    assert(k.len() != "elk.layered.considerModelOrder.strategy"@.len());
    assert(option_effect(p, k, v) == cycle_breaking_effect(p, v));
}

/// What option `elk.layered.highDegreeNodes.treatment` with value `v` makes of `p`.
pub open spec fn treatment_effect(p: GraphProps, v: Seq<char>) -> Result<(GraphProps, bool), OptionError> {
    Ok((GraphProps { high_degree_nodes_treatment: bool_value(v), ..p }, true))
}

/// What option `elk.layered.compaction.postCompaction.strategy` with value `v` makes of `p`.
pub open spec fn post_compaction_effect(p: GraphProps, v: Seq<char>) -> Result<(GraphProps, bool), OptionError> {
    if v == "LEFT"@ {
        Ok((GraphProps { post_compaction_left: true, ..p }, true))
    } else if v == "NONE"@ {
        Ok((GraphProps { post_compaction_left: false, ..p }, true))
    } else {
        Err(OptionError::Unsupported)
    }
}

fn apply_algorithm(props: &mut GraphProps, value: &str) -> (r: Result<bool, OptionError>)
    ensures
        match algorithm_effect(*old(props), value@) {
            Ok((p, read)) => r == Ok::<bool, OptionError>(read) && *final(props) == p,
            Err(err) => r == Err::<bool, OptionError>(err) && *final(props) == *old(props),
        },
{
    if str_eq(value, "layered") {
        Ok(true)
    } else {
        Err(OptionError::Unsupported)
    }
}

fn apply_direction(props: &mut GraphProps, value: &str) -> (r: Result<bool, OptionError>)
    ensures
        match direction_effect(*old(props), value@) {
            Ok((p, read)) => r == Ok::<bool, OptionError>(read) && *final(props) == p,
            Err(err) => r == Err::<bool, OptionError>(err) && *final(props) == *old(props),
        },
{
    if str_eq(value, "RIGHT") {
        props.direction = Direction::Right;
        Ok(true)
    } else if str_eq(value, "LEFT") {
        props.direction = Direction::Left;
        Ok(true)
    } else if str_eq(value, "DOWN") {
        props.direction = Direction::Down;
        Ok(true)
    } else if str_eq(value, "UP") {
        props.direction = Direction::Up;
        Ok(true)
    } else {
        Err(OptionError::UnknownValue)
    }
}

fn apply_edge_routing(props: &mut GraphProps, value: &str) -> (r: Result<bool, OptionError>)
    ensures
        match edge_routing_effect(*old(props), value@) {
            Ok((p, read)) => r == Ok::<bool, OptionError>(read) && *final(props) == p,
            Err(err) => r == Err::<bool, OptionError>(err) && *final(props) == *old(props),
        },
{
    if str_eq(value, "ORTHOGONAL") {
        props.edge_routing = EdgeRouting::Orthogonal;
        Ok(true)
    } else if str_eq(value, "POLYLINE") {
        props.edge_routing = EdgeRouting::Polyline;
        Ok(true)
    } else if str_eq(value, "SPLINES") {
        props.edge_routing = EdgeRouting::Splines;
        Ok(true)
    } else {
        Err(OptionError::UnknownValue)
    }
}

fn apply_hierarchy(props: &mut GraphProps, value: &str) -> (r: Result<bool, OptionError>)
    ensures
        match hierarchy_effect(*old(props), value@) {
            Ok((p, read)) => r == Ok::<bool, OptionError>(read) && *final(props) == p,
            Err(err) => r == Err::<bool, OptionError>(err) && *final(props) == *old(props),
        },
{
    if str_eq(value, "INCLUDE_CHILDREN") {
        props.hierarchy_handling = HierarchyHandling::IncludeChildren;
        Ok(true)
    } else if str_eq(value, "SEPARATE_CHILDREN") {
        props.hierarchy_handling = HierarchyHandling::SeparateChildren;
        Ok(true)
    } else {
        Err(OptionError::UnknownValue)
    }
}

fn apply_model_order(props: &mut GraphProps, value: &str) -> (r: Result<bool, OptionError>)
    ensures
        match model_order_effect(*old(props), value@) {
            Ok((p, read)) => r == Ok::<bool, OptionError>(read) && *final(props) == p,
            Err(err) => r == Err::<bool, OptionError>(err) && *final(props) == *old(props),
        },
{
    if str_eq(value, "NODES_AND_EDGES") {
        props.consider_model_order = OrderingStrategy::NodesAndEdges;
        Ok(true)
    } else if str_eq(value, "PREFER_EDGES") {
        props.consider_model_order = OrderingStrategy::PreferEdges;
        Ok(true)
    } else if str_eq(value, "PREFER_NODES") {
        props.consider_model_order = OrderingStrategy::PreferNodes;
        Ok(true)
    } else {
        Err(OptionError::UnknownValue)
    }
}

fn apply_cycle_breaking(props: &mut GraphProps, value: &str) -> (r: Result<bool, OptionError>)
    ensures
        match cycle_breaking_effect(*old(props), value@) {
            Ok((p, read)) => r == Ok::<bool, OptionError>(read) && *final(props) == p,
            Err(err) => r == Err::<bool, OptionError>(err) && *final(props) == *old(props),
        },
{
    if str_eq(value, "GREEDY") {
        props.cycle_breaking = CycleBreakingStrategy::Greedy;
        Ok(true)
    } else if str_eq(value, "MODEL_ORDER") {
        props.cycle_breaking = CycleBreakingStrategy::ModelOrder;
        Ok(true)
    } else if str_eq(value, "GREEDY_MODEL_ORDER") {
        props.cycle_breaking = CycleBreakingStrategy::GreedyModelOrder;
        Ok(true)
    } else if str_eq(value, "DEPTH_FIRST") {
        props.cycle_breaking = CycleBreakingStrategy::DepthFirst;
        Ok(true)
    } else {
        Err(OptionError::UnknownValue)
    }
}

fn apply_merge_edges(props: &mut GraphProps, value: &str) -> (r: Result<bool, OptionError>)
    ensures
        match merge_edges_effect(*old(props), value@) {
            Ok((p, read)) => r == Ok::<bool, OptionError>(read) && *final(props) == p,
            Err(err) => r == Err::<bool, OptionError>(err) && *final(props) == *old(props),
        },
{
    if str_eq(value, "true") {
        Err(OptionError::Unsupported)
    } else {
        props.merge_edges = false;
        Ok(true)
    }
}

fn apply_fixed_alignment(props: &mut GraphProps, value: &str) -> (r: Result<bool, OptionError>)
    ensures
        match fixed_alignment_effect(*old(props), value@) {
            Ok((p, read)) => r == Ok::<bool, OptionError>(read) && *final(props) == p,
            Err(err) => r == Err::<bool, OptionError>(err) && *final(props) == *old(props),
        },
{
    if str_eq(value, "BALANCED") {
        props.bk_fixed_alignment = FixedAlignment::Balanced;
        Ok(true)
    } else if str_eq(value, "NONE") {
        props.bk_fixed_alignment = FixedAlignment::NoAlignment;
        Ok(true)
    } else if str_eq(value, "LEFTUP") {
        props.bk_fixed_alignment = FixedAlignment::LeftUp;
        Ok(true)
    } else if str_eq(value, "RIGHTUP") {
        props.bk_fixed_alignment = FixedAlignment::RightUp;
        Ok(true)
    } else if str_eq(value, "LEFTDOWN") {
        props.bk_fixed_alignment = FixedAlignment::LeftDown;
        Ok(true)
    } else if str_eq(value, "RIGHTDOWN") {
        props.bk_fixed_alignment = FixedAlignment::RightDown;
        Ok(true)
    } else {
        Err(OptionError::UnknownValue)
    }
}

fn apply_treatment(props: &mut GraphProps, value: &str) -> (r: Result<bool, OptionError>)
    ensures
        match treatment_effect(*old(props), value@) {
            Ok((p, read)) => r == Ok::<bool, OptionError>(read) && *final(props) == p,
            Err(err) => r == Err::<bool, OptionError>(err) && *final(props) == *old(props),
        },
{
    props.high_degree_nodes_treatment = str_eq(value, "true");
    Ok(true)
}

fn apply_post_compaction(props: &mut GraphProps, value: &str) -> (r: Result<bool, OptionError>)
    ensures
        match post_compaction_effect(*old(props), value@) {
            Ok((p, read)) => r == Ok::<bool, OptionError>(read) && *final(props) == p,
            Err(err) => r == Err::<bool, OptionError>(err) && *final(props) == *old(props),
        },
{
    if str_eq(value, "LEFT") {
        props.post_compaction_left = true;
        Ok(true)
    } else if str_eq(value, "NONE") {
        props.post_compaction_left = false;
        Ok(true)
    } else {
        Err(OptionError::Unsupported)
    }
}

/// What option `k` with value `v` makes of the properties `p`: the new
/// properties and whether this key was read here (`false` for a numeric
/// key, left to the numeric stage), or why the option is refused.
pub open spec fn option_effect(p: GraphProps, k: Seq<char>, v: Seq<char>) -> Result<(GraphProps, bool), OptionError> {
    if k == "elk.algorithm"@ {
        algorithm_effect(p, v)
    } else if k == "elk.direction"@ {
        direction_effect(p, v)
    } else if k == "elk.edgeRouting"@ {
        edge_routing_effect(p, v)
    } else if k == "elk.hierarchyHandling"@ {
        hierarchy_effect(p, v)
    } else if k == "elk.layered.considerModelOrder.strategy"@ {
        model_order_effect(p, v)
    } else if k == "elk.layered.cycleBreaking.strategy"@ {
        cycle_breaking_effect(p, v)
    } else if k == "elk.layered.mergeEdges"@ {
        merge_edges_effect(p, v)
    } else if k == "elk.layered.nodePlacement.bk.fixedAlignment"@ {
        fixed_alignment_effect(p, v)
    } else if k == "elk.layered.highDegreeNodes.treatment"@ {
        treatment_effect(p, v)
    } else if k == "elk.layered.compaction.postCompaction.strategy"@ {
        post_compaction_effect(p, v)
    } else if numeric_key(k) {
        Ok((p, false))
    } else {
        Err(OptionError::UnknownKey)
    }
}

/// Applies layout option `key` with value `value` to `props`. Returns
/// whether the key was read here (numeric keys are left to the numeric
/// stage), or why the option is refused; a refused option leaves `props`
/// as it was.
pub fn parse_graph_option(props: &mut GraphProps, key: &str, value: &str) -> (r: Result<bool, OptionError>)
    ensures
        match option_effect(*old(props), key@, value@) {
            Ok((p, read)) => r == Ok::<bool, OptionError>(read) && *final(props) == p,
            Err(err) => r == Err::<bool, OptionError>(err) && *final(props) == *old(props),
        },
{
    if str_eq(key, "elk.algorithm") {
        apply_algorithm(props, value)
    } else if str_eq(key, "elk.direction") {
        apply_direction(props, value)
    } else if str_eq(key, "elk.edgeRouting") {
        apply_edge_routing(props, value)
    } else if str_eq(key, "elk.hierarchyHandling") {
        apply_hierarchy(props, value)
    } else if str_eq(key, "elk.layered.considerModelOrder.strategy") {
        apply_model_order(props, value)
    } else if str_eq(key, "elk.layered.cycleBreaking.strategy") {
        apply_cycle_breaking(props, value)
    } else if str_eq(key, "elk.layered.mergeEdges") {
        apply_merge_edges(props, value)
    } else if str_eq(key, "elk.layered.nodePlacement.bk.fixedAlignment") {
        apply_fixed_alignment(props, value)
    } else if str_eq(key, "elk.layered.highDegreeNodes.treatment") {
        apply_treatment(props, value)
    } else if str_eq(key, "elk.layered.compaction.postCompaction.strategy") {
        apply_post_compaction(props, value)
    } else if str_eq(key, "elk.padding") || str_eq(key, "elk.contentAlignment") || str_eq(key, "elk.spacing.nodeNode")
        || str_eq(key, "elk.spacing.edgeNode") || str_eq(key, "elk.spacing.edgeEdge") || str_eq(
        key,
        "elk.spacing.edgeLabel",
    ) || str_eq(key, "elk.spacing.nodeSelfLoop") || str_eq(key, "elk.spacing.componentComponent") || str_eq(
        key,
        "elk.layered.spacing.nodeNodeBetweenLayers",
    ) || str_eq(key, "elk.layered.spacing.edgeNodeBetweenLayers") || str_eq(
        key,
        "elk.layered.spacing.edgeEdgeBetweenLayers",
    ) || str_eq(key, "elk.layered.highDegreeNodes.threshold") {
        Ok(false)
    } else {
        Err(OptionError::UnknownKey)
    }
}

} // verus!
