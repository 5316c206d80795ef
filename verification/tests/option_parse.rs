use typstuml::layout::elk::alg::option_parse::{parse_graph_option, OptionError};
use typstuml::layout::elk::alg::options::{
    CycleBreakingStrategy, Direction, EdgeRouting, FixedAlignment, GraphProps, HierarchyHandling, OrderingStrategy,
};

#[test]
fn known_options_set_their_fields() {
    let mut p = GraphProps::default();
    assert_eq!(parse_graph_option(&mut p, "elk.algorithm", "layered"), Ok(true));
    assert_eq!(parse_graph_option(&mut p, "elk.direction", "DOWN"), Ok(true));
    assert_eq!(p.direction, Direction::Down);
    assert_eq!(parse_graph_option(&mut p, "elk.edgeRouting", "ORTHOGONAL"), Ok(true));
    assert_eq!(p.edge_routing, EdgeRouting::Orthogonal);
    assert_eq!(parse_graph_option(&mut p, "elk.hierarchyHandling", "INCLUDE_CHILDREN"), Ok(true));
    assert_eq!(p.hierarchy_handling, HierarchyHandling::IncludeChildren);
    assert_eq!(parse_graph_option(&mut p, "elk.layered.considerModelOrder.strategy", "PREFER_EDGES"), Ok(true));
    assert_eq!(p.consider_model_order, OrderingStrategy::PreferEdges);
    assert_eq!(parse_graph_option(&mut p, "elk.layered.cycleBreaking.strategy", "DEPTH_FIRST"), Ok(true));
    assert_eq!(p.cycle_breaking, CycleBreakingStrategy::DepthFirst);
    assert_eq!(parse_graph_option(&mut p, "elk.layered.nodePlacement.bk.fixedAlignment", "LEFTDOWN"), Ok(true));
    assert_eq!(p.bk_fixed_alignment, FixedAlignment::LeftDown);
    assert_eq!(parse_graph_option(&mut p, "elk.layered.highDegreeNodes.treatment", "true"), Ok(true));
    assert!(p.high_degree_nodes_treatment);
    assert_eq!(parse_graph_option(&mut p, "elk.layered.compaction.postCompaction.strategy", "LEFT"), Ok(true));
    assert!(p.post_compaction_left);
    assert_eq!(parse_graph_option(&mut p, "elk.layered.mergeEdges", "false"), Ok(true));
    assert!(!p.merge_edges);
}

#[test]
fn numeric_options_are_left_to_the_numeric_stage() {
    let mut p = GraphProps::default();
    let before = p.clone();
    assert_eq!(parse_graph_option(&mut p, "elk.spacing.nodeNode", "20"), Ok(false));
    assert_eq!(parse_graph_option(&mut p, "elk.layered.highDegreeNodes.threshold", "8"), Ok(false));
    assert_eq!(p, before);
}

#[test]
fn refused_options_leave_the_properties_alone() {
    let mut p = GraphProps::default();
    let before = p.clone();
    assert_eq!(parse_graph_option(&mut p, "elk.algorithm", "force"), Err(OptionError::Unsupported));
    assert_eq!(parse_graph_option(&mut p, "elk.direction", "SIDEWAYS"), Err(OptionError::UnknownValue));
    assert_eq!(parse_graph_option(&mut p, "elk.layered.mergeEdges", "true"), Err(OptionError::Unsupported));
    assert_eq!(parse_graph_option(&mut p, "elk.layered.compaction.postCompaction.strategy", "EDGE_LENGTH"), Err(OptionError::Unsupported));
    assert_eq!(parse_graph_option(&mut p, "elk.spacing.portPort", "3"), Err(OptionError::UnknownKey));
    assert_eq!(p, before);
}
