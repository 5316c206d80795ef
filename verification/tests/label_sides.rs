use typstuml::layout::elk::alg::graph::{LGraphArena, LGraphId, LNodeId, NodeType};
use typstuml::layout::elk::alg::label_sides::label_side_selector;
use typstuml::layout::elk::alg::options::LabelSide;

fn node(arena: &mut LGraphArena, g: LGraphId, kind: NodeType, layer: usize) -> LNodeId {
    let n = arena.new_node(g);
    arena.nodes[n.0].node_type = kind;
    arena.node_set_layer(g, n, Some(layer));
    if kind == NodeType::Label {
        let l = arena.new_label("x".to_string());
        arena.nodes[n.0].props.represented_labels.push(l);
    }
    n
}

#[test]
fn label_sides_follow_the_runs_of_each_layer() {
    let mut arena = LGraphArena::default();
    let g = arena.new_graph();
    for at in 0..4 {
        arena.insert_layer(g, at);
    }
    // Layer 0: a lone label dummy on top goes above.
    let l1 = node(&mut arena, g, NodeType::Label, 0);
    node(&mut arena, g, NodeType::Normal, 0);
    // Layer 1: a lone label dummy at the bottom goes below.
    node(&mut arena, g, NodeType::Normal, 1);
    let l2 = node(&mut arena, g, NodeType::Label, 1);
    // Layer 2: two dummies between plain nodes go above and below.
    node(&mut arena, g, NodeType::Normal, 2);
    let l3 = node(&mut arena, g, NodeType::Label, 2);
    let l4 = node(&mut arena, g, NodeType::Label, 2);
    node(&mut arena, g, NodeType::Normal, 2);
    // Layer 3: three dummies of one edge take the default side.
    node(&mut arena, g, NodeType::Normal, 3);
    let l5 = node(&mut arena, g, NodeType::Label, 3);
    node(&mut arena, g, NodeType::LongEdge, 3);
    let l6 = node(&mut arena, g, NodeType::Label, 3);
    node(&mut arena, g, NodeType::Normal, 3);
    label_side_selector(&mut arena, g);
    assert_eq!(arena.nodes[l1.0].props.label_side, LabelSide::Above);
    assert_eq!(arena.nodes[l2.0].props.label_side, LabelSide::Below);
    assert_eq!(arena.nodes[l3.0].props.label_side, LabelSide::Above);
    assert_eq!(arena.nodes[l4.0].props.label_side, LabelSide::Below);
    assert_eq!(arena.nodes[l5.0].props.label_side, LabelSide::Below);
    assert_eq!(arena.nodes[l6.0].props.label_side, LabelSide::Below);
}

#[test]
fn inline_labels_stay_on_their_edge() {
    let mut arena = LGraphArena::default();
    let g = arena.new_graph();
    arena.insert_layer(g, 0);
    let l = node(&mut arena, g, NodeType::Label, 0);
    let label = arena.nodes[l.0].props.represented_labels[0];
    arena.labels[label.0].props.inline = true;
    node(&mut arena, g, NodeType::Normal, 0);
    label_side_selector(&mut arena, g);
    assert_eq!(arena.nodes[l.0].props.label_side, LabelSide::Inline);
}
