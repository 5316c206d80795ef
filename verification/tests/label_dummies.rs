use typstuml::layout::elk::alg::graph::{LGraphArena, LGraphId, LNodeId, LPortId, NodeType};
use typstuml::layout::elk::alg::label_dummies::{chain, label_dummy_infos, label_dummy_switcher};
use typstuml::layout::elk::alg::high_degree::Dir;
use typstuml::layout::elk::alg::options::PortSide;

fn connect(arena: &mut LGraphArena, from: LPortId, to: LPortId) {
    let e = arena.new_edge();
    arena.edge_set_source(e, Some(from));
    arena.edge_set_target(e, Some(to));
}

/// A dummy node of `kind` in `layer`, with a west and an east port.
fn dummy(arena: &mut LGraphArena, g: LGraphId, kind: NodeType, layer: usize) -> (LNodeId, LPortId, LPortId) {
    let n = arena.new_node(g);
    arena.nodes[n.0].node_type = kind;
    arena.node_set_layer(g, n, Some(layer));
    let west = arena.new_port(n);
    arena.port_set_side(west, PortSide::West);
    let east = arena.new_port(n);
    arena.port_set_side(east, PortSide::East);
    (n, west, east)
}

/// a (layer 0) -> label (1) -> d1 (2) -> d2 (3) -> b (4).
fn label_first() -> (LGraphArena, LGraphId, [LNodeId; 5]) {
    let mut arena = LGraphArena::default();
    let g = arena.new_graph();
    for at in 0..5 {
        arena.insert_layer(g, at);
    }
    let (a, _, pa) = dummy(&mut arena, g, NodeType::Normal, 0);
    let (label, lw, le) = dummy(&mut arena, g, NodeType::Label, 1);
    let (d1, w1, e1) = dummy(&mut arena, g, NodeType::LongEdge, 2);
    let (d2, w2, e2) = dummy(&mut arena, g, NodeType::LongEdge, 3);
    let (b, pb, _) = dummy(&mut arena, g, NodeType::Normal, 4);
    connect(&mut arena, pa, lw);
    connect(&mut arena, le, w1);
    connect(&mut arena, e1, w2);
    connect(&mut arena, e2, pb);
    (arena, g, [a, label, d1, d2, b])
}

fn layers(arena: &LGraphArena, g: LGraphId) -> Vec<Vec<usize>> {
    arena.graphs[g.0].layers.iter().map(|l| l.nodes.iter().map(|n| n.0).collect()).collect()
}

#[test]
fn chain_walks_the_long_edge_dummies() {
    let (arena, _, [a, label, d1, d2, b]) = label_first();
    assert_eq!(chain(&arena, label, Dir::Outgoing), vec![d1, d2]);
    assert_eq!(chain(&arena, label, Dir::Incoming), vec![]);
    assert_eq!(chain(&arena, b, Dir::Incoming), vec![d2, d1]);
    assert_eq!(chain(&arena, a, Dir::Outgoing), vec![]);
}

#[test]
fn label_dummy_infos_span_the_chain() {
    let (arena, g, [_, label, d1, d2, _]) = label_first();
    let infos = label_dummy_infos(&arena, g);
    assert_eq!(infos.len(), 1);
    assert_eq!(infos[0].label_dummy, label);
    assert!(infos[0].left.is_empty());
    assert_eq!(infos[0].right, vec![d1, d2]);
    assert_eq!(infos[0].leftmost_layer, 1);
    assert_eq!(infos[0].rightmost_layer, 3);
}

#[test]
fn label_dummy_moves_to_the_median_layer() {
    let (mut arena, g, [a, label, d1, d2, b]) = label_first();
    label_dummy_switcher(&mut arena, g);
    assert_eq!(arena.nodes[label.0].layer, Some(2));
    assert_eq!(arena.nodes[d1.0].layer, Some(1));
    assert_eq!(layers(&arena, g), vec![vec![a.0], vec![d1.0], vec![label.0], vec![d2.0], vec![b.0]]);
    // The edges follow: a -> d1 -> label -> d2 -> b.
    assert_eq!(chain(&arena, b, Dir::Incoming), vec![d2]);
    assert_eq!(chain(&arena, label, Dir::Incoming), vec![d1]);
    assert_eq!(chain(&arena, label, Dir::Outgoing), vec![d2]);
    assert!(arena.nodes[d1.0].props.long_edge_before_label_dummy);
    assert!(!arena.nodes[d2.0].props.long_edge_before_label_dummy);
    assert!(!arena.nodes[a.0].props.long_edge_before_label_dummy);
}

#[test]
fn label_dummy_already_in_the_median_stays() {
    // a (0) -> d1 (1) -> label (2) -> d2 (3) -> b (4)
    let mut arena = LGraphArena::default();
    let g = arena.new_graph();
    for at in 0..5 {
        arena.insert_layer(g, at);
    }
    let (a, _, pa) = dummy(&mut arena, g, NodeType::Normal, 0);
    let (d1, w1, e1) = dummy(&mut arena, g, NodeType::LongEdge, 1);
    let (label, lw, le) = dummy(&mut arena, g, NodeType::Label, 2);
    let (d2, w2, e2) = dummy(&mut arena, g, NodeType::LongEdge, 3);
    let (b, pb, _) = dummy(&mut arena, g, NodeType::Normal, 4);
    connect(&mut arena, pa, w1);
    connect(&mut arena, e1, lw);
    connect(&mut arena, le, w2);
    connect(&mut arena, e2, pb);
    label_dummy_switcher(&mut arena, g);
    assert_eq!(layers(&arena, g), vec![vec![a.0], vec![d1.0], vec![label.0], vec![d2.0], vec![b.0]]);
    assert!(arena.nodes[d1.0].props.long_edge_before_label_dummy);
    assert!(!arena.nodes[d2.0].props.long_edge_before_label_dummy);
}
