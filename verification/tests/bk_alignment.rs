use typstuml::layout::elk::alg::graph::{LEdgeId, LGraphArena, LNodeId, LPortId};
use typstuml::layout::elk::alg::graph::NodeType;
use typstuml::layout::elk::alg::p4nodes::bk::{mark_conflicts, vertical_alignment, BkAlignment, Neighborhood};

fn connect(arena: &mut LGraphArena, from: LPortId, to: LPortId) -> LEdgeId {
    let e = arena.new_edge();
    arena.edge_set_source(e, Some(from));
    arena.edge_set_target(e, Some(to));
    e
}

/// Two nodes in the first layer, both leading to one node in the second.
fn two_into_one() -> (LGraphArena, typstuml::layout::elk::alg::graph::LGraphId, [LNodeId; 3], [LEdgeId; 2]) {
    let mut arena = LGraphArena::default();
    let g = arena.new_graph();
    arena.insert_layer(g, 0);
    arena.insert_layer(g, 1);
    let a = arena.new_node(g);
    let b = arena.new_node(g);
    let c = arena.new_node(g);
    arena.node_set_layer(g, a, Some(0));
    arena.node_set_layer(g, b, Some(0));
    arena.node_set_layer(g, c, Some(1));
    let pa = arena.new_port(a);
    let pb = arena.new_port(b);
    let pc = arena.new_port(c);
    let e1 = connect(&mut arena, pa, pc);
    let e2 = connect(&mut arena, pb, pc);
    arena.nodes[a.0].id = 0;
    arena.nodes[b.0].id = 1;
    arena.nodes[c.0].id = 2;
    (arena, g, [a, b, c], [e1, e2])
}

fn neighborhood(n: [LNodeId; 3], e: [LEdgeId; 2]) -> Neighborhood {
    Neighborhood {
        node_index: vec![0, 1, 0],
        left_neighbors: vec![vec![], vec![], vec![(n[0], e[0]), (n[1], e[1])]],
        right_neighbors: vec![vec![(n[2], e[0])], vec![(n[2], e[1])], vec![]],
    }
}

#[test]
fn aligns_with_the_upper_median_neighbour() {
    let (arena, g, n, e) = two_into_one();
    let ni = neighborhood(n, e);
    let mut bal = BkAlignment { root: vec![n[0]; 3], align: vec![n[0]; 3], od: vec![true; 3] };
    vertical_alignment(&arena, g, &ni, false, false, &vec![], &mut bal);
    assert_eq!(bal.root, vec![n[0], n[1], n[0]]);
    assert_eq!(bal.align, vec![n[2], n[1], n[0]]);
    assert_eq!(bal.od, vec![false, true, true]);
}

#[test]
fn skips_a_marked_edge() {
    let (arena, g, n, e) = two_into_one();
    let ni = neighborhood(n, e);
    let mut bal = BkAlignment { root: vec![n[0]; 3], align: vec![n[0]; 3], od: vec![true; 3] };
    vertical_alignment(&arena, g, &ni, false, false, &vec![e[0]], &mut bal);
    assert_eq!(bal.root, vec![n[0], n[1], n[1]]);
    assert_eq!(bal.align, vec![n[0], n[2], n[1]]);
    assert_eq!(bal.od, vec![true, false, true]);
}

#[test]
fn aligning_upwards_takes_the_lower_median_first() {
    let (arena, g, n, e) = two_into_one();
    let ni = neighborhood(n, e);
    let mut bal = BkAlignment { root: vec![n[0]; 3], align: vec![n[0]; 3], od: vec![true; 3] };
    vertical_alignment(&arena, g, &ni, true, false, &vec![], &mut bal);
    assert_eq!(bal.root, vec![n[0], n[1], n[1]]);
    assert_eq!(bal.align, vec![n[0], n[2], n[1]]);
}

/// Three layers: `q`; `x` (a long-edge dummy) above `y`; `z` above `w` (a
/// long-edge dummy). The inner segment `x -> w` crosses `y -> z`.
fn crossing_inner_segment(dummies: bool) -> (LGraphArena, typstuml::layout::elk::alg::graph::LGraphId, Neighborhood, LEdgeId, LEdgeId) {
    let mut arena = LGraphArena::default();
    let g = arena.new_graph();
    for l in 0..3 {
        arena.insert_layer(g, l);
    }
    let q = arena.new_node(g);
    let x = arena.new_node(g);
    let y = arena.new_node(g);
    let z = arena.new_node(g);
    let w = arena.new_node(g);
    arena.node_set_layer(g, q, Some(0));
    arena.node_set_layer(g, x, Some(1));
    arena.node_set_layer(g, y, Some(1));
    arena.node_set_layer(g, z, Some(2));
    arena.node_set_layer(g, w, Some(2));
    if dummies {
        arena.nodes[x.0].node_type = NodeType::LongEdge;
        arena.nodes[w.0].node_type = NodeType::LongEdge;
    }
    let px = arena.new_port(x);
    let py = arena.new_port(y);
    let pz = arena.new_port(z);
    let pw = arena.new_port(w);
    let exw = connect(&mut arena, px, pw);
    let eyz = connect(&mut arena, py, pz);
    for (i, n) in [q, x, y, z, w].iter().enumerate() {
        arena.nodes[n.0].id = i;
    }
    let ni = Neighborhood {
        node_index: vec![0, 0, 1, 0, 1],
        left_neighbors: vec![vec![], vec![], vec![], vec![(y, eyz)], vec![(x, exw)]],
        right_neighbors: vec![vec![], vec![(w, exw)], vec![(z, eyz)], vec![], vec![]],
    };
    (arena, g, ni, exw, eyz)
}

#[test]
fn marks_the_edge_crossing_an_inner_segment() {
    let (arena, g, ni, _, eyz) = crossing_inner_segment(true);
    assert_eq!(mark_conflicts(&arena, g, &ni), vec![eyz]);
}

#[test]
fn marks_nothing_without_inner_segments() {
    let (arena, g, ni, _, _) = crossing_inner_segment(false);
    assert_eq!(mark_conflicts(&arena, g, &ni), Vec::<LEdgeId>::new());
}

#[test]
fn marking_every_edge_leaves_each_node_its_own_block() {
    let (arena, g, n, e) = two_into_one();
    let ni = neighborhood(n, e);
    let mut bal = BkAlignment { root: vec![n[0]; 3], align: vec![n[0]; 3], od: vec![true; 3] };
    vertical_alignment(&arena, g, &ni, false, false, &vec![e[0], e[1]], &mut bal);
    assert_eq!(bal.root, vec![n[0], n[1], n[2]]);
    assert_eq!(bal.align, vec![n[0], n[1], n[2]]);
    assert_eq!(bal.od, vec![true; 3]);
}
