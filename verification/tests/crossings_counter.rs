use typstuml::layout::elk::alg::graph::{LGraphArena, LNodeId};
use typstuml::layout::elk::alg::options::PortSide;
use typstuml::layout::elk::alg::p3order::crossings_counter::{
    count_crossings_on_ports, count_in_layer_crossings_on_ports, CrossingsCounter,
};

fn connect(arena: &mut LGraphArena, src: LNodeId, tgt: LNodeId) {
    let sp = arena.new_port(src);
    arena.port_set_side(sp, PortSide::East);
    let tp = arena.new_port(tgt);
    arena.port_set_side(tp, PortSide::West);
    let e = arena.new_edge();
    arena.edge_set_source(e, Some(sp));
    arena.edge_set_target(e, Some(tp));
}

fn four_nodes() -> (LGraphArena, [LNodeId; 4]) {
    let mut arena = LGraphArena::default();
    let g = arena.new_graph();
    let a = arena.new_node(g);
    let b = arena.new_node(g);
    let c = arena.new_node(g);
    let d = arena.new_node(g);
    for (n, l) in [(a, 0usize), (b, 0), (c, 1), (d, 1)] {
        arena.nodes[n.0].layer = Some(l);
    }
    (arena, [a, b, c, d])
}

#[test]
fn counts_one_between_layer_crossing() {
    let (mut arena, [a, b, c, d]) = four_nodes();
    connect(&mut arena, a, d);
    connect(&mut arena, b, c);
    let positions = vec![0i32; arena.ports.len()];
    let mut counter = CrossingsCounter::new(&arena, positions);
    assert_eq!(counter.count_crossings_between_layers(&[a, b], &[c, d]), 1);
}

#[test]
fn counts_no_crossing_for_parallel_edges() {
    let (mut arena, [a, b, c, d]) = four_nodes();
    connect(&mut arena, a, c);
    connect(&mut arena, b, d);
    let positions = vec![0i32; arena.ports.len()];
    let mut counter = CrossingsCounter::new(&arena, positions);
    assert_eq!(counter.count_crossings_between_layers(&[a, b], &[c, d]), 0);
}

#[test]
fn the_walk_numbers_the_ports_counter_clockwise() {
    let (mut arena, [a, b, c, d]) = four_nodes();
    connect(&mut arena, a, d);
    connect(&mut arena, b, c);
    let positions = vec![0i32; arena.ports.len()];
    let mut counter = CrossingsCounter::new(&arena, positions);
    counter.count_crossings_between_layers(&[a, b], &[c, d]);
    // Ports in creation order: a's east, d's west, b's east, c's west.
    assert_eq!(counter.port_positions, vec![0, 2, 1, 3]);
}

// Two layers, each two nodes: a, b (left, a above b) and c, d (right, c
// above d). Walking counter-clockwise, the left layer's east ports get
// positions 0 (a) and 1 (b), the right layer's west ports, bottom-up,
// 2 (d) and 3 (c). Each entry lists the far ends of the edges at a port.

#[test]
fn interleaving_chords_cross_once() {
    // a -> d, b -> c: chords (0, 2) and (1, 3) interleave.
    let ends = vec![vec![2], vec![3], vec![0], vec![1]];
    assert_eq!(count_crossings_on_ports(&ends), 1);
}

#[test]
fn nested_chords_do_not_cross() {
    // a -> c, b -> d: chords (0, 3) and (1, 2) are nested.
    let ends = vec![vec![3], vec![2], vec![1], vec![0]];
    assert_eq!(count_crossings_on_ports(&ends), 0);
}

#[test]
fn complete_bipartite_two_by_two_crosses_once() {
    // a -> c, a -> d, b -> c, b -> d.
    let ends = vec![vec![2, 3], vec![2, 3], vec![0, 1], vec![0, 1]];
    assert_eq!(count_crossings_on_ports(&ends), 1);
}

#[test]
fn chords_sharing_an_end_do_not_cross() {
    let ends = vec![vec![2], vec![2], vec![0, 1]];
    assert_eq!(count_crossings_on_ports(&ends), 0);
}

#[test]
fn three_mutually_crossing_chords() {
    // (0, 3), (1, 4), (2, 5): every pair interleaves.
    let ends = vec![vec![3], vec![4], vec![5], vec![0], vec![1], vec![2]];
    assert_eq!(count_crossings_on_ports(&ends), 3);
}

#[test]
fn brute_force_agreement() {
    // chords given by pairs; count interleaving pairs directly.
    let chords = [(0usize, 5usize), (1, 3), (2, 7), (4, 6), (3, 8), (6, 9), (0, 9), (2, 4)];
    let n = 10;
    let mut ends = vec![Vec::new(); n];
    for &(a, b) in chords.iter() {
        ends[a].push(b);
        ends[b].push(a);
    }
    let mut expected = 0;
    for &(a, b) in chords.iter() {
        for &(c, d) in chords.iter() {
            if a < c && c < b && b < d {
                expected += 1;
            }
        }
    }
    assert_eq!(count_crossings_on_ports(&ends), expected);
}

#[test]
fn empty_sweep() {
    let ends: Vec<Vec<usize>> = Vec::new();
    assert_eq!(count_crossings_on_ports(&ends), 0);
    assert_eq!(count_in_layer_crossings_on_ports(&ends, &Vec::new()), 0);
}

#[test]
fn in_layer_edges_and_edges_leaving_the_layer() {
    // Positions 0..3 down one side. In-layer chords (0, 2) and (1, 3)
    // cross once; the port at 1 has two edges leaving the layer while
    // chord (0, 2) is open there, and the port at 3 one while none is.
    let ends = vec![vec![2], vec![3], vec![0], vec![1]];
    let between = vec![0, 2, 0, 1];
    assert_eq!(count_in_layer_crossings_on_ports(&ends, &between), 1 + 2);
}

fn east_port(arena: &mut LGraphArena, n: LNodeId) -> typstuml::layout::elk::alg::graph::LPortId {
    let p = arena.new_port(n);
    arena.port_set_side(p, PortSide::East);
    p
}

// One layer x, y, z (top-down) with an edge from x's east side to z's east
// side: a chord between positions 0 and 2 that passes y's east port.
fn looped_layer(leave_from_y: bool) -> (LGraphArena, [LNodeId; 3]) {
    let mut arena = LGraphArena::default();
    let g = arena.new_graph();
    let x = arena.new_node(g);
    let y = arena.new_node(g);
    let z = arena.new_node(g);
    let w = arena.new_node(g);
    for (n, l) in [(x, 0usize), (y, 0), (z, 0), (w, 1)] {
        arena.nodes[n.0].layer = Some(l);
    }
    let px = east_port(&mut arena, x);
    let pz = east_port(&mut arena, z);
    let e = arena.new_edge();
    arena.edge_set_source(e, Some(px));
    arena.edge_set_target(e, Some(pz));
    if leave_from_y {
        connect(&mut arena, y, w);
    } else {
        east_port(&mut arena, y);
    }
    (arena, [x, y, z])
}

#[test]
fn an_edge_leaving_the_layer_crosses_the_chord_around_it() {
    let (arena, [x, y, z]) = looped_layer(true);
    let positions = vec![0i32; arena.ports.len()];
    let mut counter = CrossingsCounter::new(&arena, positions);
    assert_eq!(counter.count_in_layer_crossings_on_side(&[x, y, z], PortSide::East), 1);
    // Ports in creation order: x's, z's, y's east port, then w's west port.
    assert_eq!(&counter.port_positions[..3], &[0, 2, 1]);
}

#[test]
fn a_chord_alone_in_its_layer_crosses_nothing() {
    let (arena, [x, y, z]) = looped_layer(false);
    let positions = vec![0i32; arena.ports.len()];
    let mut counter = CrossingsCounter::new(&arena, positions);
    assert_eq!(counter.count_in_layer_crossings_on_side(&[x, y, z], PortSide::East), 0);
}
