use typstuml::layout::elk::alg::graph::{LEdgeId, LGraphArena, LNodeId, LPortId};
use typstuml::layout::elk::alg::p2_layers::{connected_components, dfs};

fn connect(arena: &mut LGraphArena, from: LPortId, to: LPortId) -> LEdgeId {
    let e = arena.new_edge();
    arena.edge_set_source(e, Some(from));
    arena.edge_set_target(e, Some(to));
    e
}

/// `count` nodes of one graph, each with one port.
fn nodes_with_ports(arena: &mut LGraphArena, count: usize) -> (Vec<LNodeId>, Vec<LPortId>) {
    let g = arena.new_graph();
    let mut nodes = Vec::new();
    let mut ports = Vec::new();
    for _ in 0..count {
        let n = arena.new_node(g);
        nodes.push(n);
        ports.push(arena.new_port(n));
    }
    (nodes, ports)
}

#[test]
fn larger_later_component_goes_first() {
    let mut arena = LGraphArena::default();
    let (n, p) = nodes_with_ports(&mut arena, 5);
    connect(&mut arena, p[0], p[1]);
    connect(&mut arena, p[2], p[3]);
    connect(&mut arena, p[3], p[4]);
    let comps = connected_components(&arena, &n);
    assert_eq!(comps, vec![vec![n[2], n[3], n[4]], vec![n[0], n[1]]]);
}

#[test]
fn smaller_component_goes_to_the_back() {
    let mut arena = LGraphArena::default();
    let (n, p) = nodes_with_ports(&mut arena, 6);
    // {0}, {1, 2, 3}, {4, 5}
    connect(&mut arena, p[1], p[2]);
    connect(&mut arena, p[2], p[3]);
    connect(&mut arena, p[4], p[5]);
    let comps = connected_components(&arena, &n);
    assert_eq!(comps, vec![vec![n[1], n[2], n[3]], vec![n[0]], vec![n[4], n[5]]]);
}

#[test]
fn equal_sizes_keep_the_order_found() {
    let mut arena = LGraphArena::default();
    let (n, p) = nodes_with_ports(&mut arena, 3);
    // 0 -> 1 -> 2, but 1 is not among the nodes to split
    connect(&mut arena, p[0], p[1]);
    connect(&mut arena, p[1], p[2]);
    let comps = connected_components(&arena, &vec![n[0], n[2]]);
    assert_eq!(comps, vec![vec![n[0]], vec![n[2]]]);
}

#[test]
fn no_nodes_give_no_components() {
    let mut arena = LGraphArena::default();
    let (_n, _p) = nodes_with_ports(&mut arena, 2);
    let comps = connected_components(&arena, &Vec::new());
    assert!(comps.is_empty());
}

#[test]
fn repeated_nodes_are_searched_once() {
    let mut arena = LGraphArena::default();
    let (n, p) = nodes_with_ports(&mut arena, 2);
    connect(&mut arena, p[0], p[1]);
    let comps = connected_components(&arena, &vec![n[1], n[0], n[1]]);
    assert_eq!(comps, vec![vec![n[1], n[0]]]);
}

#[test]
fn search_goes_depth_first_port_by_port() {
    let mut arena = LGraphArena::default();
    let (n, p) = nodes_with_ports(&mut arena, 4);
    let second = arena.new_port(n[0]);
    connect(&mut arena, p[0], p[1]); // a -> b at the first port of a
    connect(&mut arena, p[1], p[3]); // b -> d
    connect(&mut arena, p[2], second); // c -> a at the second port of a
    let set = vec![true; 4];
    let mut visited = vec![false; 4];
    let mut out = Vec::new();
    dfs(&arena, n[0], &set, &mut visited, &mut out);
    assert_eq!(out, vec![n[0], n[1], n[3], n[2]]);
    assert_eq!(visited, vec![true; 4]);
}

#[test]
fn search_stops_at_nodes_outside_the_set() {
    let mut arena = LGraphArena::default();
    let (n, p) = nodes_with_ports(&mut arena, 3);
    connect(&mut arena, p[0], p[1]);
    connect(&mut arena, p[1], p[2]);
    let set = vec![true, false, true];
    let mut visited = vec![false; 3];
    let mut out = Vec::new();
    dfs(&arena, n[0], &set, &mut visited, &mut out);
    assert_eq!(out, vec![n[0]]);
    assert_eq!(visited, vec![true, false, false]);
}
