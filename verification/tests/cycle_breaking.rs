use typstuml::layout::elk::alg::graph::{LEdgeId, LGraphArena, LGraphId, LNodeId, LPortId};
use typstuml::layout::elk::alg::p1_cycles::break_cycles;
use typstuml::layout::elk::alg::intermediate::reversed_edge_restorer;
use typstuml::layout::elk::alg::random::JavaRandom;

fn connect(arena: &mut LGraphArena, from: LPortId, to: LPortId) -> LEdgeId {
    let e = arena.new_edge();
    arena.edge_set_source(e, Some(from));
    arena.edge_set_target(e, Some(to));
    e
}

/// Three nodes with one port each, in a cycle a -> b -> c -> a.
fn triangle() -> (LGraphArena, LGraphId, [LNodeId; 3], [LEdgeId; 3]) {
    let mut arena = LGraphArena::default();
    let g = arena.new_graph();
    let a = arena.new_node(g);
    let b = arena.new_node(g);
    let c = arena.new_node(g);
    let pa = arena.new_port(a);
    let pb = arena.new_port(b);
    let pc = arena.new_port(c);
    let e0 = connect(&mut arena, pa, pb);
    let e1 = connect(&mut arena, pb, pc);
    let e2 = connect(&mut arena, pc, pa);
    (arena, g, [a, b, c], [e0, e1, e2])
}

fn is_acyclic(arena: &LGraphArena, nodes: &[LNodeId]) -> bool {
    // A graph is acyclic exactly when repeatedly removing nodes without
    // incoming edges removes every node.
    let mut left: Vec<LNodeId> = nodes.to_vec();
    loop {
        let pos = left.iter().position(|&n| {
            arena.node_incoming_edges(n).iter().all(|&e| {
                arena.edge_is_self_loop(e)
                    || !left.contains(&arena.edge_source_node(e).unwrap())
            })
        });
        match pos {
            Some(i) => {
                left.remove(i);
            }
            None => return left.is_empty(),
        }
    }
}

#[test]
fn triangle_with_seed_zero_reverses_closing_edge() {
    let (mut arena, g, [a, b, c], [e0, e1, e2]) = triangle();
    let mut random = JavaRandom::new(0);
    let reversed = break_cycles(&mut arena, g, &mut random);
    assert_eq!(reversed, vec![e2]);
    assert_eq!(arena.edge_source_node(e2), Some(a));
    assert_eq!(arena.edge_target_node(e2), Some(c));
    assert!(arena.edges[e2.0].props.reversed);
    assert!(!arena.edges[e0.0].props.reversed);
    assert!(!arena.edges[e1.0].props.reversed);
    assert_eq!(arena.edge_source_node(e0), Some(a));
    assert_eq!(arena.edge_target_node(e1), Some(c));
    assert!(is_acyclic(&arena, &[a, b, c]));
}

#[test]
fn triangle_with_seed_42_reverses_other_edge() {
    let (mut arena, g, [a, b, c], [_, e1, _]) = triangle();
    let mut random = JavaRandom::new(42);
    let reversed = break_cycles(&mut arena, g, &mut random);
    assert_eq!(reversed, vec![e1]);
    assert_eq!(arena.edge_source_node(e1), Some(c));
    assert_eq!(arena.edge_target_node(e1), Some(b));
    assert!(is_acyclic(&arena, &[a, b, c]));
}

#[test]
fn node_ids_become_positions() {
    let (mut arena, g, [a, b, c], _) = triangle();
    arena.nodes[a.0].id = 7;
    arena.nodes[c.0].id = 9;
    let mut random = JavaRandom::new(0);
    break_cycles(&mut arena, g, &mut random);
    assert_eq!(arena.nodes[a.0].id, 0);
    assert_eq!(arena.nodes[b.0].id, 1);
    assert_eq!(arena.nodes[c.0].id, 2);
}

#[test]
fn acyclic_graph_keeps_every_edge() {
    let mut arena = LGraphArena::default();
    let g = arena.new_graph();
    let a = arena.new_node(g);
    let b = arena.new_node(g);
    let c = arena.new_node(g);
    let pa = arena.new_port(a);
    let pb = arena.new_port(b);
    let pc = arena.new_port(c);
    let e0 = connect(&mut arena, pa, pb);
    connect(&mut arena, pb, pc);
    connect(&mut arena, pa, pc);
    let mut random = JavaRandom::new(1);
    let reversed = break_cycles(&mut arena, g, &mut random);
    assert!(reversed.is_empty());
    assert_eq!(arena.edge_source_node(e0), Some(a));
    assert!(!arena.edges[e0.0].props.reversed);
}

#[test]
fn self_loops_are_never_reversed() {
    let mut arena = LGraphArena::default();
    let g = arena.new_graph();
    let a = arena.new_node(g);
    let p = arena.new_port(a);
    let q = arena.new_port(a);
    let loop_edge = connect(&mut arena, p, q);
    let mut random = JavaRandom::new(3);
    let reversed = break_cycles(&mut arena, g, &mut random);
    assert!(reversed.is_empty());
    assert!(arena.edge_is_self_loop(loop_edge));
    assert!(!arena.edges[loop_edge.0].props.reversed);
}

#[test]
fn priority_keeps_heavier_direction() {
    for seed in [0i64, 42] {
        let mut arena = LGraphArena::default();
        let g = arena.new_graph();
        let a = arena.new_node(g);
        let b = arena.new_node(g);
        let pa = arena.new_port(a);
        let pb = arena.new_port(b);
        let heavy = connect(&mut arena, pa, pb);
        arena.edges[heavy.0].props.priority = 5;
        let light = connect(&mut arena, pb, pa);
        let mut random = JavaRandom::new(seed);
        let reversed = break_cycles(&mut arena, g, &mut random);
        assert_eq!(reversed, vec![light]);
        assert_eq!(arena.edge_source_node(heavy), Some(a));
        assert_eq!(arena.edge_source_node(light), Some(a));
        assert_eq!(arena.edge_target_node(light), Some(b));
    }
}

#[test]
fn only_the_graphs_own_nodes_are_ranked() {
    let (mut arena, g, [a, b, c], _) = triangle();
    let other = arena.new_graph();
    let x = arena.new_node(other);
    let y = arena.new_node(other);
    let px = arena.new_port(x);
    let py = arena.new_port(y);
    let outside = connect(&mut arena, py, px);
    let mut random = JavaRandom::new(0);
    break_cycles(&mut arena, g, &mut random);
    assert_eq!(arena.edge_source_node(outside), Some(y));
    assert!(!arena.edges[outside.0].props.reversed);
    assert!(is_acyclic(&arena, &[a, b, c]));
}

#[test]
fn restorer_undoes_cycle_breaking() {
    let (mut arena, g, [a, b, c], [e0, e1, e2]) = triangle();
    let mut random = JavaRandom::new(0);
    let reversed = break_cycles(&mut arena, g, &mut random);
    assert_eq!(reversed, vec![e2]);
    arena.insert_layer(g, 0);
    arena.insert_layer(g, 1);
    arena.insert_layer(g, 2);
    arena.node_set_layer(g, a, Some(0));
    arena.node_set_layer(g, b, Some(1));
    arena.node_set_layer(g, c, Some(2));
    reversed_edge_restorer(&mut arena, g);
    assert_eq!(arena.edge_source_node(e2), Some(c));
    assert_eq!(arena.edge_target_node(e2), Some(a));
    assert_eq!(arena.edge_source_node(e0), Some(a));
    assert_eq!(arena.edge_source_node(e1), Some(b));
    for e in [e0, e1, e2] {
        assert!(!arena.edges[e.0].props.reversed);
    }
}

#[test]
fn restorer_leaves_edges_of_unlayered_nodes() {
    let mut arena = LGraphArena::default();
    let g = arena.new_graph();
    let a = arena.new_node(g);
    let b = arena.new_node(g);
    let pa = arena.new_port(a);
    let pb = arena.new_port(b);
    let e = connect(&mut arena, pa, pb);
    arena.edges[e.0].props.reversed = true;
    reversed_edge_restorer(&mut arena, g);
    assert_eq!(arena.edge_source_node(e), Some(a));
    assert!(arena.edges[e.0].props.reversed);

    arena.insert_layer(g, 0);
    arena.node_set_layer(g, a, Some(0));
    reversed_edge_restorer(&mut arena, g);
    assert_eq!(arena.edge_source_node(e), Some(b));
    assert_eq!(arena.edge_target_node(e), Some(a));
    assert!(!arena.edges[e.0].props.reversed);
}

#[test]
fn two_node_cycle_draws_once_and_reverses_the_first_edge() {
    let mut arena = LGraphArena::default();
    let g = arena.new_graph();
    let a = arena.new_node(g);
    let b = arena.new_node(g);
    let pa = arena.new_port(a);
    let pb = arena.new_port(b);
    let e1 = connect(&mut arena, pa, pb);
    let e2 = connect(&mut arena, pb, pa);
    let mut r = JavaRandom::new(1);
    let reversed = break_cycles(&mut arena, g, &mut r);
    assert_eq!(reversed, vec![e1]);
    assert_eq!(arena.edge_source_node(e1), Some(b));
    assert_eq!(arena.edge_target_node(e1), Some(a));
    assert!(arena.edges[e1.0].props.reversed);
    assert_eq!(arena.edge_source_node(e2), Some(b));
    assert_eq!(arena.edge_target_node(e2), Some(a));
    assert!(!arena.edges[e2.0].props.reversed);
    assert_eq!(r.draws(), 1);
}

#[test]
fn acyclic_graph_leaves_the_generator_alone() {
    let mut arena = LGraphArena::default();
    let g = arena.new_graph();
    let a = arena.new_node(g);
    let b = arena.new_node(g);
    let c = arena.new_node(g);
    let pa = arena.new_port(a);
    let pb = arena.new_port(b);
    let pc = arena.new_port(c);
    connect(&mut arena, pa, pb);
    connect(&mut arena, pb, pc);
    connect(&mut arena, pa, pc);
    let mut r = JavaRandom::new(7);
    let before = r.seed_hi_lo();
    let reversed = break_cycles(&mut arena, g, &mut r);
    assert!(reversed.is_empty());
    assert_eq!(r.draws(), 0);
    assert_eq!(r.seed_hi_lo(), before);
}
