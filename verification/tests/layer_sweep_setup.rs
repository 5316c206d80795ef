use typstuml::layout::elk::alg::graph::{LGraphArena, LGraphId, LNodeId, LPortId, NodeType};
use typstuml::layout::elk::alg::options::{PortConstraints, PortSide};
use typstuml::layout::elk::alg::p3order::layer_sweep::{initialize_sweep, use_bottom_up};
use typstuml::layout::elk::alg::random::JavaRandom;

fn connect(arena: &mut LGraphArena, from: LPortId, to: LPortId) {
    let e = arena.new_edge();
    arena.edge_set_source(e, Some(from));
    arena.edge_set_target(e, Some(to));
}

/// A root graph holding one node `p` with two ports on each of the east
/// and west sides, and nested in it a graph of two layers: an
/// external-port dummy for one of `p`'s west ports, connected to a node
/// `b` with only a west port.
fn nested_pair(dummy_east: bool) -> (LGraphArena, LGraphId, LGraphId, LNodeId, LNodeId, LNodeId) {
    let mut arena = LGraphArena::default();
    let root = arena.new_graph();
    let inner = arena.new_graph();
    arena.insert_layer(root, 0);
    let p = arena.new_node(root);
    arena.node_set_layer(root, p, Some(0));
    let mut west = Vec::new();
    for side in [PortSide::East, PortSide::East, PortSide::West, PortSide::West] {
        let q = arena.new_port(p);
        arena.port_set_side(q, side);
        if side == PortSide::West {
            west.push(q);
        }
    }
    arena.nodes[p.0].nested_graph = Some(inner);
    arena.graphs[inner.0].parent_node = Some(p);
    arena.insert_layer(inner, 0);
    arena.insert_layer(inner, 1);
    let e = arena.new_node(inner);
    let b = arena.new_node(inner);
    arena.node_set_layer(inner, e, Some(0));
    arena.node_set_layer(inner, b, Some(1));
    arena.nodes[e.0].node_type = NodeType::ExternalPort;
    let origin = if dummy_east {
        arena.nodes[p.0].ports[0]
    } else {
        west[0]
    };
    arena.nodes[e.0].props.origin_port = Some(origin);
    let pe = arena.new_port(e);
    arena.port_set_side(pe, PortSide::East);
    let pb = arena.new_port(b);
    arena.port_set_side(pb, PortSide::West);
    connect(&mut arena, pe, pb);
    (arena, root, inner, p, e, b)
}

#[test]
fn the_root_graph_goes_bottom_up() {
    let (arena, root, _, _, _, _) = nested_pair(false);
    assert!(use_bottom_up(&arena, root, false));
}

#[test]
fn a_fixed_port_order_on_the_parent_goes_bottom_up() {
    let (mut arena, _, inner, p, _, _) = nested_pair(false);
    arena.nodes[p.0].props.port_constraints = PortConstraints::FixedOrder;
    assert!(use_bottom_up(&arena, inner, false));
}

#[test]
fn deterministic_barycenters_are_swept_into() {
    let (arena, _, inner, _, _, _) = nested_pair(false);
    assert!(!use_bottom_up(&arena, inner, true));
}

#[test]
fn paths_from_external_ports_are_swept_into() {
    // One path from the dummy to `b`: one hierarchical and one random
    // path end, so the share difference is 0, below a tenth.
    let (arena, _, inner, _, _, _) = nested_pair(false);
    assert!(!use_bottom_up(&arena, inner, false));
}

#[test]
fn paths_from_unconnected_nodes_go_bottom_up() {
    // With a plain node in place of the dummy, both path ends are random.
    let (mut arena, _, inner, _, e, _) = nested_pair(false);
    arena.nodes[e.0].node_type = NodeType::Normal;
    assert!(use_bottom_up(&arena, inner, false));
}

#[test]
fn initialize_walks_the_nesting_tree() {
    let (mut arena, root, inner, p, e, b) = nested_pair(false);
    let mut random = JavaRandom::new(1);
    let mut child_randoms = vec![(inner, JavaRandom::new(1))];
    let (graphs, to_sweep, run_seed) = initialize_sweep(&mut arena, root, &mut random, &mut child_randoms);

    let mut expected = JavaRandom::new(1);
    assert_eq!(run_seed, expected.next_long());
    let root_draw = expected.next_boolean();
    let inner_draw = JavaRandom::new(1).next_boolean();

    assert_eq!(graphs.len(), 2);
    assert_eq!(graphs[0].lgraph, root);
    assert_eq!(graphs[1].lgraph, inner);
    assert_eq!(graphs[0].child_graph_ids, vec![1]);
    assert!(graphs[1].child_graph_ids.is_empty());
    assert_eq!(graphs[0].node_relative, root_draw);
    assert_eq!(graphs[1].node_relative, inner_draw);
    assert_eq!(graphs[0].order, vec![vec![p]]);
    assert_eq!(graphs[1].order, vec![vec![e], vec![b]]);
    assert!(graphs[0].dont_sweep_into);
    assert!(!graphs[1].dont_sweep_into);
    assert_eq!(to_sweep, vec![0]);

    assert_eq!(arena.graphs[root.0].id, 0);
    assert_eq!(arena.graphs[inner.0].id, 1);
    assert_eq!(arena.nodes[p.0].id, 0);
    assert_eq!(arena.nodes[e.0].id, 0);
    assert_eq!(arena.nodes[b.0].id, 0);
    let p_ports: Vec<usize> = arena.nodes[p.0].ports.iter().map(|q| arena.ports[q.0].id).collect();
    assert_eq!(p_ports, vec![0, 1, 2, 3]);
    let inner_ports: Vec<usize> = [e, b].iter().map(|n| arena.ports[arena.nodes[n.0].ports[0].0].id).collect();
    assert_eq!(inner_ports, vec![0, 1]);

    let mut stepped = JavaRandom::new(1);
    stepped.next_boolean();
    assert_eq!(child_randoms[0].1.seed_hi_lo(), stepped.seed_hi_lo());
}
