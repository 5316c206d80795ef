use typstuml::layout::dag::{NodeHandle, DAG};

#[test]
fn linear_chain_ranks() {
    let mut g = DAG::new();
    let h0 = g.new_node();
    let h1 = g.new_node();
    let h2 = g.new_node();
    g.add_edge(h0, h1);
    g.add_edge(h1, h2);
    g.recompute_node_ranks();
    g.verify();
    assert_eq!(g.level(h0), 0);
    assert_eq!(g.level(h1), 1);
    assert_eq!(g.level(h2), 2);
}

#[test]
fn remove_edge_round_trip() {
    let mut g = DAG::new();
    let h0 = g.new_node();
    let h1 = g.new_node();
    g.add_edge(h0, h1);
    assert!(g.remove_edge(h0, h1));
    assert!(!g.remove_edge(h0, h1));
}

#[test]
fn new_nodes_get_consecutive_handles_in_row_zero() {
    let mut g = DAG::default();
    assert!(g.is_empty());
    let h0 = g.new_node();
    let h1 = g.new_node();
    assert_eq!(h0.get_index(), 0);
    assert_eq!(h1, NodeHandle::new(1));
    assert_eq!(NodeHandle::from(1usize), h1);
    assert_eq!(g.len(), 2);
    assert_eq!(g.num_levels(), 1);
    assert_eq!(g.row(0), &vec![h0, h1]);
    assert_eq!(g.level(h1), 0);
}

#[test]
fn iter_walks_every_handle_in_order() {
    let mut g = DAG::new();
    g.new_node();
    g.new_node();
    g.new_node();
    let mut it = g.iter();
    assert_eq!(it.next(), Some(NodeHandle::new(0)));
    assert_eq!(it.next(), Some(NodeHandle::new(1)));
    assert_eq!(it.next(), Some(NodeHandle::new(2)));
    assert_eq!(it.next(), None);
    assert_eq!(it.next(), None);
}

#[test]
fn diamond_takes_longest_path_ranks() {
    let mut g = DAG::new();
    let a = g.new_node();
    let b = g.new_node();
    let c = g.new_node();
    let d = g.new_node();
    g.add_edge(a, b);
    g.add_edge(b, c);
    g.add_edge(a, d);
    g.add_edge(c, d);
    g.recompute_node_ranks();
    g.verify();
    assert_eq!(g.level(a), 0);
    assert_eq!(g.level(b), 1);
    assert_eq!(g.level(c), 2);
    assert_eq!(g.level(d), 3);
    assert_eq!(g.num_levels(), 4);
    assert_eq!(g.row(3), &vec![d]);
}

#[test]
fn cycle_fails_verification() {
    let mut g = DAG::new();
    let a = g.new_node();
    let b = g.new_node();
    g.add_edge(a, b);
    g.add_edge(b, a);
    assert!(!g.is_consistent());
    assert!(g.is_reachable(a, b));
    assert!(g.is_reachable(b, a));
}

#[test]
fn reachability_follows_edges_only_forward() {
    let mut g = DAG::new();
    let a = g.new_node();
    let b = g.new_node();
    let c = g.new_node();
    g.add_edge(a, b);
    g.add_edge(b, c);
    assert!(g.is_reachable(a, c));
    assert!(!g.is_reachable(c, a));
    assert!(g.is_reachable(b, b));
}

#[test]
fn single_neighbours() {
    let mut g = DAG::new();
    let a = g.new_node();
    let b = g.new_node();
    let c = g.new_node();
    g.add_edge(a, b);
    assert_eq!(g.single_succ(a), Some(b));
    assert_eq!(g.single_pred(b), Some(a));
    assert_eq!(g.single_pred(a), None);
    g.add_edge(a, c);
    assert_eq!(g.single_succ(a), None);
    assert_eq!(g.successors(a), &vec![b, c]);
    assert_eq!(g.predecessors(c), &vec![a]);
}

#[test]
fn duplicate_edges_are_removed_one_at_a_time() {
    let mut g = DAG::new();
    let a = g.new_node();
    let b = g.new_node();
    g.add_edge(a, b);
    g.add_edge(a, b);
    assert!(g.remove_edge(a, b));
    assert_eq!(g.successors(a), &vec![b]);
    assert!(g.remove_edge(a, b));
    assert!(g.successors(a).is_empty());
    assert!(g.predecessors(b).is_empty());
}

#[test]
fn moving_a_node_between_rows() {
    let mut g = DAG::new();
    let a = g.new_node();
    let b = g.new_node();
    let c = g.new_node();
    g.update_node_rank_level(b, 1, None);
    assert_eq!(g.level(b), 1);
    assert_eq!(g.row(0), &vec![a, c]);
    assert_eq!(g.row(1), &vec![b]);
    g.update_node_rank_level(c, 1, Some(b));
    assert_eq!(g.row(1), &vec![c, b]);
    assert_eq!(g.row(0), &vec![a]);
}
