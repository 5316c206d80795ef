use typstuml::layout::elk::alg::graph::LGraphArena;
use typstuml::layout::elk::alg::hierarchical::is_descendant;

#[test]
fn nodes_of_nested_graphs_descend_from_their_parents() {
    let mut arena = LGraphArena::default();
    let root = arena.new_graph();
    let outer = arena.new_node(root);
    let inner_graph = arena.new_graph();
    arena.graphs[inner_graph.0].parent_node = Some(outer);
    let middle = arena.new_node(inner_graph);
    let deepest_graph = arena.new_graph();
    arena.graphs[deepest_graph.0].parent_node = Some(middle);
    let leaf = arena.new_node(deepest_graph);
    assert!(is_descendant(&arena, middle, outer));
    assert!(is_descendant(&arena, leaf, outer));
    assert!(is_descendant(&arena, leaf, middle));
    assert!(!is_descendant(&arena, outer, middle));
    assert!(!is_descendant(&arena, leaf, leaf));
    assert!(!is_descendant(&arena, outer, outer));
}
