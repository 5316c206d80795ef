use typstuml::layout::elk::adapter::lowest_common_container;

fn path(ids: &[&str]) -> Vec<String> {
    ids.iter().map(|s| s.to_string()).collect()
}

#[test]
fn an_edge_between_siblings_sits_in_their_parent() {
    let a = path(&["root", "g1", "g2"]);
    let b = path(&["root", "g1", "g3"]);
    assert_eq!(lowest_common_container(Some(&a), Some(&b)), "g1");
}

#[test]
fn an_edge_into_a_nested_node_sits_in_the_shallower_container() {
    let a = path(&["root"]);
    let b = path(&["root", "g1"]);
    assert_eq!(lowest_common_container(Some(&a), Some(&b)), "root");
    let c = path(&["root", "g1"]);
    let d = path(&["root", "g1", "g2"]);
    assert_eq!(lowest_common_container(Some(&c), Some(&d)), "g1");
}

#[test]
fn an_unknown_end_or_no_shared_ancestor_falls_back_to_the_root() {
    let a = path(&["root", "g1"]);
    assert_eq!(lowest_common_container(Some(&a), None), "root");
    assert_eq!(lowest_common_container(None, Some(&a)), "root");
    let x = path(&["x"]);
    let y = path(&["y"]);
    assert_eq!(lowest_common_container(Some(&x), Some(&y)), "root");
}
