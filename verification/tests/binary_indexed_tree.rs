use typstuml::layout::elk::alg::p3order::binary_indexed_tree::BinaryIndexedTree;

#[test]
fn rank_counts_values_below_index() {
    let mut t = BinaryIndexedTree::new(4);
    t.add(2);
    assert_eq!(t.rank(2), 0);
    t.add(3);
    assert_eq!(t.rank(3), 1);
    assert_eq!(t.rank(4), 2);
    assert_eq!(t.size(), 2);
    t.remove_all(2);
    assert_eq!(t.rank(4), 1);
    assert_eq!(t.size(), 1);
    assert!(!t.is_empty());
    t.remove_all(3);
    assert!(t.is_empty());
}

#[test]
fn duplicates_at_an_index() {
    let mut t = BinaryIndexedTree::new(3);
    t.add(1);
    t.add(1);
    t.add(2);
    assert_eq!(t.rank(2), 2);
    t.remove_all(1);
    assert_eq!(t.rank(3), 1);
    assert_eq!(t.size(), 1);
}

#[test]
fn rank_matches_a_plain_count_on_a_larger_tree() {
    let n = 37usize;
    let mut t = BinaryIndexedTree::new(n);
    let mut counts = vec![0i32; n];
    let values = [5usize, 0, 36, 17, 17, 8, 31, 0, 16, 32, 1, 2, 3, 24];
    for &v in values.iter() {
        t.add(v);
        counts[v] += 1;
        for i in 0..=n {
            let expected: i32 = counts[..i].iter().sum();
            assert_eq!(t.rank(i), expected);
        }
    }
    t.remove_all(17);
    counts[17] = 0;
    for i in 0..=n {
        let expected: i32 = counts[..i].iter().sum();
        assert_eq!(t.rank(i), expected);
    }
    assert_eq!(t.size(), counts.iter().sum::<i32>());
}

#[test]
fn clear_empties_the_tree() {
    let mut t = BinaryIndexedTree::new(8);
    t.add(7);
    t.add(0);
    t.clear();
    assert!(t.is_empty());
    assert_eq!(t.rank(8), 0);
    t.add(3);
    assert_eq!(t.rank(8), 1);
}

#[test]
fn removing_an_absent_value_changes_nothing() {
    let mut t = BinaryIndexedTree::new(5);
    t.add(4);
    t.remove_all(2);
    assert_eq!(t.size(), 1);
    assert_eq!(t.rank(5), 1);
}

#[test]
fn empty_range_tree() {
    let t = BinaryIndexedTree::new(0);
    assert!(t.is_empty());
    assert_eq!(t.rank(0), 0);
}
