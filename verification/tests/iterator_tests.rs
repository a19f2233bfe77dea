use rbtree_db::tree::iterator::InOrderIterator;
use rbtree_db::tree::rbtree::RBTree;

fn build_tree(keys: &[i32]) -> RBTree<i32, i32> {
    let mut t = RBTree::new();
    for &k in keys {
        t.insert(k, k * 10);
    }
    t
}

#[test]
fn empty_tree_yields_nothing() {
    let t: RBTree<i32, i32> = RBTree::new();
    assert_eq!(t.iter().len(), 0);
}

#[test]
fn iter_returns_all_pairs_in_order() {
    let t = build_tree(&[5, 3, 8, 1, 4, 7, 9, 2, 6, 10]);
    let keys: Vec<i32> = t.iter().iter().map(|(k, _)| **k).collect();
    assert_eq!(keys, vec![1, 2, 3, 4, 5, 6, 7, 8, 9, 10]);
}

#[test]
fn range_returns_pairs_in_order_with_bounds() {
    let t = build_tree(&[5, 3, 8, 1, 4, 7, 9, 2, 6, 10]);
    let pairs: Vec<_> = t.range(&3, &7);
    let keys: Vec<i32> = pairs.iter().map(|(k, _)| **k).collect();
    assert_eq!(keys, vec![3, 4, 5, 6, 7]);
}

#[test]
fn range_inclusive_boundaries() {
    let t = build_tree(&[1, 2, 3, 4, 5]);
    let keys: Vec<_> = t.range(&1, &5).iter().map(|(k, _)| **k).collect();
    assert_eq!(keys, vec![1, 2, 3, 4, 5]);
}

#[test]
fn range_empty_when_no_keys_in_bounds() {
    let t = build_tree(&[1, 2, 3, 10, 11]);
    let keys: Vec<_> = t.range(&5, &9).iter().map(|(k, _)| **k).collect();
    assert!(keys.is_empty());
}

#[test]
fn range_pruning_skips_out_of_bound_subtrees() {
    let t = build_tree(&(1..=20).collect::<Vec<_>>());
    let mut visit_count = 0;
    let mut keys: Vec<i32> = Vec::new();
    let mut it = InOrderIterator::new(&t.root, Some(&8), Some(&12));
    while let Some((k, _)) = it.next() {
        visit_count += 1;
        keys.push(*k);
    }
    assert_eq!(keys, vec![8, 9, 10, 11, 12]);
    // with pruning, only the k = 5 nodes of the range are visited
    assert_eq!(visit_count, 5);
}

#[test]
fn iter_15_nodes_all_in_order() {
    let t = build_tree(&(1..=15).collect::<Vec<_>>());
    let keys: Vec<i32> = t.iter().iter().map(|(k, _)| **k).collect();
    assert_eq!(keys, (1..=15).collect::<Vec<_>>());
}

#[test]
fn iterator_with_one_bound() {
    let t = build_tree(&(1..=10).collect::<Vec<_>>());
    let mut it = InOrderIterator::new(&t.root, None, Some(&3));
    let mut keys = Vec::new();
    while let Some((k, v)) = it.next() {
        assert_eq!(*v, *k * 10);
        keys.push(*k);
    }
    assert_eq!(keys, vec![1, 2, 3]);
    let mut it = InOrderIterator::new(&t.root, Some(&9), None);
    assert_eq!(it.next().map(|(k, _)| *k), Some(9));
    assert_eq!(it.next().map(|(k, _)| *k), Some(10));
    assert_eq!(it.next(), None);
    assert_eq!(it.next(), None);
}

#[test]
fn range_with_inverted_bounds_is_empty() {
    let t = build_tree(&(1..=10).collect::<Vec<_>>());
    assert!(t.range(&7, &3).is_empty());
}

#[test]
fn next_ascends_and_stays_exhausted() {
    let t = build_tree(&[5, 3, 8, 1, 4, 7, 9, 2, 6, 10]);
    let mut it = InOrderIterator::new(&t.root, Some(&2), Some(&9));
    let mut seen: Vec<i32> = Vec::new();
    while let Some((k, v)) = it.next() {
        assert_eq!(*v, *k * 10);
        if let Some(prev) = seen.last() {
            assert!(*k > *prev);
        }
        seen.push(*k);
    }
    assert_eq!(seen, vec![2, 3, 4, 5, 6, 7, 8, 9]);
    assert!(it.next().is_none());
    assert!(it.next().is_none());
}
