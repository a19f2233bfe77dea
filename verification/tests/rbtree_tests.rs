use rbtree_db::tree::node::{is_red, Color, Link, Node};
use rbtree_db::tree::rbtree::RBTree;

fn inorder<K: Clone + Ord, V>(link: &Link<K, V>) -> Vec<K> {
    match link {
        None => vec![],
        Some(n) => {
            let mut v = inorder(&n.left);
            v.push(n.key.clone());
            v.extend(inorder(&n.right));
            v
        }
    }
}

/// Builds the tree:
/// ```text
///      10(B)
///     /    \
///   5(B)  20(B)
///         /   \
///       15(B) 30(B)
/// ```
fn make_tree() -> Box<Node<i32, i32>> {
    let mut root = Node::new(10, 10, Color::Black);
    root.left = Some(Node::new(5, 5, Color::Black));
    let mut right = Node::new(20, 20, Color::Black);
    right.left = Some(Node::new(15, 15, Color::Black));
    right.right = Some(Node::new(30, 30, Color::Black));
    root.right = Some(right);
    root
}

#[test]
fn rotate_left_preserves_bst_order() {
    let before = inorder(&Some(make_tree()));
    let rotated = RBTree::<i32, i32>::rotate_left(make_tree());
    let after = inorder(&Some(rotated));
    assert_eq!(before, vec![5, 10, 15, 20, 30]);
    assert_eq!(before, after);
}

#[test]
fn rotate_right_preserves_bst_order() {
    let mut root = Node::new(20, 20, Color::Black);
    let mut left = Node::new(10, 10, Color::Black);
    left.left = Some(Node::new(5, 5, Color::Black));
    left.right = Some(Node::new(15, 15, Color::Black));
    root.left = Some(left);
    root.right = Some(Node::new(30, 30, Color::Black));

    let before = inorder(&Some(root));

    let mut root2 = Node::new(20, 20, Color::Black);
    let mut left2 = Node::new(10, 10, Color::Black);
    left2.left = Some(Node::new(5, 5, Color::Black));
    left2.right = Some(Node::new(15, 15, Color::Black));
    root2.left = Some(left2);
    root2.right = Some(Node::new(30, 30, Color::Black));

    let rotated = RBTree::<i32, i32>::rotate_right(root2);
    let after = inorder(&Some(rotated));
    assert_eq!(before, vec![5, 10, 15, 20, 30]);
    assert_eq!(before, after);
}

#[test]
fn rotate_left_then_right_restores_structure() {
    let unrotated = make_tree();
    let keys_before = inorder(&Some(unrotated));

    let after_left = RBTree::<i32, i32>::rotate_left(make_tree());
    assert_eq!(after_left.key, 20);

    let restored = RBTree::<i32, i32>::rotate_right(after_left);
    assert_eq!(restored.key, 10);
    assert_eq!(restored.left.as_ref().unwrap().key, 5);
    assert_eq!(restored.right.as_ref().unwrap().key, 20);
    assert_eq!(inorder(&Some(restored)), keys_before);
}

#[test]
fn rotate_right_then_left_restores_structure() {
    let mut root = Node::new(20, 20, Color::Black);
    let mut left = Node::new(10, 10, Color::Black);
    left.left = Some(Node::new(5, 5, Color::Black));
    left.right = Some(Node::new(15, 15, Color::Black));
    root.left = Some(left);
    root.right = Some(Node::new(30, 30, Color::Black));
    let keys_before = inorder(&Some(root));

    let mut root2 = Node::new(20, 20, Color::Black);
    let mut left2 = Node::new(10, 10, Color::Black);
    left2.left = Some(Node::new(5, 5, Color::Black));
    left2.right = Some(Node::new(15, 15, Color::Black));
    root2.left = Some(left2);
    root2.right = Some(Node::new(30, 30, Color::Black));

    let after_right = RBTree::<i32, i32>::rotate_right(root2);
    assert_eq!(after_right.key, 10);

    let restored = RBTree::<i32, i32>::rotate_left(after_right);
    assert_eq!(restored.key, 20);
    assert_eq!(inorder(&Some(restored)), keys_before);
}

#[test]
fn rotate_at_root_updates_self_root() {
    let mut rbtree: RBTree<i32, i32> = RBTree::new();
    rbtree.root = Some(make_tree());

    let old_right_key = rbtree.root.as_ref().unwrap().right.as_ref().unwrap().key;

    rbtree.root = Some(RBTree::rotate_left(rbtree.root.take().unwrap()));
    assert_eq!(rbtree.root.as_ref().unwrap().key, old_right_key);

    rbtree.root = Some(RBTree::rotate_right(rbtree.root.take().unwrap()));
    assert_eq!(rbtree.root.as_ref().unwrap().key, 10);
}

#[test]
fn rotate_left_moves_right_child_left_subtree_correctly() {
    let rotated = RBTree::<i32, i32>::rotate_left(make_tree());
    let new_left = rotated.left.as_ref().unwrap();
    assert_eq!(new_left.key, 10);
    assert_eq!(new_left.right.as_ref().unwrap().key, 15);
}

#[test]
fn rotate_right_moves_left_child_right_subtree_correctly() {
    let mut root = Node::new(20, 20, Color::Black);
    let mut left = Node::new(10, 10, Color::Black);
    left.left = Some(Node::new(5, 5, Color::Black));
    left.right = Some(Node::new(15, 15, Color::Black));
    root.left = Some(left);
    root.right = Some(Node::new(30, 30, Color::Black));

    let rotated = RBTree::<i32, i32>::rotate_right(root);
    let new_right = rotated.right.as_ref().unwrap();
    assert_eq!(new_right.key, 20);
    assert_eq!(new_right.left.as_ref().unwrap().key, 15);
}

#[test]
fn rotations_keep_colors() {
    let mut x = Node::new(1, 1, Color::Black);
    x.right = Some(Node::new(2, 2, Color::Red));
    let y = RBTree::<i32, i32>::rotate_left(x);
    assert_eq!(y.color, Color::Red);
    assert_eq!(y.left.as_ref().unwrap().color, Color::Black);
}

// ── The public operations ───────────────────────────────────────────────────

#[test]
fn tree_insert_and_get_roundtrip() {
    let mut tree: RBTree<String, String> = RBTree::new();
    tree.insert("nome".to_string(), "Gabriel".to_string());
    assert_eq!(tree.get(&"nome".to_string()), Some(&"Gabriel".to_string()));
}

#[test]
fn tree_delete_returns_removed_value() {
    let mut tree: RBTree<String, String> = RBTree::new();
    tree.insert("k".to_string(), "v".to_string());
    assert_eq!(tree.delete(&"k".to_string()), Some("v".to_string()));
    assert!(tree.get(&"k".to_string()).is_none());
}

#[test]
fn tree_range_returns_pairs_in_order() {
    let mut tree: RBTree<String, String> = RBTree::new();
    for (k, v) in [("c", "3"), ("a", "1"), ("b", "2"), ("d", "4")] {
        tree.insert(k.to_string(), v.to_string());
    }
    let (lo, hi) = ("a".to_string(), "c".to_string());
    let results = tree.range(&lo, &hi);
    assert_eq!(results.len(), 3);
    assert_eq!(results[0].0, "a");
    assert_eq!(results[2].0, "c");
}

#[test]
fn tree_iter_preserves_sorted_order() {
    let mut tree: RBTree<i32, &str> = RBTree::new();
    for (k, v) in [(3, "c"), (1, "a"), (2, "b")] {
        tree.insert(k, v);
    }
    let keys: Vec<i32> = tree.iter().iter().map(|(k, _)| **k).collect();
    assert_eq!(keys, vec![1, 2, 3]);
}

#[test]
fn tree_min_and_max_on_non_empty_tree() {
    let mut tree: RBTree<i32, &str> = RBTree::new();
    tree.insert(5, "e");
    tree.insert(1, "a");
    tree.insert(9, "i");
    assert_eq!(tree.min(), Some((&1, &"a")));
    assert_eq!(tree.max(), Some((&9, &"i")));
}

#[test]
fn tree_empty_invariants() {
    let tree: RBTree<i32, &str> = RBTree::new();
    assert!(tree.is_empty());
    assert_eq!(tree.len(), 0);
    assert!(tree.min().is_none());
    assert!(tree.max().is_none());
}

#[test]
fn tree_len_tracks_insertions_and_deletions() {
    let mut tree: RBTree<i32, i32> = RBTree::new();
    assert_eq!(tree.len(), 0);
    tree.insert(1, 10);
    tree.insert(2, 20);
    assert_eq!(tree.len(), 2);
    tree.delete(&1);
    assert_eq!(tree.len(), 1);
}

#[test]
fn tree_upsert_keeps_len_and_replaces_value() {
    let mut tree: RBTree<i32, i32> = RBTree::new();
    tree.insert(7, 1);
    tree.insert(7, 2);
    assert_eq!(tree.len(), 1);
    assert_eq!(tree.get(&7), Some(&2));
    assert_eq!(tree.delete(&8), None);
    assert_eq!(tree.len(), 1);
}

/// Checks the red-black rules below a link and returns its black height.
fn check_red_black(link: &Link<i32, i32>, lo: Option<i32>, hi: Option<i32>) -> usize {
    match link {
        None => 0,
        Some(n) => {
            if let Some(l) = lo {
                assert!(n.key > l);
            }
            if let Some(h) = hi {
                assert!(n.key < h);
            }
            if n.color == Color::Red {
                assert!(!is_red(&n.left) && !is_red(&n.right));
            }
            let bl = check_red_black(&n.left, lo, Some(n.key));
            let br = check_red_black(&n.right, Some(n.key), hi);
            assert_eq!(bl, br);
            bl + if n.color == Color::Black { 1 } else { 0 }
        }
    }
}

fn height(link: &Link<i32, i32>) -> usize {
    match link {
        None => 0,
        Some(n) => 1 + height(&n.left).max(height(&n.right)),
    }
}

#[test]
fn tree_stays_red_black_and_shallow() {
    let mut tree: RBTree<i32, i32> = RBTree::new();
    for i in 0..1000 {
        tree.insert((i * 7919) % 1000, i);
        assert!(!is_red(&tree.root));
    }
    check_red_black(&tree.root, None, None);
    assert_eq!(tree.len(), 1000);
    assert!(height(&tree.root) <= 20);
    for i in 0..1000 {
        if i % 2 == 0 {
            assert_eq!(tree.delete(&i), Some(values_for(i)));
        }
        assert!(!is_red(&tree.root));
    }
    check_red_black(&tree.root, None, None);
    assert_eq!(tree.len(), 500);
    let keys: Vec<i32> = tree.iter().iter().map(|(k, _)| **k).collect();
    assert_eq!(keys, (0..1000).filter(|i| i % 2 == 1).collect::<Vec<_>>());
}

/// The insertion index that bound key `k` in `tree_stays_red_black_and_shallow`.
fn values_for(k: i32) -> i32 {
    (0..1000).find(|i| (i * 7919) % 1000 == k).unwrap()
}

#[test]
fn tree_delete_from_sequential_inserts() {
    let mut tree: RBTree<i32, i32> = RBTree::new();
    for i in 1..=64 {
        tree.insert(i, i * 10);
    }
    for i in (1..=64).rev() {
        assert_eq!(tree.delete(&i), Some(i * 10));
        check_red_black(&tree.root, None, None);
        assert_eq!(tree.len(), (i - 1) as usize);
    }
    assert!(tree.root.is_none());
}
