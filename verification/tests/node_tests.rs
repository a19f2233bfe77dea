use rbtree_db::tree::node::{is_red, Color, Link, Node};

#[test]
fn none_is_black() {
    let nil: Link<i32, i32> = None;
    assert!(!is_red(&nil));
}

#[test]
fn red_node_is_red() {
    let node: Link<i32, i32> = Some(Node::new(1, 10, Color::Red));
    assert!(is_red(&node));
}

#[test]
fn black_node_is_not_red() {
    let node: Link<i32, i32> = Some(Node::new(1, 10, Color::Black));
    assert!(!is_red(&node));
}

#[test]
fn color_implements_partial_eq_and_clone() {
    assert_eq!(Color::Red, Color::Red.clone());
    assert_eq!(Color::Black, Color::Black.clone());
    assert_ne!(Color::Red, Color::Black);
}

#[test]
fn node_fields_accessible() {
    let n = Node::new("chave", 42, Color::Black);
    assert_eq!(n.key, "chave");
    assert_eq!(n.value, 42);
    assert_eq!(n.color, Color::Black);
    assert!(n.left.is_none());
    assert!(n.right.is_none());
}
