//! Tree nodes. A missing child (`None`) is a black nil leaf.
use vstd::prelude::*;

use vstd::arithmetic::power::lemma_pow0;
use vstd::arithmetic::power2::{
    lemma_pow2, lemma_pow2_adds, lemma_pow2_strictly_increases, lemma_pow2_unfold, pow2,
};

use crate::key::OrderedKey;

verus! {

/// Color of a node.
#[derive(Debug, Clone, Copy, PartialEq, Eq, Structural)]
pub enum Color {
    Red,
    Black,
}

/// An optional child; `None` is the black nil leaf.
pub type Link<K, V> = Option<Box<Node<K, V>>>;

#[derive(Debug)]
pub struct Node<K, V> {
    pub key: K,
    pub value: V,
    pub color: Color,
    pub left: Link<K, V>,
    pub right: Link<K, V>,
}

impl<K, V> Node<K, V> {
    /// A new node without children.
    pub fn new(key: K, value: V, color: Color) -> (r: Box<Self>)
        ensures
            r.key == key,
            r.value == value,
            r.color == color,
            r.left is None,
            r.right is None,
    {
        Box::new(Node { key, value, color, left: None, right: None })
    }
}

/// Color of a link; the nil leaf is black.
pub open spec fn link_color<K, V>(link: Link<K, V>) -> Color {
    match link {
        None => Color::Black,
        Some(n) => n.color,
    }
}

/// Whether a link is a red node.
pub open spec fn link_is_red<K, V>(link: Link<K, V>) -> bool {
    link_color(link) == Color::Red
}

/// Returns `true` if the node is red; `None` counts as black (nil leaf).
pub fn is_red<K, V>(node: &Link<K, V>) -> (r: bool)
    ensures
        r == link_is_red(*node),
{
    match node {
        Some(n) => match n.color {
            Color::Red => true,
            Color::Black => false,
        },
        None => false,
    }
}

/// Number of nodes.
pub open spec fn size<K, V>(link: Link<K, V>) -> nat
    decreases link,
{
    match link {
        None => 0,
        Some(n) => size(n.left) + size(n.right) + 1,
    }
}

/// Number of black nodes on the leftmost path (nil leaves not counted).
pub open spec fn black_height<K, V>(link: Link<K, V>) -> nat
    decreases link,
{
    match link {
        None => 0,
        Some(n) => black_height(n.left) + if n.color == Color::Black {
            1nat
        } else {
            0nat
        },
    }
}

/// Every path from a node down to a leaf holds the same number of black nodes.
pub open spec fn black_balanced<K, V>(link: Link<K, V>) -> bool
    decreases link,
{
    match link {
        None => true,
        Some(n) => black_balanced(n.left) && black_balanced(n.right) && black_height(n.left)
            == black_height(n.right),
    }
}

/// No red node has a red child.
pub open spec fn no_red_red<K, V>(link: Link<K, V>) -> bool
    decreases link,
{
    match link {
        None => true,
        Some(n) => no_red_red(n.left) && no_red_red(n.right) && (n.color == Color::Red ==> (
        link_color(n.left) == Color::Black && link_color(n.right) == Color::Black)),
    }
}

/// Both subtrees have no red node with a red child; the root itself may be a
/// red node with a red child.
pub open spec fn no_red_red_below<K, V>(link: Link<K, V>) -> bool {
    match link {
        None => true,
        Some(n) => no_red_red(n.left) && no_red_red(n.right),
    }
}

/// A red-black tree: black root, no red node with a red child, and the same
/// black height on every path.
pub open spec fn is_red_black<K, V>(link: Link<K, V>) -> bool {
    &&& link_color(link) == Color::Black
    &&& no_red_red(link)
    &&& black_balanced(link)
}

/// The entries of a tree in in-order, each as (key view, value).
pub open spec fn entries<K: View, V>(link: Link<K, V>) -> Seq<(K::V, V)>
    decreases link,
{
    match link {
        None => Seq::empty(),
        Some(n) => entries(n.left) + seq![(n.key@, n.value)] + entries(n.right),
    }
}

/// Keys strictly increase along the sequence.
pub open spec fn sorted_keys<K: OrderedKey, V>(s: Seq<(K::V, V)>) -> bool {
    forall|i: int, j: int| 0 <= i < j < s.len() ==> K::key_less(s[i].0, s[j].0)
}

/// The tree is a binary search tree: its in-order keys strictly increase.
pub open spec fn is_search_tree<K: OrderedKey, V>(link: Link<K, V>) -> bool {
    sorted_keys::<K, V>(entries(link))
}

/// Number of nodes on the longest path from the root down.
pub open spec fn height<K, V>(link: Link<K, V>) -> nat
    decreases link,
{
    match link {
        None => 0,
        Some(n) => 1 + if height(n.left) >= height(n.right) {
            height(n.left)
        } else {
            height(n.right)
        },
    }
}

/// A tree has one entry per node.
pub proof fn lemma_entries_len<K: View, V>(link: Link<K, V>)
    ensures
        entries(link).len() == size(link),
    decreases link,
{
    if let Some(n) = link {
        lemma_entries_len(n.left);
        lemma_entries_len(n.right);
    }
}

/// A tree with black height `b` on every path holds at least 2^b - 1 nodes.
proof fn lemma_size_black_height<K, V>(link: Link<K, V>)
    requires
        black_balanced(link),
    ensures
        pow2(black_height(link)) <= size(link) + 1,
    decreases link,
{
    match link {
        None => {
            lemma_pow2(0);
            lemma_pow0(2);
        },
        Some(n) => {
            lemma_size_black_height(n.left);
            lemma_size_black_height(n.right);
            if n.color == Color::Black {
                lemma_pow2_unfold(black_height(link));
            }
        },
    }
}

/// Without red-red edges, a path holds at most twice as many nodes as black
/// nodes, plus a red root.
proof fn lemma_height_black_height<K, V>(link: Link<K, V>)
    requires
        no_red_red(link),
        black_balanced(link),
    ensures
        height(link) <= 2 * black_height(link) + if link_color(link) == Color::Red {
            1int
        } else {
            0int
        },
    decreases link,
{
    if let Some(n) = link {
        lemma_height_black_height(n.left);
        lemma_height_black_height(n.right);
    }
}

/// A red-black tree of `n` nodes has height at most 2·log2(n + 1):
/// 2^height <= (n + 1)^2.
pub proof fn lemma_red_black_height<K, V>(link: Link<K, V>)
    requires
        is_red_black(link),
    ensures
        pow2(height(link)) <= (size(link) + 1) * (size(link) + 1),
{
    let b = black_height(link);
    let h = height(link);
    lemma_size_black_height(link);
    lemma_height_black_height(link);
    if h < 2 * b {
        lemma_pow2_strictly_increases(h, 2 * b);
    }
    lemma_pow2_adds(b, b);
    let p = pow2(b);
    let m = size(link) + 1;
    assert(p * p <= m * m) by (nonlinear_arith)
        requires
            0 <= p <= m,
    ;
}

} // verus!
