//! Red-black tree map.
use vstd::prelude::*;

use crate::key::{KeyComparison, OrderedKey};
use crate::tree::iterator::{
    in_range, lemma_range_cost, pair_views, range_cost, InOrderIterator,
};
use vstd::arithmetic::power2::pow2;

use crate::tree::node::{
    black_balanced, black_height, entries, height, is_red, is_red_black, is_search_tree,
    lemma_entries_len, lemma_red_black_height, link_color,
    link_is_red, no_red_red, no_red_red_below, size, sorted_keys, Color, Link, Node,
};

verus! {

/// Red-black tree backed key-value store.
pub struct RBTree<K: OrderedKey, V> {
    pub root: Link<K, V>,
    len: usize,
}

/// The node after a left rotation: the right child `y` rises and `x` becomes
/// its left child, taking over `y`'s left subtree.
pub open spec fn rotated_left<K, V>(x: Node<K, V>) -> Node<K, V>
    recommends
        x.right is Some,
{
    let y = x.right.unwrap();
    Node {
        key: y.key,
        value: y.value,
        color: y.color,
        left: Some(
            Box::new(
                Node { key: x.key, value: x.value, color: x.color, left: x.left, right: y.left },
            ),
        ),
        right: y.right,
    }
}

/// The node after a right rotation: the left child `x` rises and `y` becomes
/// its right child, taking over `x`'s right subtree.
pub open spec fn rotated_right<K, V>(y: Node<K, V>) -> Node<K, V>
    recommends
        y.left is Some,
{
    let x = y.left.unwrap();
    Node {
        key: x.key,
        value: x.value,
        color: x.color,
        left: x.left,
        right: Some(
            Box::new(
                Node { key: y.key, value: y.value, color: y.color, left: x.right, right: y.right },
            ),
        ),
    }
}

/// Entries whose key is below `k`.
pub open spec fn key_below<K: OrderedKey, V>(k: K::V) -> spec_fn((K::V, V)) -> bool {
    |e: (K::V, V)| K::key_less(e.0, k)
}

/// Entries whose key is above `k`.
pub open spec fn key_above<K: OrderedKey, V>(k: K::V) -> spec_fn((K::V, V)) -> bool {
    |e: (K::V, V)| K::key_less(k, e.0)
}

/// The entries of `s` with key below `k`, then `(k, v)`, then those above `k`:
/// `s` with `k` bound to `v`.
pub open spec fn upsert<K: OrderedKey, V>(s: Seq<(K::V, V)>, k: K::V, v: V) -> Seq<(K::V, V)> {
    s.filter(key_below::<K, V>(k)) + seq![(k, v)] + s.filter(key_above::<K, V>(k))
}

/// Every entry of `s` satisfies `p`: filtering by `p` keeps `s`.
pub(crate) proof fn lemma_filter_all<A>(s: Seq<A>, p: spec_fn(A) -> bool)
    requires
        forall|i: int| 0 <= i < s.len() ==> p(s[i]),
    ensures
        s.filter(p) == s,
    decreases s.len(),
{
    reveal_with_fuel(Seq::filter, 1);
    if s.len() > 0 {
        lemma_filter_all(s.drop_last(), p);
        assert(s.drop_last().push(s.last()) =~= s);
    }
}

/// No entry of `s` satisfies `p`: filtering by `p` leaves nothing.
pub(crate) proof fn lemma_filter_none<A>(s: Seq<A>, p: spec_fn(A) -> bool)
    requires
        forall|i: int| 0 <= i < s.len() ==> !p(s[i]),
    ensures
        s.filter(p) == Seq::<A>::empty(),
    decreases s.len(),
{
    reveal_with_fuel(Seq::filter, 1);
    if s.len() > 0 {
        lemma_filter_none(s.drop_last(), p);
    }
}

/// Entries whose key differs from `k`.
pub open spec fn key_differs<K: OrderedKey, V>(k: K::V) -> spec_fn((K::V, V)) -> bool {
    |e: (K::V, V)| e.0 != k
}

/// `s` without the entry for key `k`.
pub open spec fn without_key<K: OrderedKey, V>(s: Seq<(K::V, V)>, k: K::V) -> Seq<(K::V, V)> {
    s.filter(key_differs::<K, V>(k))
}

/// Removing a key from `l + [x] + r`, where `x` separates `l` from `r`,
/// happens in `l`, at `x`, or in `r`.
proof fn lemma_without_key_concat<K: OrderedKey, V>(
    l: Seq<(K::V, V)>,
    x: (K::V, V),
    r: Seq<(K::V, V)>,
    k: K::V,
)
    requires
        forall|i: int| 0 <= i < l.len() ==> K::key_less(#[trigger] l[i].0, x.0),
        forall|i: int| 0 <= i < r.len() ==> K::key_less(x.0, #[trigger] r[i].0),
    ensures
        K::key_less(k, x.0) ==> without_key::<K, V>(l + seq![x] + r, k) == without_key::<K, V>(
            l,
            k,
        ) + seq![x] + r,
        K::key_less(x.0, k) ==> without_key::<K, V>(l + seq![x] + r, k) == l + seq![x]
            + without_key::<K, V>(r, k),
        k == x.0 ==> without_key::<K, V>(l + seq![x] + r, k) == l + r,
{
    K::lemma_key_order();
    let p = key_differs::<K, V>(k);
    let mid = seq![x];
    Seq::filter_distributes_over_add(l + mid, r, p);
    Seq::filter_distributes_over_add(l, mid, p);
    if K::key_less(k, x.0) {
        lemma_filter_all(mid, p);
        lemma_filter_all(r, p);
        assert(without_key::<K, V>(l + seq![x] + r, k) =~= without_key::<K, V>(l, k) + seq![x]
            + r);
    } else if K::key_less(x.0, k) {
        lemma_filter_all(mid, p);
        lemma_filter_all(l, p);
        assert(without_key::<K, V>(l + seq![x] + r, k) =~= l + seq![x] + without_key::<K, V>(
            r,
            k,
        ));
    } else if k == x.0 {
        lemma_filter_none(mid, p);
        lemma_filter_all(l, p);
        lemma_filter_all(r, p);
        assert(without_key::<K, V>(l + seq![x] + r, k) =~= l + r);
    }
}

#[verifier::spinoff_prover]
/// Filtering keeps a sorted sequence sorted and only keeps its own entries.
pub(crate) proof fn lemma_filter_sorted<K: OrderedKey, V>(
    s: Seq<(K::V, V)>,
    p: spec_fn((K::V, V)) -> bool,
)
    requires
        sorted_keys::<K, V>(s),
    ensures
        sorted_keys::<K, V>(s.filter(p)),
        forall|i: int| 0 <= i < s.filter(p).len() ==> s.contains(#[trigger] s.filter(p)[i]),
    decreases s.len(),
{
    reveal_with_fuel(Seq::filter, 1);
    if s.len() > 0 {
        let d = s.drop_last();
        assert(sorted_keys::<K, V>(d)) by {
            assert forall|i: int, j: int| 0 <= i < j < d.len() implies K::key_less(
                d[i].0,
                d[j].0,
            ) by {
                assert(d[i] == s[i] && d[j] == s[j]);
            }
        }
        lemma_filter_sorted::<K, V>(d, p);
        let f = s.filter(p);
        let fd = d.filter(p);
        assert forall|i: int| 0 <= i < fd.len() implies s.contains(#[trigger] fd[i]) by {
            let j = choose|j: int| 0 <= j < d.len() && d[j] == fd[i];
            assert(s[j] == fd[i]);
        }
        if p(s.last()) {
            assert(f == fd.push(s.last()));
            assert forall|i: int, j: int| 0 <= i < j < f.len() implies K::key_less(
                f[i].0,
                f[j].0,
            ) by {
                if j == f.len() - 1 {
                    let m = choose|m: int| 0 <= m < d.len() && d[m] == fd[i];
                    assert(s[m] == fd[i]);
                    assert(K::key_less(s[m].0, s[s.len() - 1].0));
                } else {
                    assert(f[i] == fd[i] && f[j] == fd[j]);
                }
            }
            assert forall|i: int| 0 <= i < f.len() implies s.contains(#[trigger] f[i]) by {
                if i == f.len() - 1 {
                    assert(s[s.len() - 1] == f[i]);
                } else {
                    assert(f[i] == fd[i]);
                }
            }
        } else {
            assert(f == fd);
        }
    }
}

#[verifier::spinoff_prover]
/// Binding a key in a sorted sequence keeps it sorted.
proof fn lemma_upsert_sorted<K: OrderedKey, V>(s: Seq<(K::V, V)>, k: K::V, v: V)
    requires
        sorted_keys::<K, V>(s),
    ensures
        sorted_keys::<K, V>(upsert::<K, V>(s, k, v)),
{
    K::lemma_key_order();
    let lo = s.filter(key_below::<K, V>(k));
    let hi = s.filter(key_above::<K, V>(k));
    lemma_filter_sorted::<K, V>(s, key_below::<K, V>(k));
    lemma_filter_sorted::<K, V>(s, key_above::<K, V>(k));
    let u = upsert::<K, V>(s, k, v);
    assert forall|i: int| 0 <= i < lo.len() implies K::key_less(#[trigger] lo[i].0, k) by {
        s.lemma_filter_pred(key_below::<K, V>(k), i);
    }
    assert forall|i: int| 0 <= i < hi.len() implies K::key_less(k, #[trigger] hi[i].0) by {
        s.lemma_filter_pred(key_above::<K, V>(k), i);
    }
    assert forall|i: int, j: int| 0 <= i < j < u.len() implies K::key_less(u[i].0, u[j].0) by {
        if j < lo.len() {
            assert(u[i] == lo[i] && u[j] == lo[j]);
        } else if i > lo.len() {
            assert(u[i] == hi[i - lo.len() - 1] && u[j] == hi[j - lo.len() - 1]);
        } else if i == lo.len() {
            assert(u[j] == hi[j - lo.len() - 1]);
        } else if j == lo.len() {
            assert(u[i] == lo[i]);
        } else {
            assert(u[i] == lo[i] && u[j] == hi[j - lo.len() - 1]);
            assert(K::key_less(lo[i].0, k));
            assert(K::key_less(k, hi[j - lo.len() - 1].0));
        }
    }
}

/// Binding a key below `x` in `l + [x] + r` happens in `l`.
proof fn lemma_upsert_concat_left<K: OrderedKey, V>(
    l: Seq<(K::V, V)>,
    x: (K::V, V),
    r: Seq<(K::V, V)>,
    k: K::V,
    v: V,
)
    requires
        forall|i: int| 0 <= i < r.len() ==> K::key_less(x.0, #[trigger] r[i].0),
        K::key_less(k, x.0),
    ensures
        upsert::<K, V>(l + seq![x] + r, k, v) == upsert::<K, V>(l, k, v) + seq![x] + r,
{
    K::lemma_key_order();
    let below = key_below::<K, V>(k);
    let above = key_above::<K, V>(k);
    let mid = seq![x];
    Seq::filter_distributes_over_add(l + mid, r, below);
    Seq::filter_distributes_over_add(l, mid, below);
    Seq::filter_distributes_over_add(l + mid, r, above);
    Seq::filter_distributes_over_add(l, mid, above);
    lemma_filter_none(mid, below);
    lemma_filter_all(mid, above);
    lemma_filter_none(r, below);
    lemma_filter_all(r, above);
    assert(upsert::<K, V>(l + seq![x] + r, k, v) =~= upsert::<K, V>(l, k, v) + seq![x] + r);
}

/// Binding a key above `x` in `l + [x] + r` happens in `r`.
proof fn lemma_upsert_concat_right<K: OrderedKey, V>(
    l: Seq<(K::V, V)>,
    x: (K::V, V),
    r: Seq<(K::V, V)>,
    k: K::V,
    v: V,
)
    requires
        forall|i: int| 0 <= i < l.len() ==> K::key_less(#[trigger] l[i].0, x.0),
        K::key_less(x.0, k),
    ensures
        upsert::<K, V>(l + seq![x] + r, k, v) == l + seq![x] + upsert::<K, V>(r, k, v),
{
    K::lemma_key_order();
    let below = key_below::<K, V>(k);
    let above = key_above::<K, V>(k);
    let mid = seq![x];
    Seq::filter_distributes_over_add(l + mid, r, below);
    Seq::filter_distributes_over_add(l, mid, below);
    Seq::filter_distributes_over_add(l + mid, r, above);
    Seq::filter_distributes_over_add(l, mid, above);
    lemma_filter_all(mid, below);
    lemma_filter_none(mid, above);
    lemma_filter_all(l, below);
    lemma_filter_none(l, above);
    assert(upsert::<K, V>(l + seq![x] + r, k, v) =~= l + seq![x] + upsert::<K, V>(r, k, v));
}

/// Binding the key of `x` in `l + [x] + r` replaces `x`.
proof fn lemma_upsert_concat_here<K: OrderedKey, V>(
    l: Seq<(K::V, V)>,
    x: (K::V, V),
    r: Seq<(K::V, V)>,
    v: V,
)
    requires
        forall|i: int| 0 <= i < l.len() ==> K::key_less(#[trigger] l[i].0, x.0),
        forall|i: int| 0 <= i < r.len() ==> K::key_less(x.0, #[trigger] r[i].0),
    ensures
        upsert::<K, V>(l + seq![x] + r, x.0, v) == l + seq![(x.0, v)] + r,
{
    K::lemma_key_order();
    let k = x.0;
    let below = key_below::<K, V>(k);
    let above = key_above::<K, V>(k);
    let mid = seq![x];
    Seq::filter_distributes_over_add(l + mid, r, below);
    Seq::filter_distributes_over_add(l, mid, below);
    Seq::filter_distributes_over_add(l + mid, r, above);
    Seq::filter_distributes_over_add(l, mid, above);
    lemma_filter_none(mid, below);
    lemma_filter_none(mid, above);
    lemma_filter_all(l, below);
    lemma_filter_none(l, above);
    lemma_filter_none(r, below);
    lemma_filter_all(r, above);
    assert(upsert::<K, V>(l + seq![x] + r, k, v) =~= l + seq![(k, v)] + r);
}

#[verifier::spinoff_prover]
/// A search tree splits into two search trees around the root's key.
pub(crate) proof fn lemma_search_tree_split<K: OrderedKey, V>(n: Node<K, V>)
    requires
        is_search_tree::<K, V>(Some(Box::new(n))),
    ensures
        is_search_tree::<K, V>(n.left),
        is_search_tree::<K, V>(n.right),
        forall|i: int|
            0 <= i < entries(n.left).len() ==> K::key_less(#[trigger] entries(n.left)[i].0, n.key@),
        forall|i: int|
            0 <= i < entries(n.right).len() ==> K::key_less(n.key@, #[trigger] entries(n.right)[i].0),
{
    let l = entries(n.left);
    let r = entries(n.right);
    let s = entries(Some(Box::new(n)));
    assert(s == l + seq![(n.key@, n.value)] + r);
    assert forall|i: int, j: int| 0 <= i < j < l.len() implies K::key_less(l[i].0, l[j].0) by {
        assert(s[i] == l[i] && s[j] == l[j]);
    }
    assert forall|i: int, j: int| 0 <= i < j < r.len() implies K::key_less(r[i].0, r[j].0) by {
        assert(s[l.len() + 1 + i] == r[i] && s[l.len() + 1 + j] == r[j]);
    }
    assert forall|i: int| 0 <= i < l.len() implies K::key_less(#[trigger] l[i].0, n.key@) by {
        assert(s[i] == l[i] && s[l.len() as int] == (n.key@, n.value));
        assert(K::key_less(s[i].0, s[l.len() as int].0));
    }
    assert forall|i: int| 0 <= i < r.len() implies K::key_less(n.key@, #[trigger] r[i].0) by {
        assert(s[l.len() + 1 + i] == r[i] && s[l.len() as int] == (n.key@, n.value));
        assert(K::key_less(s[l.len() as int].0, s[l.len() + 1 + i].0));
    }
}

/// A right rotation undoes a left rotation, and the other way round.
pub proof fn lemma_rotations_inverse<K, V>(x: Node<K, V>)
    ensures
        x.right is Some ==> rotated_right(rotated_left(x)) == x,
        x.left is Some ==> rotated_left(rotated_right(x)) == x,
{
}

/// Rotations keep the entries in order.
proof fn lemma_rotate_left_entries<K: View, V>(x: Node<K, V>)
    requires
        x.right is Some,
    ensures
        entries(Some(Box::new(rotated_left(x)))) == entries(Some(Box::new(x))),
{
    let y = x.right.unwrap();
    reveal_with_fuel(entries, 3);
    assert(entries(Some(Box::new(rotated_left(x)))) =~= entries(x.left) + seq![(x.key@, x.value)]
        + entries(y.left) + seq![(y.key@, y.value)] + entries(y.right));
    assert(entries(Some(Box::new(x))) =~= entries(x.left) + seq![(x.key@, x.value)] + entries(
        y.left,
    ) + seq![(y.key@, y.value)] + entries(y.right));
}

proof fn lemma_rotate_right_entries<K: View, V>(y: Node<K, V>)
    requires
        y.left is Some,
    ensures
        entries(Some(Box::new(rotated_right(y)))) == entries(Some(Box::new(y))),
{
    let x = y.left.unwrap();
    reveal_with_fuel(entries, 3);
    assert(entries(Some(Box::new(rotated_right(y)))) =~= entries(x.left) + seq![(x.key@, x.value)]
        + entries(x.right) + seq![(y.key@, y.value)] + entries(y.right));
    assert(entries(Some(Box::new(y))) =~= entries(x.left) + seq![(x.key@, x.value)] + entries(
        x.right,
    ) + seq![(y.key@, y.value)] + entries(y.right));
}

#[verifier::spinoff_prover]
/// Rebalances a black node whose left subtree may be a red node with a red
/// child, by rotations and recoloring.
fn balance_left<K: OrderedKey, V>(n: Box<Node<K, V>>) -> (r: Box<Node<K, V>>)
    requires
        n.color == Color::Black,
        black_balanced(n.left),
        black_balanced(n.right),
        black_height(n.left) == black_height(n.right),
        no_red_red_below(n.left),
        no_red_red(n.right),
    ensures
        entries(Some(r)) == entries(Some(n)),
        no_red_red(Some(r)),
        black_balanced(Some(r)),
        black_height(Some(r)) == black_height(n.left) + 1,
{
    proof {
        reveal_with_fuel(entries, 3);
        reveal_with_fuel(no_red_red, 3);
        reveal_with_fuel(black_balanced, 3);
        reveal_with_fuel(black_height, 3);
    }
    let mut n = n;
    let (left_left_red, left_right_red) = match &n.left {
        Some(l) => (l.color == Color::Red && is_red(&l.left), l.color == Color::Red && is_red(
            &l.right,
        )),
        None => (false, false),
    };
    if left_left_red {
        let mut t = RBTree::<K, V>::rotate_right(n);
        let mut a = t.left.take().unwrap();
        a.color = Color::Black;
        t.left = Some(a);
        t
    } else if left_right_red {
        let l = n.left.take().unwrap();
        n.left = Some(RBTree::<K, V>::rotate_left(l));
        let mut t = RBTree::<K, V>::rotate_right(n);
        let mut a = t.left.take().unwrap();
        a.color = Color::Black;
        t.left = Some(a);
        t
    } else {
        n
    }
}

#[verifier::spinoff_prover]
/// Rebalances a black node whose right subtree may be a red node with a red
/// child, by rotations and recoloring.
fn balance_right<K: OrderedKey, V>(n: Box<Node<K, V>>) -> (r: Box<Node<K, V>>)
    requires
        n.color == Color::Black,
        black_balanced(n.left),
        black_balanced(n.right),
        black_height(n.left) == black_height(n.right),
        no_red_red(n.left),
        no_red_red_below(n.right),
    ensures
        entries(Some(r)) == entries(Some(n)),
        no_red_red(Some(r)),
        black_balanced(Some(r)),
        black_height(Some(r)) == black_height(n.left) + 1,
{
    proof {
        reveal_with_fuel(entries, 3);
        reveal_with_fuel(no_red_red, 3);
        reveal_with_fuel(black_balanced, 3);
        reveal_with_fuel(black_height, 3);
    }
    let mut n = n;
    let (right_right_red, right_left_red) = match &n.right {
        Some(r) => (r.color == Color::Red && is_red(&r.right), r.color == Color::Red && is_red(
            &r.left,
        )),
        None => (false, false),
    };
    if right_right_red {
        let mut t = RBTree::<K, V>::rotate_left(n);
        let mut c = t.right.take().unwrap();
        c.color = Color::Black;
        t.right = Some(c);
        t
    } else if right_left_red {
        let r = n.right.take().unwrap();
        n.right = Some(RBTree::<K, V>::rotate_right(r));
        let mut t = RBTree::<K, V>::rotate_left(n);
        let mut c = t.right.take().unwrap();
        c.color = Color::Black;
        t.right = Some(c);
        t
    } else {
        n
    }
}

#[verifier::spinoff_prover]
/// Binds `key` to `value` below `link`. The result has the same black height;
/// its root may be a red node with a red child only where `link` was red.
/// The flag tells whether the key was new.
fn insert_at<K: OrderedKey, V>(link: Link<K, V>, key: K, value: V) -> (r: (Box<Node<K, V>>, bool))
    requires
        is_search_tree::<K, V>(link),
        no_red_red(link),
        black_balanced(link),
    ensures
        entries(Some(r.0)) == upsert::<K, V>(entries(link), key@, value),
        entries(Some(r.0)).len() == entries(link).len() + if r.1 {
            1int
        } else {
            0int
        },
        black_balanced(Some(r.0)),
        black_height(Some(r.0)) == black_height(link),
        no_red_red_below(Some(r.0)),
        link_color(link) == Color::Black ==> no_red_red(Some(r.0)),
    decreases link,
{
    match link {
        None => {
            let ghost k = key@;
            let r = Node::new(key, value, Color::Red);
            proof {
                reveal_with_fuel(Seq::filter, 1);
                assert(entries(Some(r)) =~= upsert::<K, V>(entries(link), k, r.value));
            }
            (r, true)
        },
        Some(n) => {
            let mut n = n;
            let ghost old_n = *n;
            proof {
                lemma_search_tree_split::<K, V>(*n);
            }
            match key.compare(&n.key) {
                KeyComparison::Less => {
                    proof {
                        lemma_upsert_concat_left::<K, V>(
                            entries(n.left),
                            (n.key@, n.value),
                            entries(n.right),
                            key@,
                            value,
                        );
                    }
                    let left = n.left.take();
                    let (l2, added) = insert_at(left, key, value);
                    n.left = Some(l2);
                    match n.color {
                        Color::Black => (balance_left(n), added),
                        Color::Red => (n, added),
                    }
                },
                KeyComparison::Greater => {
                    proof {
                        lemma_upsert_concat_right::<K, V>(
                            entries(n.left),
                            (n.key@, n.value),
                            entries(n.right),
                            key@,
                            value,
                        );
                    }
                    let right = n.right.take();
                    let (r2, added) = insert_at(right, key, value);
                    n.right = Some(r2);
                    match n.color {
                        Color::Black => (balance_right(n), added),
                        Color::Red => (n, added),
                    }
                },
                KeyComparison::Equal => {
                    proof {
                        lemma_upsert_concat_here::<K, V>(
                            entries(n.left),
                            (n.key@, n.value),
                            entries(n.right),
                            value,
                        );
                    }
                    n.value = value;
                    (n, false)
                },
            }
        },
    }
}

#[verifier::spinoff_prover]
/// Restores balance at a node whose left subtree lost one unit of black
/// height: the result has the black height of the right subtree. The color
/// of `n` itself is not looked at.
fn fix_left_deficit<K: OrderedKey, V>(n: Box<Node<K, V>>) -> (r: Box<Node<K, V>>)
    requires
        black_balanced(n.left),
        black_balanced(n.right),
        black_height(n.left) + 1 == black_height(n.right),
        no_red_red_below(n.left),
        no_red_red(n.right),
    ensures
        entries(Some(r)) == entries(Some(n)),
        black_balanced(Some(r)),
        black_height(Some(r)) == black_height(n.right),
        no_red_red_below(Some(r)),
        link_color(n.right) == Color::Black ==> no_red_red(Some(r)),
{
    proof {
        reveal_with_fuel(entries, 3);
        reveal_with_fuel(no_red_red, 3);
        reveal_with_fuel(black_balanced, 3);
        reveal_with_fuel(black_height, 3);
    }
    let mut n = n;
    if is_red(&n.left) {
        let mut l = n.left.take().unwrap();
        l.color = Color::Black;
        n.left = Some(l);
        n.color = Color::Red;
        return n;
    }
    let (right_black, right_red_over_black) = match &n.right {
        Some(r) => (r.color == Color::Black, r.color == Color::Red && match &r.left {
            Some(rl) => rl.color == Color::Black,
            None => false,
        }),
        None => (false, false),
    };
    if right_black {
        let mut r = n.right.take().unwrap();
        r.color = Color::Red;
        n.right = Some(r);
        n.color = Color::Black;
        balance_right(n)
    } else if right_red_over_black {
        let ghost n0 = *n;
        let r = n.right.take().unwrap();
        n.right = Some(RBTree::<K, V>::rotate_right(r));
        let mut t = RBTree::<K, V>::rotate_left(n);
        t.color = Color::Red;
        let mut a = t.left.take().unwrap();
        a.color = Color::Black;
        t.left = Some(a);
        let mut c = t.right.take().unwrap();
        let ghost c0 = *c;
        proof {
            assert(c0.right == n0.right.unwrap().right);
            assert(black_height(c0.right) >= 1);
        }
        if let Some(mut t4) = c.right.take() {
            t4.color = Color::Red;
            c.right = Some(t4);
        }
        c.color = Color::Black;
        t.right = Some(balance_right(c));
        t
    } else {
        n.color = Color::Red;
        n
    }
}

#[verifier::spinoff_prover]
#[verifier::rlimit(60)]
/// Restores balance at a node whose right subtree lost one unit of black
/// height: the result has the black height of the left subtree. The color
/// of `n` itself is not looked at.
fn fix_right_deficit<K: OrderedKey, V>(n: Box<Node<K, V>>) -> (r: Box<Node<K, V>>)
    requires
        black_balanced(n.left),
        black_balanced(n.right),
        black_height(n.right) + 1 == black_height(n.left),
        no_red_red(n.left),
        no_red_red_below(n.right),
    ensures
        entries(Some(r)) == entries(Some(n)),
        black_balanced(Some(r)),
        black_height(Some(r)) == black_height(n.left),
        no_red_red_below(Some(r)),
        link_color(n.left) == Color::Black ==> no_red_red(Some(r)),
{
    proof {
        reveal_with_fuel(entries, 3);
        reveal_with_fuel(no_red_red, 3);
        reveal_with_fuel(black_balanced, 3);
        reveal_with_fuel(black_height, 3);
    }
    let mut n = n;
    if is_red(&n.right) {
        let mut r = n.right.take().unwrap();
        r.color = Color::Black;
        n.right = Some(r);
        n.color = Color::Red;
        return n;
    }
    let (left_black, left_red_over_black) = match &n.left {
        Some(l) => (l.color == Color::Black, l.color == Color::Red && match &l.right {
            Some(lr) => lr.color == Color::Black,
            None => false,
        }),
        None => (false, false),
    };
    if left_black {
        let mut l = n.left.take().unwrap();
        l.color = Color::Red;
        n.left = Some(l);
        n.color = Color::Black;
        balance_left(n)
    } else if left_red_over_black {
        let ghost n0 = *n;
        let l = n.left.take().unwrap();
        n.left = Some(RBTree::<K, V>::rotate_left(l));
        let mut t = RBTree::<K, V>::rotate_right(n);
        t.color = Color::Red;
        let mut c = t.right.take().unwrap();
        c.color = Color::Black;
        t.right = Some(c);
        let mut a = t.left.take().unwrap();
        let ghost a0 = *a;
        proof {
            assert(a0.left == n0.left.unwrap().left);
            assert(black_height(a0.left) >= 1);
        }
        if let Some(mut t1) = a.left.take() {
            t1.color = Color::Red;
            a.left = Some(t1);
        }
        a.color = Color::Black;
        t.left = Some(balance_left(a));
        t
    } else {
        n.color = Color::Red;
        n
    }
}

/// What `join` needs: two trees of equal black height without red-red edges.
spec fn join_ready<K, V>(l: Link<K, V>, r: Link<K, V>) -> bool {
    &&& black_balanced(l)
    &&& black_balanced(r)
    &&& black_height(l) == black_height(r)
    &&& no_red_red(l)
    &&& no_red_red(r)
}

/// What `join` gives: the entries of `l` then those of `r`, in a tree of the
/// same black height whose root alone may be red over red, and not even that
/// when both inputs have black roots.
spec fn joined<K: View, V>(l: Link<K, V>, r: Link<K, V>, t: Link<K, V>) -> bool {
    &&& entries(t) == entries(l) + entries(r)
    &&& black_balanced(t)
    &&& black_height(t) == black_height(l)
    &&& no_red_red_below(t)
    &&& link_color(l) == Color::Black && link_color(r) == Color::Black ==> no_red_red(t)
}

/// Joins two trees of equal black height whose entries follow one another.
fn join<K: OrderedKey, V>(l: Link<K, V>, r: Link<K, V>) -> (t: Link<K, V>)
    requires
        join_ready(l, r),
    ensures
        joined(l, r, t),
    decreases size(l) + size(r), 1nat,
{
    match l {
        None => {
            assert(entries(l) + entries(r) =~= entries(r));
            r
        },
        Some(ln) => match r {
            None => {
                assert(entries(l) + entries(r) =~= entries(l));
                Some(ln)
            },
            Some(rn) => {
                if ln.color == Color::Red && rn.color == Color::Red {
                    join_red_red(ln, rn)
                } else if ln.color == Color::Black && rn.color == Color::Black {
                    join_black_black(ln, rn)
                } else if rn.color == Color::Red {
                    join_under_right(ln, rn)
                } else {
                    join_under_left(ln, rn)
                }
            },
        },
    }
}

/// `n` with its left subtree replaced.
spec fn with_left<K, V>(n: Node<K, V>, l: Link<K, V>) -> Node<K, V> {
    Node { key: n.key, value: n.value, color: n.color, left: l, right: n.right }
}

/// `n` with its right subtree replaced.
spec fn with_right<K, V>(n: Node<K, V>, r: Link<K, V>) -> Node<K, V> {
    Node { key: n.key, value: n.value, color: n.color, left: n.left, right: r }
}

/// The middle node `m` raised above `l` and `r`, which take its subtrees.
spec fn spliced<K, V>(l: Node<K, V>, m: Node<K, V>, r: Node<K, V>) -> Node<K, V> {
    Node {
        key: m.key,
        value: m.value,
        color: m.color,
        left: Some(Box::new(with_right(l, m.left))),
        right: Some(Box::new(with_left(r, m.right))),
    }
}

#[verifier::spinoff_prover]
/// The entries after putting the joined inner subtrees `m` of `l` and `r` back
/// in either of the two ways.
proof fn lemma_join_entries<K: OrderedKey, V>(l: Node<K, V>, r: Node<K, V>, m: Link<K, V>)
    requires
        entries(m) == entries(l.right) + entries(r.left),
    ensures
        m is Some ==> entries(Some(Box::new(spliced(l, *m.unwrap(), r)))) == entries(
            Some(Box::new(l)),
        ) + entries(Some(Box::new(r))),
        entries(Some(Box::new(with_right(l, Some(Box::new(with_left(r, m))))))) == entries(
            Some(Box::new(l)),
        ) + entries(Some(Box::new(r))),
{
    let el = entries(l.left);
    let er = entries(r.right);
    let xa = seq![(l.key@, l.value)];
    let xc = seq![(r.key@, r.value)];
    assert(entries(Some(Box::new(l))) == el + xa + entries(l.right));
    assert(entries(Some(Box::new(r))) == entries(r.left) + xc + er);
    assert(entries(Some(Box::new(l))) + entries(Some(Box::new(r))) =~= el + xa + (entries(l.right)
        + entries(r.left)) + xc + er);
    if m is Some {
        let m0 = *m.unwrap();
        let xm = seq![(m0.key@, m0.value)];
        let t = spliced(l, m0, r);
        assert(entries(m) == entries(m0.left) + xm + entries(m0.right));
        assert(entries(t.left) == el + xa + entries(m0.left));
        assert(entries(t.right) == entries(m0.right) + xc + er);
        assert(entries(Some(Box::new(t))) =~= el + xa + (entries(m0.left) + xm + entries(
            m0.right,
        )) + xc + er);
    }
    let n = with_right(l, Some(Box::new(with_left(r, m))));
    assert(entries(n.right) == entries(m) + xc + er);
    assert(entries(Some(Box::new(n))) =~= el + xa + entries(m) + xc + er);
}

#[verifier::spinoff_prover]
/// Splicing a red middle node between two roots of one color keeps the
/// black height and leaves no red-red edge below the (red) top.
proof fn lemma_join_splice_balance<K, V>(l: Node<K, V>, r: Node<K, V>, m: Node<K, V>)
    requires
        join_ready(Some(Box::new(l)), Some(Box::new(r))),
        l.color == r.color,
        m.color == Color::Red,
        black_balanced(Some(Box::new(m))),
        black_height(Some(Box::new(m))) == black_height(l.right),
        no_red_red_below(Some(Box::new(m))),
        l.color == Color::Red ==> no_red_red(Some(Box::new(m))),
    ensures
        ({
            let t = Some(Box::new(spliced(l, m, r)));
            &&& black_balanced(t)
            &&& black_height(t) == black_height(Some(Box::new(l)))
            &&& no_red_red_below(t)
            &&& l.color == Color::Black ==> no_red_red(t)
        }),
{
    reveal_with_fuel(no_red_red, 2);
    reveal_with_fuel(black_balanced, 2);
    reveal_with_fuel(black_height, 2);
}

#[verifier::spinoff_prover]
/// Nesting the joined inner subtrees `m` under the right root, itself under
/// the left root: for red roots this is balanced; for black roots the left
/// side is one black level short.
proof fn lemma_join_nest_balance<K, V>(l: Node<K, V>, r: Node<K, V>, m: Link<K, V>)
    requires
        join_ready(Some(Box::new(l)), Some(Box::new(r))),
        l.color == r.color,
        !link_is_red(m),
        black_balanced(m),
        black_height(m) == black_height(l.right),
        no_red_red_below(m),
    ensures
        ({
            let n = with_right(l, Some(Box::new(with_left(r, m))));
            &&& l.color == Color::Red ==> {
                &&& black_balanced(Some(Box::new(n)))
                &&& black_height(Some(Box::new(n))) == black_height(Some(Box::new(l)))
                &&& no_red_red_below(Some(Box::new(n)))
            }
            &&& l.color == Color::Black ==> {
                &&& black_balanced(n.left)
                &&& black_balanced(n.right)
                &&& black_height(n.left) + 1 == black_height(n.right)
                &&& no_red_red_below(n.left)
                &&& no_red_red(n.right)
                &&& link_color(n.right) == Color::Black
                &&& black_height(n.right) == black_height(Some(Box::new(l)))
            }
        }),
{
    reveal_with_fuel(no_red_red, 2);
    reveal_with_fuel(black_balanced, 2);
    reveal_with_fuel(black_height, 2);
}

/// Joins two red roots: their inner subtrees are joined and the result is
/// spliced between them.
fn join_red_red<K: OrderedKey, V>(ln: Box<Node<K, V>>, rn: Box<Node<K, V>>) -> (t: Link<K, V>)
    requires
        join_ready(Some(ln), Some(rn)),
        ln.color == Color::Red,
        rn.color == Color::Red,
    ensures
        joined(Some(ln), Some(rn), t),
    decreases size(Some(ln)) + size(Some(rn)), 0nat,
{
    let ghost l0 = *ln;
    let ghost r0 = *rn;
    let mut ln = ln;
    let mut rn = rn;
    let t23 = join(ln.right.take(), rn.left.take());
    proof {
        lemma_join_entries(l0, r0, t23);
        if link_is_red(t23) {
            lemma_join_splice_balance(l0, r0, *t23.unwrap());
        } else {
            lemma_join_nest_balance(l0, r0, t23);
        }
    }
    if is_red(&t23) {
        let mut m = t23.unwrap();
        ln.right = m.left.take();
        rn.left = m.right.take();
        m.left = Some(ln);
        m.right = Some(rn);
        Some(m)
    } else {
        rn.left = t23;
        ln.right = Some(rn);
        Some(ln)
    }
}

/// Joins two black roots: their inner subtrees are joined; a red result is
/// spliced between them, otherwise the left root takes the rest and is
/// rebalanced.
fn join_black_black<K: OrderedKey, V>(ln: Box<Node<K, V>>, rn: Box<Node<K, V>>) -> (t: Link<
    K,
    V,
>)
    requires
        join_ready(Some(ln), Some(rn)),
        ln.color == Color::Black,
        rn.color == Color::Black,
    ensures
        joined(Some(ln), Some(rn), t),
    decreases size(Some(ln)) + size(Some(rn)), 0nat,
{
    let ghost l0 = *ln;
    let ghost r0 = *rn;
    let mut ln = ln;
    let mut rn = rn;
    let t23 = join(ln.right.take(), rn.left.take());
    proof {
        lemma_join_entries(l0, r0, t23);
        if link_is_red(t23) {
            lemma_join_splice_balance(l0, r0, *t23.unwrap());
        } else {
            lemma_join_nest_balance(l0, r0, t23);
        }
    }
    if is_red(&t23) {
        let mut m = t23.unwrap();
        ln.right = m.left.take();
        rn.left = m.right.take();
        m.left = Some(ln);
        m.right = Some(rn);
        Some(m)
    } else {
        rn.left = t23;
        ln.right = Some(rn);
        Some(fix_left_deficit(ln))
    }
}

/// Joins a black left root with a red right root: the left tree is joined
/// into the right root's left subtree.
fn join_under_right<K: OrderedKey, V>(ln: Box<Node<K, V>>, rn: Box<Node<K, V>>) -> (t: Link<
    K,
    V,
>)
    requires
        join_ready(Some(ln), Some(rn)),
        ln.color == Color::Black,
        rn.color == Color::Red,
    ensures
        joined(Some(ln), Some(rn), t),
    decreases size(Some(ln)) + size(Some(rn)), 0nat,
{
    proof {
        reveal_with_fuel(no_red_red, 2);
        reveal_with_fuel(black_balanced, 2);
        reveal_with_fuel(black_height, 2);
    }
    let ghost l = Some(ln);
    let ghost r = Some(rn);
    let ghost r0 = *rn;
    let mut rn = rn;
    let t = join(Some(ln), rn.left.take());
    rn.left = t;
    proof {
        assert(entries(Some(rn)) =~= entries(l) + entries(r));
    }
    Some(rn)
}

/// Joins a red left root with a black right root: the right tree is joined
/// into the left root's right subtree.
fn join_under_left<K: OrderedKey, V>(ln: Box<Node<K, V>>, rn: Box<Node<K, V>>) -> (t: Link<
    K,
    V,
>)
    requires
        join_ready(Some(ln), Some(rn)),
        ln.color == Color::Red,
        rn.color == Color::Black,
    ensures
        joined(Some(ln), Some(rn), t),
    decreases size(Some(ln)) + size(Some(rn)), 0nat,
{
    proof {
        reveal_with_fuel(no_red_red, 2);
        reveal_with_fuel(black_balanced, 2);
        reveal_with_fuel(black_height, 2);
    }
    let ghost l = Some(ln);
    let ghost r = Some(rn);
    let ghost l0 = *ln;
    let mut ln = ln;
    let t = join(ln.right.take(), Some(rn));
    ln.right = t;
    proof {
        assert(entries(Some(ln)) =~= entries(l) + entries(r));
    }
    Some(ln)
}

/// `found` is the value bound to `k` in `s`, or `None` when `s` has no entry
/// for `k`.
pub open spec fn reports<K: OrderedKey, V>(s: Seq<(K::V, V)>, k: K::V, found: Option<V>) -> bool {
    match found {
        Some(v) => exists|i: int| 0 <= i < s.len() && #[trigger] s[i] == (k, v),
        None => forall|i: int| 0 <= i < s.len() ==> #[trigger] s[i].0 != k,
    }
}

/// The value bound to `k` in `s`, if any.
pub open spec fn value_of<K: OrderedKey, V>(s: Seq<(K::V, V)>, k: K::V) -> Option<V> {
    if exists|i: int| 0 <= i < s.len() && #[trigger] s[i].0 == k {
        Some(s[choose|i: int| 0 <= i < s.len() && #[trigger] s[i].0 == k].1)
    } else {
        None
    }
}

/// In a sorted sequence a key has at most one entry, so what a search
/// reports is the value bound to the key.
pub(crate) proof fn lemma_reports_value_of<K: OrderedKey, V>(s: Seq<(K::V, V)>, k: K::V, found: Option<V>)
    requires
        sorted_keys::<K, V>(s),
        reports::<K, V>(s, k, found),
    ensures
        value_of::<K, V>(s, k) == found,
{
    K::lemma_key_order();
    if found is Some {
        let v = found->0;
        let i = choose|i: int| 0 <= i < s.len() && #[trigger] s[i] == (k, v);
        assert(s[i].0 == k);
        let j = choose|j: int| 0 <= j < s.len() && #[trigger] s[j].0 == k;
        if i < j {
            assert(K::key_less(s[i].0, s[j].0));
        } else if j < i {
            assert(K::key_less(s[j].0, s[i].0));
        }
    }
}

/// Entries whose key is `k`.
pub open spec fn key_equals<K: OrderedKey, V>(k: K::V) -> spec_fn((K::V, V)) -> bool {
    |e: (K::V, V)| e.0 == k
}

/// Every entry has its key below, at, or above `k`, and only one of these.
proof fn lemma_filter_partition<K: OrderedKey, V>(s: Seq<(K::V, V)>, k: K::V)
    ensures
        s.filter(key_below::<K, V>(k)).len() + s.filter(key_above::<K, V>(k)).len() + s.filter(
            key_equals::<K, V>(k),
        ).len() == s.len(),
        s.filter(key_below::<K, V>(k)).len() + s.filter(key_above::<K, V>(k)).len() == s.filter(
            key_differs::<K, V>(k),
        ).len(),
    decreases s.len(),
{
    reveal_with_fuel(Seq::filter, 1);
    K::lemma_key_order();
    if s.len() > 0 {
        lemma_filter_partition::<K, V>(s.drop_last(), k);
    }
}

/// In a sorted sequence, at most one entry has key `k`, and one does exactly
/// when `k` is bound.
proof fn lemma_filter_equals_len<K: OrderedKey, V>(s: Seq<(K::V, V)>, k: K::V)
    requires
        sorted_keys::<K, V>(s),
    ensures
        s.filter(key_equals::<K, V>(k)).len() == if value_of::<K, V>(s, k) is Some {
            1int
        } else {
            0int
        },
{
    K::lemma_key_order();
    let p = key_equals::<K, V>(k);
    let f = s.filter(p);
    lemma_filter_sorted::<K, V>(s, p);
    assert forall|i: int| 0 <= i < f.len() implies #[trigger] f[i].0 == k by {
        s.lemma_filter_pred(p, i);
    }
    if f.len() > 1 {
        assert(K::key_less(f[0].0, f[1].0));
    }
    if value_of::<K, V>(s, k) is Some {
        let i = choose|i: int| 0 <= i < s.len() && #[trigger] s[i].0 == k;
        s.lemma_filter_contains(p, i);
    } else if f.len() > 0 {
        let j = choose|j: int| 0 <= j < s.len() && s[j] == f[0];
        assert(s[j].0 == k);
    }
}

/// Reading back what was just bound gives the bound value, and every other
/// key keeps its value.
pub proof fn lemma_value_of_upsert<K: OrderedKey, V>(s: Seq<(K::V, V)>, k: K::V, v: V, other: K::V)
    requires
        sorted_keys::<K, V>(s),
    ensures
        value_of::<K, V>(upsert::<K, V>(s, k, v), k) == Some(v),
        other != k ==> value_of::<K, V>(upsert::<K, V>(s, k, v), other) == value_of::<K, V>(
            s,
            other,
        ),
{
    K::lemma_key_order();
    let lo = s.filter(key_below::<K, V>(k));
    let hi = s.filter(key_above::<K, V>(k));
    let u = upsert::<K, V>(s, k, v);
    lemma_upsert_sorted::<K, V>(s, k, v);
    lemma_filter_sorted::<K, V>(s, key_below::<K, V>(k));
    lemma_filter_sorted::<K, V>(s, key_above::<K, V>(k));
    assert(u[lo.len() as int] == (k, v));
    lemma_reports_value_of::<K, V>(u, k, Some(v));
    if other != k {
        let f = value_of::<K, V>(s, other);
        if f is Some {
            let i = choose|i: int| 0 <= i < s.len() && #[trigger] s[i].0 == other;
            lemma_reports_value_of::<K, V>(s, other, Some(s[i].1));
            if K::key_less(other, k) {
                s.lemma_filter_contains(key_below::<K, V>(k), i);
                let j = choose|j: int| 0 <= j < lo.len() && lo[j] == s[i];
                assert(u[j] == s[i]);
            } else {
                s.lemma_filter_contains(key_above::<K, V>(k), i);
                let j = choose|j: int| 0 <= j < hi.len() && hi[j] == s[i];
                assert(u[lo.len() + 1 + j] == s[i]);
            }
            lemma_reports_value_of::<K, V>(u, other, f);
        } else {
            assert forall|j: int| 0 <= j < u.len() implies #[trigger] u[j].0 != other by {
                if j < lo.len() {
                    assert(u[j] == lo[j]);
                    assert(s.contains(lo[j]));
                } else if j > lo.len() {
                    assert(u[j] == hi[j - lo.len() - 1]);
                    assert(s.contains(hi[j - lo.len() - 1]));
                }
            }
            lemma_reports_value_of::<K, V>(u, other, None);
        }
    }
}

/// After removing `k`, it is unbound, and every other key keeps its value.
pub proof fn lemma_value_of_without_key<K: OrderedKey, V>(s: Seq<(K::V, V)>, k: K::V, other: K::V)
    requires
        sorted_keys::<K, V>(s),
    ensures
        value_of::<K, V>(without_key::<K, V>(s, k), k) is None,
        other != k ==> value_of::<K, V>(without_key::<K, V>(s, k), other) == value_of::<K, V>(
            s,
            other,
        ),
{
    let p = key_differs::<K, V>(k);
    let w = without_key::<K, V>(s, k);
    lemma_filter_sorted::<K, V>(s, p);
    assert forall|j: int| 0 <= j < w.len() implies #[trigger] w[j].0 != k by {
        s.lemma_filter_pred(p, j);
    }
    lemma_reports_value_of::<K, V>(w, k, None);
    if other != k {
        let f = value_of::<K, V>(s, other);
        if f is Some {
            let i = choose|i: int| 0 <= i < s.len() && #[trigger] s[i].0 == other;
            lemma_reports_value_of::<K, V>(s, other, Some(s[i].1));
            s.lemma_filter_contains(p, i);
            let j = choose|j: int| 0 <= j < w.len() && w[j] == s[i];
            lemma_reports_value_of::<K, V>(w, other, f);
        } else {
            assert forall|j: int| 0 <= j < w.len() implies #[trigger] w[j].0 != other by {
                assert(s.contains(w[j]));
            }
            lemma_reports_value_of::<K, V>(w, other, None);
        }
    }
}

/// In a sorted sequence with no entry for `k`, the entries below `k` come
/// first: there is an index before which keys are below `k` and from which
/// they are above it.
#[verifier::spinoff_prover]
proof fn lemma_split_index<K: OrderedKey, V>(s: Seq<(K::V, V)>, k: K::V) -> (n: int)
    requires
        sorted_keys::<K, V>(s),
        forall|i: int| 0 <= i < s.len() ==> #[trigger] s[i].0 != k,
    ensures
        0 <= n <= s.len(),
        forall|i: int| 0 <= i < n ==> K::key_less(#[trigger] s[i].0, k),
        forall|i: int| n <= i < s.len() ==> K::key_less(k, #[trigger] s[i].0),
    decreases s.len(),
{
    if s.len() == 0 {
        0
    } else {
        let d = s.drop_last();
        let last = s.len() - 1;
        assert(sorted_keys::<K, V>(d)) by {
            assert forall|i: int, j: int| 0 <= i < j < d.len() implies K::key_less(d[i].0, d[j].0) by {
                assert(d[i] == s[i] && d[j] == s[j]);
            }
        }
        assert forall|i: int| 0 <= i < d.len() implies #[trigger] d[i].0 != k by {
            assert(d[i] == s[i]);
        }
        let m = lemma_split_index::<K, V>(d, k);
        assert(s[last].0 != k);
        if K::key_less(s[last].0, k) {
            assert forall|i: int| 0 <= i < s.len() implies K::key_less(#[trigger] s[i].0, k) by {
                if i < last {
                    assert(K::key_less(s[i].0, s[last].0));
                    K::lemma_key_order();
                }
            }
            s.len() as int
        } else {
            assert(K::key_less(k, s[last].0)) by {
                K::lemma_key_order();
            }
            assert forall|i: int| 0 <= i < m implies K::key_less(#[trigger] s[i].0, k) by {
                assert(d[i] == s[i]);
            }
            assert forall|i: int| m <= i < s.len() implies K::key_less(k, #[trigger] s[i].0) by {
                if i < last {
                    assert(d[i] == s[i]);
                }
            }
            m
        }
    }
}

/// A sorted sequence with no entry for `k` is its entries below `k`
/// followed by its entries above `k`.
proof fn lemma_split_around_absent<K: OrderedKey, V>(s: Seq<(K::V, V)>, k: K::V)
    requires
        sorted_keys::<K, V>(s),
        forall|i: int| 0 <= i < s.len() ==> #[trigger] s[i].0 != k,
    ensures
        s.filter(key_below::<K, V>(k)) + s.filter(key_above::<K, V>(k)) == s,
{
    let n = lemma_split_index::<K, V>(s, k);
    let below = key_below::<K, V>(k);
    let above = key_above::<K, V>(k);
    let a = s.take(n);
    let b = s.skip(n);
    assert(a + b =~= s);
    Seq::filter_distributes_over_add(a, b, below);
    Seq::filter_distributes_over_add(a, b, above);
    assert forall|i: int| 0 <= i < a.len() implies below(a[i]) by {
        assert(a[i] == s[i]);
    }
    assert forall|i: int| 0 <= i < a.len() implies !above(a[i]) by {
        assert(a[i] == s[i]);
        K::lemma_key_order();
    }
    assert forall|i: int| 0 <= i < b.len() implies above(b[i]) by {
        assert(b[i] == s[n + i]);
    }
    assert forall|i: int| 0 <= i < b.len() implies !below(b[i]) by {
        assert(b[i] == s[n + i]);
        K::lemma_key_order();
    }
    lemma_filter_all(a, below);
    lemma_filter_none(b, below);
    lemma_filter_none(a, above);
    lemma_filter_all(b, above);
    assert(s.filter(below) + s.filter(above) =~= a + b);
}

/// Removing `k` from `lo + [(k, v)] + hi`, where the keys of `lo` are below
/// `k` and those of `hi` above it, leaves `lo + hi`.
proof fn lemma_without_key_between<K: OrderedKey, V>(
    lo: Seq<(K::V, V)>,
    hi: Seq<(K::V, V)>,
    k: K::V,
    v: V,
)
    requires
        forall|i: int| 0 <= i < lo.len() ==> K::key_less(#[trigger] lo[i].0, k),
        forall|i: int| 0 <= i < hi.len() ==> K::key_less(k, #[trigger] hi[i].0),
    ensures
        without_key::<K, V>(lo + seq![(k, v)] + hi, k) == lo + hi,
{
    let mid = seq![(k, v)];
    let p = key_differs::<K, V>(k);
    Seq::filter_distributes_over_add(lo + mid, hi, p);
    Seq::filter_distributes_over_add(lo, mid, p);
    assert forall|i: int| 0 <= i < lo.len() implies p(lo[i]) by {
        K::lemma_key_order();
    }
    assert forall|i: int| 0 <= i < hi.len() implies p(hi[i]) by {
        K::lemma_key_order();
    }
    lemma_filter_all(lo, p);
    lemma_filter_all(hi, p);
    lemma_filter_none(mid, p);
    assert(without_key::<K, V>(lo + mid + hi, k) =~= lo + hi);
}

/// Binding a key that was unbound and then removing it gives back the
/// original entries.
pub proof fn lemma_without_key_upsert<K: OrderedKey, V>(s: Seq<(K::V, V)>, k: K::V, v: V)
    requires
        sorted_keys::<K, V>(s),
        value_of::<K, V>(s, k) is None,
    ensures
        without_key::<K, V>(upsert::<K, V>(s, k, v), k).len() == s.len(),
        forall|i: int|
            0 <= i < s.len() ==> #[trigger] without_key::<K, V>(upsert::<K, V>(s, k, v), k)[i]
                == s[i],
{
    assert forall|i: int| 0 <= i < s.len() implies #[trigger] s[i].0 != k by {
        if s[i].0 == k {
            assert(exists|j: int| 0 <= j < s.len() && #[trigger] s[j].0 == k);
        }
    }
    let lo = s.filter(key_below::<K, V>(k));
    let hi = s.filter(key_above::<K, V>(k));
    assert forall|i: int| 0 <= i < lo.len() implies K::key_less(#[trigger] lo[i].0, k) by {
        s.lemma_filter_pred(key_below::<K, V>(k), i);
    }
    assert forall|i: int| 0 <= i < hi.len() implies K::key_less(k, #[trigger] hi[i].0) by {
        s.lemma_filter_pred(key_above::<K, V>(k), i);
    }
    lemma_without_key_between::<K, V>(lo, hi, k, v);
    lemma_split_around_absent::<K, V>(s, k);
}

/// Binding a new key adds one entry, rebinding a key adds none; removing a
/// bound key takes one entry away, removing an unbound key none.
pub proof fn lemma_len_upsert_without_key<K: OrderedKey, V>(s: Seq<(K::V, V)>, k: K::V, v: V)
    requires
        sorted_keys::<K, V>(s),
    ensures
        upsert::<K, V>(s, k, v).len() == s.len() + if value_of::<K, V>(s, k) is Some {
            0int
        } else {
            1int
        },
        without_key::<K, V>(s, k).len() + if value_of::<K, V>(s, k) is Some {
            1int
        } else {
            0int
        } == s.len(),
{
    lemma_filter_partition::<K, V>(s, k);
    lemma_filter_equals_len::<K, V>(s, k);
}

/// What a search below `x` reports holds of `l + [x] + r`.
proof fn lemma_reports_left<K: OrderedKey, V>(
    l: Seq<(K::V, V)>,
    x: (K::V, V),
    r: Seq<(K::V, V)>,
    k: K::V,
    found: Option<V>,
)
    requires
        reports::<K, V>(l, k, found),
        K::key_less(k, x.0),
        forall|i: int| 0 <= i < r.len() ==> K::key_less(x.0, #[trigger] r[i].0),
    ensures
        reports::<K, V>(l + seq![x] + r, k, found),
{
    K::lemma_key_order();
    let s = l + seq![x] + r;
    if found is Some {
        let v = found->0;
        let i = choose|i: int| 0 <= i < l.len() && #[trigger] l[i] == (k, v);
        assert(s[i] == l[i]);
    } else {
        assert forall|i: int| 0 <= i < s.len() implies #[trigger] s[i].0 != k by {
            if i < l.len() {
                assert(s[i] == l[i]);
            } else if i > l.len() {
                assert(s[i] == r[i - l.len() - 1]);
            }
        }
    }
}

/// What a search above `x` reports holds of `l + [x] + r`.
proof fn lemma_reports_right<K: OrderedKey, V>(
    l: Seq<(K::V, V)>,
    x: (K::V, V),
    r: Seq<(K::V, V)>,
    k: K::V,
    found: Option<V>,
)
    requires
        reports::<K, V>(r, k, found),
        K::key_less(x.0, k),
        forall|i: int| 0 <= i < l.len() ==> K::key_less(#[trigger] l[i].0, x.0),
    ensures
        reports::<K, V>(l + seq![x] + r, k, found),
{
    K::lemma_key_order();
    let s = l + seq![x] + r;
    if found is Some {
        let v = found->0;
        let i = choose|i: int| 0 <= i < r.len() && #[trigger] r[i] == (k, v);
        assert(s[l.len() + 1 + i] == r[i]);
    } else {
        assert forall|i: int| 0 <= i < s.len() implies #[trigger] s[i].0 != k by {
            if i < l.len() {
                assert(s[i] == l[i]);
            } else if i > l.len() {
                assert(s[i] == r[i - l.len() - 1]);
            }
        }
    }
}

/// What `delete_at` promises of removing `k` from `link` into `t`.
spec fn deleted<K: OrderedKey, V>(link: Link<K, V>, k: K::V, t: Link<K, V>, found: Option<V>) -> bool {
    &&& entries(t) == without_key::<K, V>(entries(link), k)
    &&& reports::<K, V>(entries(link), k, found)
    &&& entries(t).len() + (if found is Some { 1int } else { 0int }) == entries(link).len()
    &&& black_balanced(t)
    &&& link is None ==> t is None
    &&& link_color(link) == Color::Red ==> black_height(t) == black_height(link) && no_red_red(t)
    &&& link is Some && link_color(link) == Color::Black ==> black_height(t) + 1 == black_height(
        link,
    ) && no_red_red_below(t)
}

/// Removes the entry for `key` below `link` and hands back its value. A red
/// tree keeps its black height; a black one loses one level and may end in a
/// red root over a red child.
fn delete_at<K: OrderedKey, V>(link: Link<K, V>, key: &K) -> (r: (Link<K, V>, Option<V>))
    requires
        is_search_tree::<K, V>(link),
        no_red_red(link),
        black_balanced(link),
    ensures
        deleted(link, key@, r.0, r.1),
    decreases size(link), 1nat,
{
    match link {
        None => {
            proof {
                reveal_with_fuel(Seq::filter, 1);
            }
            (None, None)
        },
        Some(n) => {
            let ghost el = entries(n.left);
            let ghost er = entries(n.right);
            let ghost x = (n.key@, n.value);
            proof {
                lemma_search_tree_split::<K, V>(*n);
                lemma_without_key_concat::<K, V>(el, x, er, key@);
                assert(entries(link) == el + seq![x] + er);
            }
            match key.compare(&n.key) {
                KeyComparison::Less => delete_in_left(n, key),
                KeyComparison::Greater => delete_in_right(n, key),
                KeyComparison::Equal => {
                    let n = *n;
                    proof {
                        assert(entries(link)[el.len() as int] == x);
                    }
                    (join(n.left, n.right), Some(n.value))
                },
            }
        },
    }
}

/// Removes `key`, which lies below `n`'s key, from `n`'s left subtree.
#[verifier::rlimit(40)]
#[verifier::spinoff_prover]
fn delete_in_left<K: OrderedKey, V>(n: Box<Node<K, V>>, key: &K) -> (r: (Link<K, V>, Option<V>))
    requires
        is_search_tree::<K, V>(Some(n)),
        no_red_red(Some(n)),
        black_balanced(Some(n)),
        K::key_less(key@, n.key@),
    ensures
        deleted(Some(n), key@, r.0, r.1),
    decreases size(Some(n)), 0nat,
{
    let mut n = n;
    let ghost n0 = *n;
    let ghost el = entries(n0.left);
    let ghost er = entries(n0.right);
    let ghost x = (n0.key@, n0.value);
    proof {
        lemma_search_tree_split::<K, V>(*n);
        lemma_without_key_concat::<K, V>(el, x, er, key@);
    }
    let left_black = match &n.left {
        Some(l) => l.color == Color::Black,
        None => false,
    };
    let (l2, found) = delete_at(n.left.take(), key);
    n.left = l2;
    proof {
        lemma_reports_left::<K, V>(el, x, er, key@, found);
        assert(entries(Some(n)) == entries(l2) + seq![x] + er);
    }
    if left_black {
        (Some(fix_left_deficit(n)), found)
    } else {
        n.color = Color::Red;
        (Some(n), found)
    }
}

/// Removes `key`, which lies above `n`'s key, from `n`'s right subtree.
#[verifier::rlimit(40)]
#[verifier::spinoff_prover]
fn delete_in_right<K: OrderedKey, V>(n: Box<Node<K, V>>, key: &K) -> (r: (Link<K, V>, Option<V>))
    requires
        is_search_tree::<K, V>(Some(n)),
        no_red_red(Some(n)),
        black_balanced(Some(n)),
        K::key_less(n.key@, key@),
    ensures
        deleted(Some(n), key@, r.0, r.1),
    decreases size(Some(n)), 0nat,
{
    let mut n = n;
    let ghost n0 = *n;
    let ghost el = entries(n0.left);
    let ghost er = entries(n0.right);
    let ghost x = (n0.key@, n0.value);
    proof {
        lemma_search_tree_split::<K, V>(*n);
        lemma_without_key_concat::<K, V>(el, x, er, key@);
    }
    let right_black = match &n.right {
        Some(r) => r.color == Color::Black,
        None => false,
    };
    let (r2, found) = delete_at(n.right.take(), key);
    n.right = r2;
    proof {
        lemma_reports_right::<K, V>(el, x, er, key@, found);
        assert(entries(Some(n)) == el + seq![x] + entries(r2));
    }
    if right_black {
        (Some(fix_right_deficit(n)), found)
    } else {
        n.color = Color::Red;
        (Some(n), found)
    }
}

/// Looks `key` up below `link`.
fn get_at<'a, K: OrderedKey, V>(link: &'a Link<K, V>, key: &K) -> (r: Option<&'a V>)
    requires
        is_search_tree::<K, V>(*link),
    ensures
        match r {
            Some(v) => reports::<K, V>(entries(*link), key@, Some(*v)),
            None => reports::<K, V>(entries(*link), key@, None),
        },
    decreases *link,
{
    match link {
        None => None,
        Some(n) => {
            let ghost el = entries(n.left);
            let ghost er = entries(n.right);
            let ghost x = (n.key@, n.value);
            proof {
                lemma_search_tree_split::<K, V>(**n);
                K::lemma_key_order();
                assert(entries(*link) == el + seq![x] + er);
            }
            match key.compare(&n.key) {
                KeyComparison::Less => {
                    let r = get_at(&n.left, key);
                    proof {
                        let f = match r {
                            Some(v) => Some(*v),
                            None => None,
                        };
                        lemma_reports_left::<K, V>(el, x, er, key@, f);
                    }
                    r
                },
                KeyComparison::Greater => {
                    let r = get_at(&n.right, key);
                    proof {
                        let f = match r {
                            Some(v) => Some(*v),
                            None => None,
                        };
                        lemma_reports_right::<K, V>(el, x, er, key@, f);
                    }
                    r
                },
                KeyComparison::Equal => {
                    assert(entries(*link)[el.len() as int] == x);
                    Some(&n.value)
                },
            }
        },
    }
}

/// The leftmost entry below `n`: the first in order.
fn min_at<'a, K: OrderedKey, V>(n: &'a Box<Node<K, V>>) -> (r: (&'a K, &'a V))
    ensures
        (r.0@, *r.1) == entries(Some(*n))[0],
    decreases *n,
{
    match &n.left {
        None => {
            assert(n.left is None);
            assert(entries(n.left) =~= Seq::<(K::V, V)>::empty());
            assert(entries(Some(*n)) =~= seq![(n.key@, n.value)] + entries(n.right));
            (&n.key, &n.value)
        },
        Some(l) => {
            let r = min_at(l);
            assert(entries(Some(*n)) == entries(n.left) + seq![(n.key@, n.value)] + entries(
                n.right,
            ));
            r
        },
    }
}

/// The rightmost entry below `n`: the last in order.
fn max_at<'a, K: OrderedKey, V>(n: &'a Box<Node<K, V>>) -> (r: (&'a K, &'a V))
    ensures
        (r.0@, *r.1) == entries(Some(*n)).last(),
    decreases *n,
{
    match &n.right {
        None => {
            assert(n.right is None);
            assert(entries(n.right) =~= Seq::<(K::V, V)>::empty());
            assert(entries(Some(*n)) =~= entries(n.left) + seq![(n.key@, n.value)]);
            (&n.key, &n.value)
        },
        Some(rt) => {
            let r = max_at(rt);
            assert(entries(Some(*n)) == entries(n.left) + seq![(n.key@, n.value)] + entries(
                n.right,
            ));
            r
        },
    }
}

impl<K: OrderedKey, V> View for RBTree<K, V> {
    type V = Seq<(K::V, V)>;

    /// The entries in ascending key order, each as (key view, value).
    closed spec fn view(&self) -> Seq<(K::V, V)> {
        entries(self.root)
    }
}

impl<K: OrderedKey, V> RBTree<K, V> {
    /// The tree is a red-black search tree and `len` counts its entries.
    pub closed spec fn wf(&self) -> bool {
        &&& is_search_tree::<K, V>(self.root)
        &&& is_red_black(self.root)
        &&& self.len == entries(self.root).len()
    }

    /// A well-formed tree lists its entries in strictly ascending key order
    /// and is a red-black tree: black root, no red node with a red child,
    /// the same number of black nodes on every path.
    pub proof fn lemma_wf_sorted_red_black(&self)
        requires
            self.wf(),
        ensures
            sorted_keys::<K, V>(self@),
            is_red_black(self.root_link()),
            entries(self.root_link()) == self@,
    {
    }

    /// A well-formed tree of `n` entries has height at most 2·log2(n + 1),
    /// so a search visits O(log n) nodes: 2^height <= (n + 1)^2.
    pub proof fn lemma_height_logarithmic(&self)
        requires
            self.wf(),
        ensures
            pow2(height(self.root_link())) <= (self@.len() + 1) * (self@.len() + 1),
    {
        lemma_entries_len(self.root);
        lemma_red_black_height(self.root);
    }

    /// A bounded traversal of a well-formed tree, such as `range` runs,
    /// examines at most k + 2·height nodes, where k pairs lie in range, and
    /// 2^height <= (n + 1)^2: O(log n + k) nodes.
    pub proof fn lemma_range_visits(&self, low: Option<K::V>, high: Option<K::V>)
        requires
            self.wf(),
        ensures
            range_cost(self.root_link(), low, high) <= in_range::<K, V>(self@, low, high).len()
                + 2 * height(self.root_link()),
            pow2(height(self.root_link())) <= (self@.len() + 1) * (self@.len() + 1),
    {
        lemma_range_cost::<K, V>(self.root, low, high);
        self.lemma_height_logarithmic();
    }

    /// The root of the tree.
    pub closed spec fn root_link(&self) -> Link<K, V> {
        self.root
    }

    /// Creates an empty tree.
    pub fn new() -> (t: Self)
        ensures
            t.wf(),
            t@ == Seq::<(K::V, V)>::empty(),
    {
        RBTree { root: None, len: 0 }
    }

    #[verifier::spinoff_prover]
    /// Inserts `value` under `key`, replacing any previous value (upsert).
    pub fn insert(&mut self, key: K, value: V)
        requires
            old(self).wf(),
            old(self)@.len() < usize::MAX,
        ensures
            final(self).wf(),
            final(self)@ == upsert::<K, V>(old(self)@, key@, value),
    {
        let root = self.root.take();
        proof {
            lemma_upsert_sorted::<K, V>(entries(root), key@, value);
        }
        let (mut r, added) = insert_at(root, key, value);
        r.color = Color::Black;
        self.root = Some(r);
        if added {
            self.len = self.len + 1;
        }
    }

    #[verifier::spinoff_prover]
    /// Removes `key` and returns its value, or `None` if the key did not exist.
    pub fn delete(&mut self, key: &K) -> (r: Option<V>)
        requires
            old(self).wf(),
        ensures
            final(self).wf(),
            final(self)@ == without_key::<K, V>(old(self)@, key@),
            r == value_of::<K, V>(old(self)@, key@),
    {
        let root = self.root.take();
        proof {
            lemma_filter_sorted::<K, V>(entries(root), key_differs::<K, V>(key@));
        }
        let (t, found) = delete_at(root, key);
        proof {
            lemma_reports_value_of::<K, V>(entries(root), key@, found);
        }
        self.root = match t {
            Some(n) => {
                let mut n = n;
                n.color = Color::Black;
                Some(n)
            },
            None => None,
        };
        if found.is_some() {
            self.len = self.len - 1;
        }
        found
    }

    #[verifier::spinoff_prover]
    /// Returns a reference to the value for `key`, or `None` if absent.
    pub fn get(&self, key: &K) -> (r: Option<&V>)
        requires
            self.wf(),
        ensures
            match r {
                Some(v) => value_of::<K, V>(self@, key@) == Some(*v),
                None => value_of::<K, V>(self@, key@) is None,
            },
    {
        let r = get_at(&self.root, key);
        proof {
            let f = match r {
                Some(v) => Some(*v),
                None => None,
            };
            lemma_reports_value_of::<K, V>(self@, key@, f);
        }
        r
    }

    /// Drains `it` into a vector.
    fn collect_pairs<'a>(it: InOrderIterator<'a, K, V>) -> (r: Vec<(&'a K, &'a V)>)
        requires
            it.wf(),
        ensures
            pair_views(r@) == it@,
    {
        let ghost all = it@;
        let mut it = it;
        let mut out: Vec<(&'a K, &'a V)> = Vec::new();
        loop
            invariant
                it.wf(),
                pair_views(out@) + it@ == all,
            ensures
                pair_views(out@) == all,
            decreases it@.len(),
        {
            let ghost before = it@;
            match it.next() {
                None => {
                    assert(pair_views(out@) + it@ =~= pair_views(out@));
                    break ;
                },
                Some(p) => {
                    let ghost prev = out@;
                    out.push(p);
                    assert(pair_views(out@) =~= pair_views(prev).push((p.0@, *p.1)));
                    assert(pair_views(out@) + it@ =~= pair_views(prev) + before);
                },
            }
        }
        out
    }

    /// Returns all `(key, value)` pairs with key in `[low, high]`, ascending.
    /// Subtrees outside the bounds are not visited: the traversal examines
    /// `range_cost` nodes (see `InOrderIterator`), which
    /// `lemma_range_visits` bounds by O(log n + k) for k results.
    pub fn range<'a>(&'a self, low: &'a K, high: &'a K) -> (r: Vec<(&'a K, &'a V)>)
        requires
            self.wf(),
        ensures
            pair_views(r@) == in_range::<K, V>(self@, Some(low@), Some(high@)),
    {
        let it = InOrderIterator::new(&self.root, Some(low), Some(high));
        Self::collect_pairs(it)
    }

    /// Returns all `(key, value)` pairs in ascending key order.
    pub fn iter(&self) -> (r: Vec<(&K, &V)>)
        requires
            self.wf(),
        ensures
            pair_views(r@) == self@,
    {
        let it = InOrderIterator::new(&self.root, None, None);
        proof {
            lemma_filter_all(self@, crate::tree::iterator::within_bounds::<K, V>(None, None));
        }
        Self::collect_pairs(it)
    }

    /// Returns the pair with the smallest key, or `None` if the tree is empty.
    pub fn min(&self) -> (r: Option<(&K, &V)>)
        requires
            self.wf(),
        ensures
            r is None <==> self@.len() == 0,
            r matches Some(p) ==> (p.0@, *p.1) == self@[0],
    {
        match &self.root {
            None => None,
            Some(n) => Some(min_at(n)),
        }
    }

    /// Returns the pair with the largest key, or `None` if the tree is empty.
    pub fn max(&self) -> (r: Option<(&K, &V)>)
        requires
            self.wf(),
        ensures
            r is None <==> self@.len() == 0,
            r matches Some(p) ==> (p.0@, *p.1) == self@.last(),
    {
        match &self.root {
            None => None,
            Some(n) => Some(max_at(n)),
        }
    }

    /// Returns the number of key-value pairs stored in the tree.
    pub fn len(&self) -> (r: usize)
        requires
            self.wf(),
        ensures
            r == self@.len(),
    {
        self.len
    }

    /// Returns `true` if the tree contains no elements.
    pub fn is_empty(&self) -> (r: bool)
        requires
            self.wf(),
        ensures
            r == (self@.len() == 0),
    {
        self.len == 0
    }

    /// Left rotation: the right child rises and `x` becomes its left child.
    /// Colors are left unchanged.
    pub fn rotate_left(x: Box<Node<K, V>>) -> (r: Box<Node<K, V>>)
        requires
            x.right is Some,
        ensures
            *r == rotated_left(*x),
            entries(Some(r)) == entries(Some(x)),
    {
        proof {
            lemma_rotate_left_entries(*x);
        }
        let mut x = x;
        let mut y = x.right.take().unwrap();
        x.right = y.left.take();
        y.left = Some(x);
        y
    }

    /// Right rotation: the left child rises and `y` becomes its right child.
    /// Colors are left unchanged.
    pub fn rotate_right(y: Box<Node<K, V>>) -> (r: Box<Node<K, V>>)
        requires
            y.left is Some,
        ensures
            *r == rotated_right(*y),
            entries(Some(r)) == entries(Some(y)),
    {
        proof {
            lemma_rotate_right_entries(*y);
        }
        let mut y = y;
        let mut x = y.left.take().unwrap();
        y.left = x.right.take();
        x.right = Some(y);
        x
    }
}

} // verus!
