//! In-order traversal with optional inclusive bounds; subtrees that lie
//! wholly outside the bounds are never visited.
use vstd::prelude::*;

use crate::key::{KeyComparison, OrderedKey};
use crate::tree::node::{entries, height, is_search_tree, size, sorted_keys, Link, Node};
use crate::tree::rbtree::{
    lemma_filter_all, lemma_filter_none, lemma_filter_sorted, lemma_search_tree_split,
};

verus! {

/// The view of an optional bound.
pub open spec fn bound_view<K: View>(b: Option<&K>) -> Option<K::V> {
    match b {
        Some(k) => Some(k@),
        None => None,
    }
}

/// Entries whose key lies within the optional inclusive bounds.
pub open spec fn within_bounds<K: OrderedKey, V>(low: Option<K::V>, high: Option<K::V>) -> spec_fn(
    (K::V, V),
) -> bool {
    |e: (K::V, V)|
        (match low {
            Some(l) => !K::key_less(e.0, l),
            None => true,
        }) && (match high {
            Some(h) => !K::key_less(h, e.0),
            None => true,
        })
}

/// The entries of `s` whose key lies within the optional inclusive bounds.
pub open spec fn in_range<K: OrderedKey, V>(
    s: Seq<(K::V, V)>,
    low: Option<K::V>,
    high: Option<K::V>,
) -> Seq<(K::V, V)> {
    s.filter(within_bounds::<K, V>(low, high))
}

/// With the lower bound above the upper bound, no entry is in range.
pub proof fn lemma_in_range_inverted<K: OrderedKey, V>(s: Seq<(K::V, V)>, low: K::V, high: K::V)
    requires
        K::key_less(high, low),
    ensures
        in_range::<K, V>(s, Some(low), Some(high)).len() == 0,
{
    K::lemma_key_order();
    let p = within_bounds::<K, V>(Some(low), Some(high));
    assert forall|i: int| 0 <= i < s.len() implies !p(s[i]) by {
        if !K::key_less(s[i].0, low) && s[i].0 != low {
            assert(K::key_less(low, s[i].0));
        }
    }
    lemma_filter_none(s, p);
}

/// A sequence of borrowed pairs, seen as (key view, value).
pub open spec fn pair_views<K: View, V>(s: Seq<(&K, &V)>) -> Seq<(K::V, V)> {
    s.map_values(|p: (&K, &V)| (p.0@, *p.1))
}

/// What is left to visit: each stacked node, then the part of its right
/// subtree within the bounds, from the top of the stack down.
pub open spec fn pending<K: OrderedKey, V>(
    stack: Seq<&Node<K, V>>,
    low: Option<K::V>,
    high: Option<K::V>,
) -> Seq<(K::V, V)>
    decreases stack.len(),
{
    if stack.len() == 0 {
        Seq::empty()
    } else {
        let top = stack.last();
        seq![(top.key@, top.value)] + in_range::<K, V>(entries(top.right), low, high) + pending(
            stack.drop_last(),
            low,
            high,
        )
    }
}

/// Splitting the entries in range around a node's own entry.
proof fn lemma_in_range_split<K: OrderedKey, V>(
    l: Seq<(K::V, V)>,
    x: (K::V, V),
    r: Seq<(K::V, V)>,
    low: Option<K::V>,
    high: Option<K::V>,
)
    requires
        forall|i: int| 0 <= i < l.len() ==> K::key_less(#[trigger] l[i].0, x.0),
        forall|i: int| 0 <= i < r.len() ==> K::key_less(x.0, #[trigger] r[i].0),
    ensures
        (low matches Some(lo) && K::key_less(x.0, lo)) ==> in_range::<K, V>(
            l + seq![x] + r,
            low,
            high,
        ) == in_range::<K, V>(r, low, high),
        (high matches Some(hi) && K::key_less(hi, x.0)) ==> in_range::<K, V>(
            l + seq![x] + r,
            low,
            high,
        ) == in_range::<K, V>(l, low, high),
        within_bounds::<K, V>(low, high)(x) ==> in_range::<K, V>(l + seq![x] + r, low, high)
            == in_range::<K, V>(l, low, high) + seq![x] + in_range::<K, V>(r, low, high),
{
    K::lemma_key_order();
    let p = within_bounds::<K, V>(low, high);
    let mid = seq![x];
    Seq::filter_distributes_over_add(l + mid, r, p);
    Seq::filter_distributes_over_add(l, mid, p);
    reveal_with_fuel(Seq::filter, 1);
    assert(mid.drop_last() =~= Seq::<(K::V, V)>::empty());
    if !p(x) {
        lemma_filter_none(mid, p);
    }
    if low matches Some(lo) && K::key_less(x.0, lo) {
        lemma_filter_none(l, p);
        assert(in_range::<K, V>(l + seq![x] + r, low, high) =~= in_range::<K, V>(r, low, high));
    }
    if high matches Some(hi) && K::key_less(hi, x.0) {
        lemma_filter_none(r, p);
        assert(in_range::<K, V>(l + seq![x] + r, low, high) =~= in_range::<K, V>(l, low, high));
    }
    if p(x) {
        lemma_filter_all(mid, p);
        assert(in_range::<K, V>(l + seq![x] + r, low, high) =~= in_range::<K, V>(l, low, high)
            + seq![x] + in_range::<K, V>(r, low, high));
    }
}

/// The key lies below the optional lower bound.
pub open spec fn below_bound<K: OrderedKey>(k: K::V, low: Option<K::V>) -> bool {
    low matches Some(l) && K::key_less(k, l)
}

/// The key lies above the optional upper bound.
pub open spec fn above_bound<K: OrderedKey>(k: K::V, high: Option<K::V>) -> bool {
    high matches Some(h) && K::key_less(h, k)
}

/// The number of nodes a bounded in-order traversal of `link` examines: a
/// node below the lower bound leads only to its right subtree, one above the
/// upper bound only to its left subtree, and one within the bounds to both.
pub open spec fn range_cost<K: OrderedKey, V>(
    link: Link<K, V>,
    low: Option<K::V>,
    high: Option<K::V>,
) -> nat
    decreases link,
{
    match link {
        None => 0,
        Some(n) => if below_bound::<K>(n.key@, low) {
            1 + range_cost(n.right, low, high)
        } else if above_bound::<K>(n.key@, high) {
            1 + range_cost(n.left, low, high)
        } else {
            1 + range_cost(n.left, low, high) + range_cost(n.right, low, high)
        },
    }
}

/// The nodes still to be examined for a stack: those of the right subtree
/// of each stacked node.
pub open spec fn stack_cost<K: OrderedKey, V>(
    stack: Seq<&Node<K, V>>,
    low: Option<K::V>,
    high: Option<K::V>,
) -> nat
    decreases stack.len(),
{
    if stack.len() == 0 {
        0
    } else {
        range_cost(stack.last().right, low, high) + stack_cost(stack.drop_last(), low, high)
    }
}

/// A search tree whose entries all lie within the bounds is examined node by
/// node, once each.
#[verifier::spinoff_prover]
proof fn lemma_cost_all_within<K: OrderedKey, V>(
    link: Link<K, V>,
    low: Option<K::V>,
    high: Option<K::V>,
)
    requires
        is_search_tree::<K, V>(link),
        forall|i: int|
            0 <= i < entries(link).len() ==> within_bounds::<K, V>(low, high)(
                #[trigger] entries(link)[i],
            ),
    ensures
        range_cost(link, low, high) == entries(link).len(),
    decreases link,
{
    if let Some(n) = link {
        let el = entries(n.left);
        let er = entries(n.right);
        let x = (n.key@, n.value);
        lemma_search_tree_split::<K, V>(*n);
        assert(entries(link) == el + seq![x] + er);
        assert(entries(link)[el.len() as int] == x);
        assert(within_bounds::<K, V>(low, high)(x));
        assert(!below_bound::<K>(n.key@, low) && !above_bound::<K>(n.key@, high));
        assert forall|i: int| 0 <= i < el.len() implies within_bounds::<K, V>(low, high)(
            #[trigger] el[i],
        ) by {
            assert(entries(link)[i] == el[i]);
        }
        assert forall|i: int| 0 <= i < er.len() implies within_bounds::<K, V>(low, high)(
            #[trigger] er[i],
        ) by {
            assert(entries(link)[el.len() + 1 + i] == er[i]);
        }
        lemma_cost_all_within::<K, V>(n.left, low, high);
        lemma_cost_all_within::<K, V>(n.right, low, high);
    }
}

/// A search tree with no entry above the upper bound is examined in at most
/// as many nodes as it has in range, plus its height.
proof fn lemma_cost_no_high<K: OrderedKey, V>(
    link: Link<K, V>,
    low: Option<K::V>,
    high: Option<K::V>,
)
    requires
        is_search_tree::<K, V>(link),
        forall|i: int|
            0 <= i < entries(link).len() ==> !above_bound::<K>(#[trigger] entries(link)[i].0, high),
    ensures
        range_cost(link, low, high) <= in_range::<K, V>(entries(link), low, high).len() + height(
            link,
        ),
    decreases link,
{
    if let Some(n) = link {
        let el = entries(n.left);
        let er = entries(n.right);
        let x = (n.key@, n.value);
        lemma_search_tree_split::<K, V>(*n);
        lemma_in_range_split::<K, V>(el, x, er, low, high);
        assert(entries(link) == el + seq![x] + er);
        assert(entries(link)[el.len() as int] == x);
        assert forall|i: int| 0 <= i < el.len() implies !above_bound::<K>(
            #[trigger] el[i].0,
            high,
        ) by {
            assert(entries(link)[i] == el[i]);
        }
        assert forall|i: int| 0 <= i < er.len() implies !above_bound::<K>(
            #[trigger] er[i].0,
            high,
        ) by {
            assert(entries(link)[el.len() + 1 + i] == er[i]);
        }
        if below_bound::<K>(n.key@, low) {
            lemma_cost_no_high::<K, V>(n.right, low, high);
        } else {
            assert forall|i: int| 0 <= i < er.len() implies within_bounds::<K, V>(low, high)(
                #[trigger] er[i],
            ) by {
                K::lemma_key_order();
                assert(entries(link)[el.len() + 1 + i] == er[i]);
            }
            lemma_cost_all_within::<K, V>(n.right, low, high);
            lemma_filter_all(er, within_bounds::<K, V>(low, high));
            lemma_cost_no_high::<K, V>(n.left, low, high);
        }
    }
}

/// A search tree with no entry below the lower bound is examined in at most
/// as many nodes as it has in range, plus its height.
proof fn lemma_cost_no_low<K: OrderedKey, V>(
    link: Link<K, V>,
    low: Option<K::V>,
    high: Option<K::V>,
)
    requires
        is_search_tree::<K, V>(link),
        forall|i: int|
            0 <= i < entries(link).len() ==> !below_bound::<K>(#[trigger] entries(link)[i].0, low),
    ensures
        range_cost(link, low, high) <= in_range::<K, V>(entries(link), low, high).len() + height(
            link,
        ),
    decreases link,
{
    if let Some(n) = link {
        let el = entries(n.left);
        let er = entries(n.right);
        let x = (n.key@, n.value);
        lemma_search_tree_split::<K, V>(*n);
        lemma_in_range_split::<K, V>(el, x, er, low, high);
        assert(entries(link) == el + seq![x] + er);
        assert(entries(link)[el.len() as int] == x);
        assert forall|i: int| 0 <= i < el.len() implies !below_bound::<K>(
            #[trigger] el[i].0,
            low,
        ) by {
            assert(entries(link)[i] == el[i]);
        }
        assert forall|i: int| 0 <= i < er.len() implies !below_bound::<K>(
            #[trigger] er[i].0,
            low,
        ) by {
            assert(entries(link)[el.len() + 1 + i] == er[i]);
        }
        if above_bound::<K>(n.key@, high) {
            lemma_cost_no_low::<K, V>(n.left, low, high);
        } else {
            assert forall|i: int| 0 <= i < el.len() implies within_bounds::<K, V>(low, high)(
                #[trigger] el[i],
            ) by {
                K::lemma_key_order();
                assert(entries(link)[i] == el[i]);
            }
            lemma_cost_all_within::<K, V>(n.left, low, high);
            lemma_filter_all(el, within_bounds::<K, V>(low, high));
            lemma_cost_no_low::<K, V>(n.right, low, high);
        }
    }
}

/// A bounded traversal of a search tree examines at most as many nodes as
/// it has in range, plus twice its height.
pub proof fn lemma_range_cost<K: OrderedKey, V>(
    link: Link<K, V>,
    low: Option<K::V>,
    high: Option<K::V>,
)
    requires
        is_search_tree::<K, V>(link),
    ensures
        range_cost(link, low, high) <= in_range::<K, V>(entries(link), low, high).len() + 2
            * height(link),
    decreases link,
{
    if let Some(n) = link {
        let el = entries(n.left);
        let er = entries(n.right);
        let x = (n.key@, n.value);
        lemma_search_tree_split::<K, V>(*n);
        lemma_in_range_split::<K, V>(el, x, er, low, high);
        assert(entries(link) == el + seq![x] + er);
        if below_bound::<K>(n.key@, low) {
            lemma_range_cost::<K, V>(n.right, low, high);
        } else if above_bound::<K>(n.key@, high) {
            lemma_range_cost::<K, V>(n.left, low, high);
        } else {
            assert forall|i: int| 0 <= i < el.len() implies !above_bound::<K>(
                #[trigger] el[i].0,
                high,
            ) by {
                K::lemma_key_order();
            }
            assert forall|i: int| 0 <= i < er.len() implies !below_bound::<K>(
                #[trigger] er[i].0,
                low,
            ) by {
                K::lemma_key_order();
            }
            lemma_cost_no_high::<K, V>(n.left, low, high);
            lemma_cost_no_low::<K, V>(n.right, low, high);
        }
    }
}

/// Pairs in ascending key order, restricted to optional inclusive bounds.
pub struct InOrderIterator<'a, K: OrderedKey, V> {
    stack: Vec<&'a Node<K, V>>,
    low: Option<&'a K>,
    high: Option<&'a K>,
    /// How many nodes the traversal has examined so far.
    visits: Ghost<nat>,
    /// The keys returned so far, in the order returned.
    returned: Ghost<Seq<K::V>>,
}

impl<'a, K: OrderedKey, V> View for InOrderIterator<'a, K, V> {
    type V = Seq<(K::V, V)>;

    /// The pairs not yet returned, as (key view, value).
    closed spec fn view(&self) -> Seq<(K::V, V)> {
        pending(self.stack@, bound_view(self.low), bound_view(self.high))
    }
}

impl<'a, K: OrderedKey, V> InOrderIterator<'a, K, V> {
    /// Every stacked node roots a search tree.
    spec fn stack_wf(&self) -> bool {
        forall|i: int|
            0 <= i < self.stack@.len() ==> is_search_tree::<K, V>(
                Some(Box::new(*#[trigger] self.stack@[i])),
            )
    }

    /// Every stacked node roots a search tree; the pairs still to come are in
    /// strictly ascending key order; the keys returned so far strictly
    /// ascend and lie below every key still to come.
    pub closed spec fn wf(&self) -> bool {
        &&& self.stack_wf()
        &&& sorted_keys::<K, V>(self@)
        &&& forall|i: int, j: int|
            0 <= i < j < self.returned@.len() ==> K::key_less(self.returned@[i], self.returned@[j])
        &&& forall|i: int, j: int|
            0 <= i < self.returned@.len() && 0 <= j < self@.len() ==> K::key_less(
                self.returned@[i],
                self@[j].0,
            )
    }

    /// The pairs still to come are in strictly ascending key order, the keys
    /// returned so far strictly ascend, and each returned key lies below
    /// every key still to come.
    pub proof fn lemma_sorted(&self)
        requires
            self.wf(),
        ensures
            sorted_keys::<K, V>(self@),
            forall|i: int, j: int|
                0 <= i < j < self.returned_keys().len() ==> K::key_less(
                    self.returned_keys()[i],
                    self.returned_keys()[j],
                ),
            forall|i: int, j: int|
                0 <= i < self.returned_keys().len() && 0 <= j < self@.len() ==> K::key_less(
                    self.returned_keys()[i],
                    self@[j].0,
                ),
    {
    }

    /// How many nodes the traversal has examined so far.
    pub closed spec fn visited(&self) -> nat {
        self.visits@
    }

    /// How many nodes the traversal has still to examine.
    pub closed spec fn remaining_cost(&self) -> nat {
        stack_cost(self.stack@, bound_view(self.low), bound_view(self.high))
    }

    /// The keys returned so far, in the order returned.
    pub closed spec fn returned_keys(&self) -> Seq<K::V> {
        self.returned@
    }

    /// Once no pair is left, no node is left to examine either.
    pub proof fn lemma_exhausted(&self)
        requires
            self@.len() == 0,
        ensures
            self.remaining_cost() == 0,
    {
        if self.stack@.len() > 0 {
            let top = self.stack@.last();
            assert(self@.len() >= 1);
        }
    }

    /// The lower bound, as a view.
    pub closed spec fn low_bound(&self) -> Option<K::V> {
        bound_view(self.low)
    }

    /// The upper bound, as a view.
    pub closed spec fn high_bound(&self) -> Option<K::V> {
        bound_view(self.high)
    }

    /// Starts a traversal of the search tree `root`, yielding the pairs with
    /// key within the optional inclusive bounds.
    pub fn new(root: &'a Link<K, V>, low: Option<&'a K>, high: Option<&'a K>) -> (iter: Self)
        requires
            is_search_tree::<K, V>(*root),
        ensures
            iter.wf(),
            iter.low_bound() == bound_view(low),
            iter.high_bound() == bound_view(high),
            iter@ == in_range::<K, V>(entries(*root), bound_view(low), bound_view(high)),
            iter.returned_keys() == Seq::<K::V>::empty(),
            iter.visited() + iter.remaining_cost() == range_cost(
                *root,
                bound_view(low),
                bound_view(high),
            ),
    {
        let mut iter = Self {
            stack: Vec::new(),
            low,
            high,
            visits: Ghost(0),
            returned: Ghost(Seq::empty()),
        };
        proof {
            assert(iter@ =~= Seq::<(K::V, V)>::empty());
        }
        iter.push_left_spine(root);
        proof {
            assert(iter@ =~= in_range::<K, V>(entries(*root), bound_view(low), bound_view(high)));
            lemma_filter_sorted::<K, V>(
                entries(*root),
                within_bounds::<K, V>(bound_view(low), bound_view(high)),
            );
        }
        iter
    }

    // Walks down the left spine pushing nodes, pruning on the way:
    // - key < low  skips the node and its left subtree, going right;
    // - key > high skips the node and its right subtree, going left.
    // The old stack stays below the pushed nodes, and the pushed nodes alone
    // stand for exactly the pairs of `node` within the bounds: each pushed
    // node is within the bounds, their keys decrease up the stack, and the
    // top one holds the least such key.
    #[verifier::spinoff_prover]
    #[verifier::rlimit(40)]
    fn push_left_spine(&mut self, node: &'a Link<K, V>)
        requires
            old(self).stack_wf(),
            is_search_tree::<K, V>(*node),
        ensures
            final(self).stack_wf(),
            final(self).low == old(self).low,
            final(self).high == old(self).high,
            final(self).returned == old(self).returned,
            old(self).visits@ <= final(self).visits@,
            final(self).visits@ + stack_cost(
                final(self).stack@,
                bound_view(old(self).low),
                bound_view(old(self).high),
            ) == old(self).visits@ + stack_cost(
                old(self).stack@,
                bound_view(old(self).low),
                bound_view(old(self).high),
            ) + range_cost(*node, bound_view(old(self).low), bound_view(old(self).high)),
            old(self).stack@.len() <= final(self).stack@.len(),
            final(self).stack@.subrange(0, old(self).stack@.len() as int) == old(self).stack@,
            pending(
                final(self).stack@.subrange(
                    old(self).stack@.len() as int,
                    final(self).stack@.len() as int,
                ),
                bound_view(old(self).low),
                bound_view(old(self).high),
            ) == in_range::<K, V>(
                entries(*node),
                bound_view(old(self).low),
                bound_view(old(self).high),
            ),
            final(self)@ == in_range::<K, V>(
                entries(*node),
                bound_view(old(self).low),
                bound_view(old(self).high),
            ) + old(self)@,
    {
        let ghost lo = bound_view(self.low);
        let ghost hi = bound_view(self.high);
        let ghost start = self@;
        let ghost s0 = self.stack@;
        let ghost n0 = s0.len() as int;
        let mut cur = node;
        loop
            invariant
                self.stack_wf(),
                self.low == old(self).low,
                self.high == old(self).high,
                s0 == old(self).stack@,
                n0 == s0.len(),
                self.returned == old(self).returned,
                old(self).visits@ <= self.visits@,
                self.visits@ + stack_cost(self.stack@, lo, hi) + range_cost(*cur, lo, hi)
                    == old(self).visits@ + stack_cost(s0, lo, hi) + range_cost(*node, lo, hi),
                n0 <= self.stack@.len(),
                self.stack@.subrange(0, n0) == s0,
                in_range::<K, V>(entries(*cur), lo, hi) + pending(
                    self.stack@.subrange(n0, self.stack@.len() as int),
                    lo,
                    hi,
                ) == in_range::<K, V>(entries(*node), lo, hi),
                lo == bound_view(self.low),
                hi == bound_view(self.high),
                is_search_tree::<K, V>(*cur),
                in_range::<K, V>(entries(*cur), lo, hi) + self@ == in_range::<K, V>(
                    entries(*node),
                    lo,
                    hi,
                ) + start,
            ensures
                self.stack_wf(),
                self.low == old(self).low,
                self.high == old(self).high,
                self.returned == old(self).returned,
                old(self).visits@ <= self.visits@,
                self.visits@ + stack_cost(self.stack@, lo, hi) == old(self).visits@ + stack_cost(
                    s0,
                    lo,
                    hi,
                ) + range_cost(*node, lo, hi),
                n0 <= self.stack@.len(),
                self.stack@.subrange(0, n0) == s0,
                pending(self.stack@.subrange(n0, self.stack@.len() as int), lo, hi)
                    == in_range::<K, V>(entries(*node), lo, hi),
                self@ == in_range::<K, V>(entries(*node), lo, hi) + start,
            decreases size(*cur),
        {
            match cur {
                None => {
                    proof {
                        reveal_with_fuel(Seq::filter, 1);
                        assert(in_range::<K, V>(entries(*cur), lo, hi) + self@ =~= self@);
                        let sfx = self.stack@.subrange(n0, self.stack@.len() as int);
                        assert(in_range::<K, V>(entries(*cur), lo, hi) + pending(sfx, lo, hi)
                            =~= pending(sfx, lo, hi));
                    }
                    break ;
                },
                Some(n) => {
                    self.visits = Ghost(self.visits@ + 1);
                    let ghost el = entries(n.left);
                    let ghost er = entries(n.right);
                    let ghost x = (n.key@, n.value);
                    proof {
                        lemma_search_tree_split::<K, V>(**n);
                        lemma_in_range_split::<K, V>(el, x, er, lo, hi);
                        assert(entries(*cur) == el + seq![x] + er);
                    }
                    let below_low = match self.low {
                        Some(l) => match n.key.compare(l) {
                            KeyComparison::Less => true,
                            _ => false,
                        },
                        None => false,
                    };
                    let above_high = match self.high {
                        Some(h) => match n.key.compare(h) {
                            KeyComparison::Greater => true,
                            _ => false,
                        },
                        None => false,
                    };
                    proof {
                        assert(below_low == below_bound::<K>(n.key@, lo));
                        assert(above_high == above_bound::<K>(n.key@, hi));
                    }
                    if below_low {
                        cur = &n.right;
                    } else if above_high {
                        cur = &n.left;
                    } else {
                        let ghost before = self.stack@;
                        let node_ref: &'a Node<K, V> = &**n;
                        self.stack.push(node_ref);
                        proof {
                            let sfx0 = before.subrange(n0, before.len() as int);
                            let sfx = self.stack@.subrange(n0, self.stack@.len() as int);
                            assert(sfx.drop_last() =~= sfx0);
                            assert(self.stack@.drop_last() =~= before);
                            assert(self.stack@.last() == node_ref);
                            assert(stack_cost(self.stack@, lo, hi) == range_cost(n.right, lo, hi)
                                + stack_cost(before, lo, hi));
                            assert(sfx.last() == node_ref);
                            assert(self.stack@.subrange(0, n0) =~= before.subrange(0, n0));
                            assert(pending(sfx, lo, hi) == seq![x] + in_range::<K, V>(er, lo, hi)
                                + pending(sfx0, lo, hi));
                            assert(in_range::<K, V>(el, lo, hi) + pending(sfx, lo, hi)
                                =~= in_range::<K, V>(el, lo, hi) + seq![x] + in_range::<K, V>(
                                er,
                                lo,
                                hi,
                            ) + pending(sfx0, lo, hi));
                            assert(self.stack@.drop_last() == before);
                            assert(self@ == seq![x] + in_range::<K, V>(er, lo, hi) + pending(
                                before,
                                lo,
                                hi,
                            ));
                            assert(in_range::<K, V>(el, lo, hi) + self@ =~= in_range::<K, V>(
                                el,
                                lo,
                                hi,
                            ) + seq![x] + in_range::<K, V>(er, lo, hi) + pending(before, lo, hi));
                            assert forall|i: int| 0 <= i < self.stack@.len() implies is_search_tree::<
                                K,
                                V,
                            >(Some(Box::new(*#[trigger] self.stack@[i]))) by {
                                if i < before.len() {
                                    assert(self.stack@[i] == before[i]);
                                }
                            }
                        }
                        cur = &n.left;
                    }
                },
            }
        }
    }

    /// Returns the next pair in ascending key order, or `None` when done.
    pub fn next(&mut self) -> (r: Option<(&'a K, &'a V)>)
        requires
            old(self).wf(),
        ensures
            final(self).wf(),
            final(self).low_bound() == old(self).low_bound(),
            final(self).high_bound() == old(self).high_bound(),
            old(self)@.len() == 0 ==> r is None && final(self)@ == old(self)@,
            old(self)@.len() > 0 ==> (r matches Some(p) && (p.0@, *p.1) == old(self)@[0]
                && final(self)@ == old(self)@.drop_first()),
            r matches Some(p) ==> forall|i: int|
                0 <= i < final(self)@.len() ==> K::key_less(p.0@, #[trigger] final(self)@[i].0),
            r matches Some(p) ==> final(self).returned_keys() == old(self).returned_keys().push(
                p.0@,
            ),
            r is None ==> final(self).returned_keys() == old(self).returned_keys(),
            old(self).visited() <= final(self).visited(),
            final(self).visited() + final(self).remaining_cost() == old(self).visited() + old(
                self,
            ).remaining_cost(),
    {
        let ghost lo = bound_view(self.low);
        let ghost hi = bound_view(self.high);
        let ghost before = self.stack@;
        match self.stack.pop() {
            None => None,
            Some(node) => {
                let ghost x = (node.key@, node.value);
                let ghost old_returned = self.returned@;
                self.returned = Ghost(self.returned@.push(node.key@));
                proof {
                    assert(stack_cost(before, lo, hi) == range_cost(node.right, lo, hi)
                        + stack_cost(before.drop_last(), lo, hi));
                    assert(self.stack@ == before.drop_last());
                    lemma_search_tree_split::<K, V>(*node);
                    assert forall|i: int| 0 <= i < self.stack@.len() implies is_search_tree::<
                        K,
                        V,
                    >(Some(Box::new(*#[trigger] self.stack@[i]))) by {
                        assert(self.stack@[i] == before[i]);
                    }
                }
                self.push_left_spine(&node.right);
                proof {
                    assert(old(self)@ == seq![x] + in_range::<K, V>(entries(node.right), lo, hi)
                        + pending(before.drop_last(), lo, hi));
                    assert(self@ =~= old(self)@.drop_first());
                    let o = old(self)@;
                    assert forall|i: int, j: int|
                        0 <= i < j < self@.len() implies K::key_less(self@[i].0, self@[j].0) by {
                        assert(self@[i] == o[i + 1] && self@[j] == o[j + 1]);
                    }
                    assert forall|i: int| 0 <= i < self@.len() implies K::key_less(
                        x.0,
                        #[trigger] self@[i].0,
                    ) by {
                        assert(self@[i] == o[i + 1] && o[0] == x);
                    }
                    let rk = self.returned@;
                    assert(o[0] == x);
                    assert forall|i: int, j: int| 0 <= i < j < rk.len() implies K::key_less(
                        rk[i],
                        rk[j],
                    ) by {
                        if j == rk.len() - 1 {
                            assert(rk[i] == old_returned[i]);
                            assert(K::key_less(old_returned[i], o[0].0));
                        } else {
                            assert(rk[i] == old_returned[i] && rk[j] == old_returned[j]);
                        }
                    }
                    assert forall|i: int, j: int|
                        0 <= i < rk.len() && 0 <= j < self@.len() implies K::key_less(
                        rk[i],
                        self@[j].0,
                    ) by {
                        assert(self@[j] == o[j + 1]);
                        if i < rk.len() - 1 {
                            assert(rk[i] == old_returned[i]);
                        } else {
                            assert(K::key_less(x.0, self@[j].0));
                        }
                    }
                }
                Some((&node.key, &node.value))
            },
        }
    }
}

} // verus!
