//! A persistent AVL tree.
//!
//! Every update returns a new tree that shares all untouched nodes with the
//! tree it was derived from; the old tree stays valid and unchanged.

use crate::attributes::listing::lemma_listing_insert;
use crate::attributes::listing::lemma_listing_remove;
use crate::attributes::listing::lemma_listing_unique;
use crate::attributes::listing::lemma_listing_update;
use crate::attributes::listing::lists_in_order;
use crate::key_order::key_lt;
use crate::key_order::lemma_cmp_results;
use crate::key_order::lemma_key_order;
use crate::key_order::total_key_order;
use std::cmp::Ordering;
use std::sync::Arc;
use vstd::laws_cmp::obeys_cmp;
use vstd::laws_cmp::obeys_partial_cmp_spec_properties;
use vstd::laws_eq::obeys_concrete_eq;
use vstd::arithmetic::power2::lemma2_to64;
use vstd::arithmetic::power2::lemma_pow2_strictly_increases;
use vstd::arithmetic::power2::lemma_pow2_unfold;
use vstd::arithmetic::power2::pow2;
use vstd::prelude::*;
use vstd::set_lib::lemma_set_disjoint_lens;
use vstd::std_specs::cmp::PartialEqSpec;
use vstd::std_specs::cmp::PartialEqSpecImpl;
use vstd::std_specs::cmp::PartialOrdSpec;
use vstd::std_specs::cmp::PartialOrdSpecImpl;

verus! {

#[derive(Debug)]
struct Node<K, V> {
    key: Arc<K>,
    value: Arc<V>,
    left: Option<Arc<Node<K, V>>>,
    right: Option<Arc<Node<K, V>>>,
    height: usize,
}

spec fn left_of<K, V>(n: Arc<Node<K, V>>) -> Option<Arc<Node<K, V>>> {
    n.left
}

spec fn right_of<K, V>(n: Arc<Node<K, V>>) -> Option<Arc<Node<K, V>>> {
    n.right
}

/// The height stored at the root of a subtree, 0 for an empty one.
spec fn ht<K, V>(l: Option<Arc<Node<K, V>>>) -> int {
    match l {
        None => 0,
        Some(n) => n.height as int,
    }
}

spec fn max_int(a: int, b: int) -> int {
    if a >= b {
        a
    } else {
        b
    }
}

/// The key/value pairs held by a subtree.
spec fn link_map<K, V>(l: Option<Arc<Node<K, V>>>) -> Map<K, V>
    decreases l,
{
    match l {
        None => Map::empty(),
        Some(n) => link_map(n.left).union_prefer_right(link_map(n.right)).insert(*n.key, *n.value),
    }
}

/// The key/value pairs of a subtree in in-order (ascending key) order.
spec fn inorder<K, V>(l: Option<Arc<Node<K, V>>>) -> Seq<(K, V)>
    decreases l,
{
    match l {
        None => Seq::empty(),
        Some(n) => inorder(n.left) + seq![(*n.key, *n.value)] + inorder(n.right),
    }
}

/// The shape of a tree: the key of every node, and its two subtrees.
pub enum KeyTree<K> {
    Leaf,
    Node(K, Box<KeyTree<K>>, Box<KeyTree<K>>),
}

/// A node of a shape.
pub open spec fn kt_node<K>(k: K, l: KeyTree<K>, r: KeyTree<K>) -> KeyTree<K> {
    KeyTree::Node(k, Box::new(l), Box::new(r))
}

/// The number of nodes on the longest path from the root of a shape down.
pub open spec fn kt_height<K>(t: KeyTree<K>) -> nat
    decreases t,
{
    match t {
        KeyTree::Leaf => 0,
        KeyTree::Node(_, l, r) => {
            let hl = kt_height(*l);
            let hr = kt_height(*r);
            1 + if hl >= hr {
                hl
            } else {
                hr
            }
        },
    }
}

/// Joins two shapes under a root key `k`. When one side is two levels
/// higher, it rotates: once, if the higher side's outer subtree is at
/// least as high as its inner one, and twice otherwise.
pub open spec fn kt_rebalance<K>(k: K, l: KeyTree<K>, r: KeyTree<K>) -> KeyTree<K> {
    let lh = kt_height(l);
    let rh = kt_height(r);
    if lh == rh + 2 {
        match l {
            KeyTree::Node(lk, ll, lr) => if kt_height(*ll) < kt_height(*lr) {
                match *lr {
                    KeyTree::Node(mk, ml, mr) => kt_node(mk, kt_node(lk, *ll, *ml), kt_node(k, *mr, r)),
                    KeyTree::Leaf => kt_node(k, l, r),
                }
            } else {
                kt_node(lk, *ll, kt_node(k, *lr, r))
            },
            KeyTree::Leaf => kt_node(k, l, r),
        }
    } else if rh == lh + 2 {
        match r {
            KeyTree::Node(rk, rl, rr) => if kt_height(*rr) < kt_height(*rl) {
                match *rl {
                    KeyTree::Node(mk, ml, mr) => kt_node(mk, kt_node(k, l, *ml), kt_node(rk, *mr, *rr)),
                    KeyTree::Leaf => kt_node(k, l, r),
                }
            } else {
                kt_node(rk, kt_node(k, l, *rl), *rr)
            },
            KeyTree::Leaf => kt_node(k, l, r),
        }
    } else {
        kt_node(k, l, r)
    }
}

/// The shape after adding `k`: down to its place by key, a new leaf node
/// there (or the node of an equal key kept), rebalancing on the way up.
pub open spec fn kt_add<K: Ord>(t: KeyTree<K>, k: K) -> KeyTree<K>
    decreases t,
{
    match t {
        KeyTree::Leaf => kt_node(k, KeyTree::Leaf, KeyTree::Leaf),
        KeyTree::Node(nk, l, r) => if key_lt(k, nk) {
            kt_rebalance(nk, kt_add(*l, k), *r)
        } else if key_lt(nk, k) {
            kt_rebalance(nk, *l, kt_add(*r, k))
        } else {
            kt_node(k, *l, *r)
        },
    }
}

/// The leftmost key of a shape.
pub open spec fn kt_min<K>(t: KeyTree<K>) -> K
    decreases t,
{
    match t {
        KeyTree::Node(k, l, _) => match *l {
            KeyTree::Leaf => k,
            _ => kt_min(*l),
        },
        KeyTree::Leaf => arbitrary(),
    }
}

/// The rightmost key of a shape.
pub open spec fn kt_max<K>(t: KeyTree<K>) -> K
    decreases t,
{
    match t {
        KeyTree::Node(k, _, r) => match *r {
            KeyTree::Leaf => k,
            _ => kt_max(*r),
        },
        KeyTree::Leaf => arbitrary(),
    }
}

/// The shape after removing `k`: down to its node by key; a node with at
/// most one subtree gives way to it, one with two is replaced by the
/// smallest key of the right subtree if that is the higher one, and by the
/// largest key of the left one otherwise; rebalancing on the way up.
pub open spec fn kt_remove<K: Ord>(t: KeyTree<K>, k: K) -> KeyTree<K>
    decreases t,
{
    match t {
        KeyTree::Leaf => KeyTree::Leaf,
        KeyTree::Node(nk, l, r) => if key_lt(k, nk) {
            kt_rebalance(nk, kt_remove(*l, k), *r)
        } else if key_lt(nk, k) {
            kt_rebalance(nk, *l, kt_remove(*r, k))
        } else if *l is Leaf {
            *r
        } else if *r is Leaf {
            *l
        } else if kt_height(*l) < kt_height(*r) {
            kt_rebalance(kt_min(*r), *l, kt_remove(*r, kt_min(*r)))
        } else {
            kt_rebalance(kt_max(*l), kt_remove(*l, kt_max(*l)), *r)
        },
    }
}

/// The shape of a subtree.
spec fn shape_of<K, V>(l: Option<Arc<Node<K, V>>>) -> KeyTree<K>
    decreases l,
{
    match l {
        None => KeyTree::Leaf,
        Some(n) => kt_node(*n.key, shape_of(n.left), shape_of(n.right)),
    }
}

/// Every key of `m` is ordered strictly before `k`.
spec fn all_below<K: Ord, V>(m: Map<K, V>, k: K) -> bool {
    forall|x: K| #[trigger] m.dom().contains(x) ==> key_lt(x, k)
}

/// Every key of `m` is ordered strictly after `k`.
spec fn all_above<K: Ord, V>(m: Map<K, V>, k: K) -> bool {
    forall|x: K| #[trigger] m.dom().contains(x) ==> key_lt(k, x)
}

/// A subtree is a binary search tree whose stored heights are exact and whose
/// children differ in height by at most one at every node.
spec fn wf_link<K: Ord, V>(l: Option<Arc<Node<K, V>>>) -> bool
    decreases l,
{
    match l {
        None => true,
        Some(n) => {
            &&& wf_link(n.left)
            &&& wf_link(n.right)
            &&& all_below(link_map(n.left), *n.key)
            &&& all_above(link_map(n.right), *n.key)
            &&& ht(Some(n)) == 1 + max_int(ht(n.left), ht(n.right))
            &&& -1 <= ht(n.left) - ht(n.right) <= 1
        },
    }
}

proof fn lemma_height_nonneg<K: Ord, V>(l: Option<Arc<Node<K, V>>>)
    requires
        wf_link(l),
    ensures
        ht(l) >= 0,
        l is Some <==> ht(l) >= 1,
        l matches Some(n) ==> ht(left_of(n)) >= 0 && ht(right_of(n)) >= 0 && ht(left_of(n)) < ht(l) && ht(right_of(n)) < ht(l),
    decreases l,
{
    if let Some(n) = l {
        lemma_height_nonneg(left_of(n));
        lemma_height_nonneg(right_of(n));
    }
}

/// The Fibonacci numbers: 0, 1, 1, 2, 3, 5, 8, ...
pub open spec fn fib(n: nat) -> nat
    decreases n,
{
    if n == 0 {
        0
    } else if n == 1 {
        1
    } else {
        fib((n - 1) as nat) + fib((n - 2) as nat)
    }
}

proof fn lemma_fib_monotonic(i: nat, j: nat)
    requires
        i <= j,
    ensures
        fib(i) <= fib(j),
    decreases j - i,
{
    if i < j {
        lemma_fib_monotonic(i, (j - 1) as nat);
    }
}

/// Size bounds of a balanced subtree: `n + 1 <= 2^h` and
/// `n + 1 >= fib(h + 2)` for `n` pairs at height `h`, and its map has as
/// many keys as its in-order sequence has pairs.
proof fn lemma_link_size<K: Ord, V>(l: Option<Arc<Node<K, V>>>)
    requires
        total_key_order::<K>(),
        wf_link(l),
    ensures
        (ht(l) == 0) == (inorder(l).len() == 0),
        inorder(l).len() + 1 <= pow2(ht(l) as nat),
        inorder(l).len() + 1 >= fib((ht(l) + 2) as nat),
        link_map(l).dom().finite(),
        link_map(l).dom().len() == inorder(l).len(),
    decreases l,
{
    lemma_height_nonneg(l);
    lemma2_to64();
    match l {
        None => {
            assert(fib(2) == 1) by {
                reveal_with_fuel(fib, 2);
            }
            assert(link_map(l).dom() =~= Set::<K>::empty());
        },
        Some(n) => {
            lemma_link_size(left_of(n));
            lemma_link_size(right_of(n));
            lemma_height_nonneg(left_of(n));
            lemma_height_nonneg(right_of(n));
            let hl = ht(left_of(n)) as nat;
            let hr = ht(right_of(n)) as nat;
            let h = ht(l) as nat;
            let nl = inorder(left_of(n)).len();
            let nr = inorder(right_of(n)).len();
            assert(inorder(l).len() == nl + 1 + nr);
            lemma_pow2_unfold(h);
            if hl < (h - 1) as nat {
                lemma_pow2_strictly_increases(hl, (h - 1) as nat);
            }
            if hr < (h - 1) as nat {
                lemma_pow2_strictly_increases(hr, (h - 1) as nat);
            }
            assert(fib(h + 2) == fib(h + 1) + fib(h));
            if hl >= hr {
                lemma_fib_monotonic(h, hr + 2);
            } else {
                lemma_fib_monotonic(h, hl + 2);
            }
            let dl = link_map(left_of(n)).dom();
            let dr = link_map(right_of(n)).dom();
            assert(dl.disjoint(dr)) by {
                assert forall|x: K| dl.contains(x) implies !dr.contains(x) by {
                    lemma_key_order::<K>();
                    if dr.contains(x) {
                        assert(key_lt(x, *n.key));
                        assert(key_lt(*n.key, x));
                    }
                }
            }
            lemma_set_disjoint_lens(dl, dr);
            assert(!(dl + dr).contains(*n.key)) by {
                lemma_key_order::<K>();
            }
            assert(link_map(l).dom() =~= (dl + dr).insert(*n.key));
        },
    }
}

/// The stored heights of a well-formed subtree are those of its shape.
proof fn lemma_shape_height<K: Ord, V>(l: Option<Arc<Node<K, V>>>)
    requires
        wf_link(l),
    ensures
        ht(l) == kt_height(shape_of(l)),
    decreases l,
{
    if let Some(n) = l {
        lemma_shape_height(left_of(n));
        lemma_shape_height(right_of(n));
    }
}

/// The in-order sequence of a well-formed subtree is strictly ascending and
/// lists exactly the pairs of the subtree's map.
proof fn lemma_inorder<K: Ord, V>(l: Option<Arc<Node<K, V>>>)
    requires
        total_key_order::<K>(),
        wf_link(l),
    ensures
        forall|i: int, j: int|
            0 <= i < j < inorder(l).len() ==> key_lt(#[trigger] inorder(l)[i].0, #[trigger] inorder(l)[j].0),
        forall|i: int|
            0 <= i < inorder(l).len() ==> #[trigger] link_map(l).dom().contains(inorder(l)[i].0)
                && link_map(l)[inorder(l)[i].0] == inorder(l)[i].1,
        forall|k: K|
            #[trigger] link_map(l).dom().contains(k) ==> exists|i: int|
                0 <= i < inorder(l).len() && #[trigger] inorder(l)[i].0 == k,
    decreases l,
{
    lemma_key_order::<K>();
    if let Some(n) = l {
        lemma_inorder(left_of(n));
        lemma_inorder(right_of(n));
        let a = inorder(left_of(n));
        let b = inorder(right_of(n));
        let s = inorder(l);
        let ml = link_map(left_of(n));
        let mr = link_map(right_of(n));
        assert(s == a + seq![(*n.key, *n.value)] + b);
        assert forall|i: int| 0 <= i < s.len() implies #[trigger] link_map(l).dom().contains(s[i].0)
            && link_map(l)[s[i].0] == s[i].1 by {
            if i < a.len() {
                assert(s[i] == a[i]);
                assert(ml.dom().contains(a[i].0));
                assert(key_lt(a[i].0, *n.key));
                if mr.dom().contains(a[i].0) {
                    assert(key_lt(*n.key, a[i].0));
                }
            } else if i == a.len() {
            } else {
                assert(s[i] == b[i - a.len() - 1]);
                assert(mr.dom().contains(b[i - a.len() - 1].0));
            }
        }
        assert forall|i: int, j: int| 0 <= i < j < s.len() implies key_lt(
            #[trigger] s[i].0,
            #[trigger] s[j].0,
        ) by {
            if j < a.len() {
                assert(s[i] == a[i] && s[j] == a[j]);
            } else if j == a.len() {
                assert(s[i] == a[i]);
                assert(ml.dom().contains(a[i].0));
            } else if i > a.len() {
                assert(s[i] == b[i - a.len() - 1] && s[j] == b[j - a.len() - 1]);
            } else if i == a.len() {
                assert(s[j] == b[j - a.len() - 1]);
                assert(mr.dom().contains(b[j - a.len() - 1].0));
            } else {
                assert(s[i] == a[i] && s[j] == b[j - a.len() - 1]);
                assert(ml.dom().contains(a[i].0));
                assert(mr.dom().contains(b[j - a.len() - 1].0));
            }
        }
        assert forall|k: K| #[trigger] link_map(l).dom().contains(k) implies exists|i: int|
            0 <= i < s.len() && #[trigger] s[i].0 == k by {
            if k == *n.key {
                assert(s[a.len() as int].0 == k);
            } else if mr.dom().contains(k) {
                let j = choose|j: int| 0 <= j < b.len() && #[trigger] b[j].0 == k;
                assert(s[a.len() + 1 + j] == b[j]);
            } else {
                let j = choose|j: int| 0 <= j < a.len() && #[trigger] a[j].0 == k;
                assert(s[j] == a[j]);
            }
        }
    }
}


/// A copy of a subtree link, sharing the subtree.
fn share<K, V>(l: &Option<Arc<Node<K, V>>>) -> (r: Option<Arc<Node<K, V>>>)
    ensures
        r == *l,
{
    match l {
        None => None,
        Some(n) => Some(n.clone()),
    }
}

fn height_of<K, V>(l: &Option<Arc<Node<K, V>>>) -> (h: usize)
    ensures
        h == ht(*l),
{
    match l {
        None => 0,
        Some(n) => n.height,
    }
}

impl<K, V> Node<K, V> {
    /// A node over two subtrees, with its height computed from theirs.
    fn new(
        key: Arc<K>,
        value: Arc<V>,
        left: Option<Arc<Node<K, V>>>,
        right: Option<Arc<Node<K, V>>>,
    ) -> (n: Self)
        requires
            ht(left) < usize::MAX,
            ht(right) < usize::MAX,
        ensures
            n.key == key,
            n.value == value,
            n.left == left,
            n.right == right,
            n.height == 1 + max_int(ht(left), ht(right)),
    {
        let lh = height_of(&left);
        let rh = height_of(&right);
        let h = if lh >= rh {
            lh
        } else {
            rh
        };
        Node { key, value, left, right, height: h + 1 }
    }
}

/// The facts about a freshly built node that the rotations rely on.
proof fn lemma_node<K: Ord, V>(n: Arc<Node<K, V>>)
    requires
        total_key_order::<K>(),
        wf_link(n.left),
        wf_link(n.right),
        all_below(link_map(n.left), *n.key),
        all_above(link_map(n.right), *n.key),
        n.height == 1 + max_int(ht(n.left), ht(n.right)),
        -1 <= ht(n.left) - ht(n.right) <= 1,
    ensures
        wf_link(Some(n)),
        link_map(Some(n)) == link_map(n.left).union_prefer_right(link_map(n.right)).insert(*n.key, *n.value),
        link_map(Some(n)).dom() == link_map(n.left).dom() + link_map(n.right).dom() + set![*n.key],
{
    lemma_key_order::<K>();
    assert(link_map(Some(n)).dom() =~= link_map(n.left).dom() + link_map(n.right).dom() + set![*n.key]);
}

/// Rotation to the right: the left child becomes the root.
fn rotate_right<K: Ord, V>(
    key: Arc<K>,
    value: Arc<V>,
    left: Arc<Node<K, V>>,
    right: Option<Arc<Node<K, V>>>,
) -> (r: Option<Arc<Node<K, V>>>)
    requires
        total_key_order::<K>(),
        wf_link(Some(left)),
        wf_link(right),
        all_below(link_map(Some(left)), *key),
        all_above(link_map(right), *key),
        ht(Some(left)) == ht(right) + 2,
        ht(left.left) >= ht(left.right),
        ht(Some(left)) < usize::MAX,
    ensures
        r is Some,
        wf_link(r),
        link_map(r) == link_map(Some(left)).union_prefer_right(link_map(right)).insert(*key, *value),
        ht(Some(left)) <= ht(r) <= ht(Some(left)) + 1,
        shape_of(r) == kt_rebalance(*key, shape_of(Some(left)), shape_of(right)),
        inorder(r) == inorder(Some(left)) + seq![(*key, *value)] + inorder(right),
{
    proof {
        lemma_key_order::<K>();
        lemma_shape_height(Some(left));
        lemma_shape_height(right);
        lemma_shape_height(left_of(left));
        lemma_shape_height(right_of(left));
        lemma_height_nonneg(Some(left));
        lemma_height_nonneg(right);
    }
    let ghost ml = link_map(Some(left));
    let ghost ll = link_map(left_of(left));
    let ghost lr = link_map(right_of(left));
    let ghost mr = link_map(right);
    let new_right = Arc::new(Node::new(key, value, share(&left.right), right));
    proof {
        assert(all_below(lr, *key)) by {
            assert forall|x: K| #[trigger] lr.dom().contains(x) implies key_lt(x, *key) by {
                assert(ml.dom().contains(x));
            }
        }
        lemma_node(new_right);
    }
    let root = Arc::new(Node::new(left.key.clone(), left.value.clone(), share(&left.left), Some(new_right)));
    proof {
        assert(ml.dom().contains(*left.key));
        assert(all_above(link_map(Some(new_right)), *left.key)) by {
            assert forall|x: K| #[trigger] link_map(Some(new_right)).dom().contains(x) implies key_lt(*left.key, x) by {
                if mr.dom().contains(x) {
                    assert(key_lt(*left.key, *key));
                }
            }
        }
        lemma_node(root);
        assert(link_map(Some(root)) =~= ml.union_prefer_right(mr).insert(*key, *value)) by {
            assert forall|x: K| ll.dom().contains(x) implies !lr.dom().contains(x) && !mr.dom().contains(x) && x != *key && x != *left.key by {
                assert(key_lt(x, *left.key));
                assert(ml.dom().contains(x));
            }
            assert forall|x: K| lr.dom().contains(x) implies !mr.dom().contains(x) && x != *key && x != *left.key by {
                assert(ml.dom().contains(x));
            }
            assert(!mr.dom().contains(*left.key));
        }
    }
    proof {
        assert(shape_of(Some(left)) == kt_node(*left.key, shape_of(left_of(left)), shape_of(right_of(left))));
        assert(shape_of(Some(new_right)) == kt_node(*key, shape_of(right_of(left)), shape_of(right)));
        assert(shape_of(Some(root)) == kt_node(*left.key, shape_of(left_of(left)), shape_of(Some(new_right))));
    }
    proof {
        assert(inorder(Some(left)) == inorder(left_of(left)) + seq![(*left.key, *left.value)] + inorder(right_of(left)));
        assert(inorder(Some(new_right)) == inorder(right_of(left)) + seq![(*key, *value)] + inorder(right));
        assert(inorder(Some(root)) == inorder(left_of(left)) + seq![(*left.key, *left.value)] + inorder(Some(new_right)));
        assert(inorder(Some(root)) =~= inorder(Some(left)) + seq![(*key, *value)] + inorder(right));
    }
    Some(root)
}


/// Rotation to the left: the right child becomes the root.
fn rotate_left<K: Ord, V>(
    key: Arc<K>,
    value: Arc<V>,
    left: Option<Arc<Node<K, V>>>,
    right: Arc<Node<K, V>>,
) -> (r: Option<Arc<Node<K, V>>>)
    requires
        total_key_order::<K>(),
        wf_link(left),
        wf_link(Some(right)),
        all_below(link_map(left), *key),
        all_above(link_map(Some(right)), *key),
        ht(Some(right)) == ht(left) + 2,
        ht(right.right) >= ht(right.left),
        ht(Some(right)) < usize::MAX,
    ensures
        r is Some,
        wf_link(r),
        link_map(r) == link_map(left).union_prefer_right(link_map(Some(right))).insert(*key, *value),
        ht(Some(right)) <= ht(r) <= ht(Some(right)) + 1,
        shape_of(r) == kt_rebalance(*key, shape_of(left), shape_of(Some(right))),
        inorder(r) == inorder(left) + seq![(*key, *value)] + inorder(Some(right)),
{
    proof {
        lemma_key_order::<K>();
        lemma_shape_height(Some(right));
        lemma_shape_height(left);
        lemma_shape_height(left_of(right));
        lemma_shape_height(right_of(right));
        lemma_height_nonneg(Some(right));
        lemma_height_nonneg(left);
    }
    let ghost mr = link_map(Some(right));
    let ghost rl = link_map(left_of(right));
    let ghost rr = link_map(right_of(right));
    let ghost ml = link_map(left);
    let new_left = Arc::new(Node::new(key, value, left, share(&right.left)));
    proof {
        assert(all_above(rl, *key)) by {
            assert forall|x: K| #[trigger] rl.dom().contains(x) implies key_lt(*key, x) by {
                assert(mr.dom().contains(x));
            }
        }
        lemma_node(new_left);
    }
    let root = Arc::new(Node::new(right.key.clone(), right.value.clone(), Some(new_left), share(&right.right)));
    proof {
        assert(mr.dom().contains(*right.key));
        assert(all_below(link_map(Some(new_left)), *right.key)) by {
            assert forall|x: K| #[trigger] link_map(Some(new_left)).dom().contains(x) implies key_lt(x, *right.key) by {
                if ml.dom().contains(x) {
                    assert(key_lt(*key, *right.key));
                }
            }
        }
        lemma_node(root);
        assert(link_map(Some(root)) =~= ml.union_prefer_right(mr).insert(*key, *value)) by {
            assert forall|x: K| rr.dom().contains(x) implies !rl.dom().contains(x) && !ml.dom().contains(x) && x != *key && x != *right.key by {
                assert(key_lt(*right.key, x));
                assert(mr.dom().contains(x));
            }
            assert forall|x: K| rl.dom().contains(x) implies !ml.dom().contains(x) && x != *key && x != *right.key by {
                assert(mr.dom().contains(x));
            }
            assert(!ml.dom().contains(*right.key));
        }
    }
    proof {
        assert(shape_of(Some(right)) == kt_node(*right.key, shape_of(left_of(right)), shape_of(right_of(right))));
        assert(shape_of(Some(new_left)) == kt_node(*key, shape_of(left), shape_of(left_of(right))));
        assert(shape_of(Some(root)) == kt_node(*right.key, shape_of(Some(new_left)), shape_of(right_of(right))));
    }
    proof {
        assert(inorder(Some(right)) == inorder(left_of(right)) + seq![(*right.key, *right.value)] + inorder(right_of(right)));
        assert(inorder(Some(new_left)) == inorder(left) + seq![(*key, *value)] + inorder(left_of(right)));
        assert(inorder(Some(root)) == inorder(Some(new_left)) + seq![(*right.key, *right.value)] + inorder(right_of(right)));
        assert(inorder(Some(root)) =~= inorder(left) + seq![(*key, *value)] + inorder(Some(right)));
    }
    Some(root)
}

/// Double rotation: the right child of the left child becomes the root.
fn rotate_left_right<K: Ord, V>(
    key: Arc<K>,
    value: Arc<V>,
    left: Arc<Node<K, V>>,
    right: Option<Arc<Node<K, V>>>,
) -> (r: Option<Arc<Node<K, V>>>)
    requires
        total_key_order::<K>(),
        wf_link(Some(left)),
        wf_link(right),
        all_below(link_map(Some(left)), *key),
        all_above(link_map(right), *key),
        ht(Some(left)) == ht(right) + 2,
        ht(left.left) < ht(left.right),
        ht(Some(left)) < usize::MAX,
    ensures
        r is Some,
        wf_link(r),
        link_map(r) == link_map(Some(left)).union_prefer_right(link_map(right)).insert(*key, *value),
        ht(r) == ht(Some(left)),
        shape_of(r) == kt_rebalance(*key, shape_of(Some(left)), shape_of(right)),
        inorder(r) == inorder(Some(left)) + seq![(*key, *value)] + inorder(right),
{
    proof {
        lemma_key_order::<K>();
        lemma_shape_height(Some(left));
        lemma_shape_height(right);
        lemma_shape_height(left_of(left));
        lemma_shape_height(right_of(left));
        lemma_height_nonneg(Some(left));
        lemma_height_nonneg(right);
        lemma_height_nonneg(right_of(left));
    }
    let ghost ml = link_map(Some(left));
    let ghost ll = link_map(left_of(left));
    let ghost lr = link_map(right_of(left));
    let ghost mr = link_map(right);
    let left_right = match &left.right {
        Some(n) => n,
        None => {
            proof {
                assert(false);
            }
            return None;
        },
    };
    let ghost lrl = link_map(left_of(*left_right));
    let ghost lrr = link_map(right_of(*left_right));
    proof {
        assert(wf_link(Some(*left_right)));
        assert(wf_link(left_of(*left_right)) && wf_link(right_of(*left_right)));
        assert(all_below(lrl, *left_right.key) && all_above(lrr, *left_right.key));
    }
    let new_left = Arc::new(
        Node::new(left.key.clone(), left.value.clone(), share(&left.left), share(&left_right.left)),
    );
    proof {
        assert(lr.dom().contains(*left_right.key));
        assert(all_above(lrl, *left.key)) by {
            assert forall|x: K| #[trigger] lrl.dom().contains(x) implies key_lt(*left.key, x) by {
                assert(lr.dom().contains(x));
            }
        }
        lemma_node(new_left);
    }
    let new_right = Arc::new(Node::new(key, value, share(&left_right.right), right));
    proof {
        assert(all_below(lrr, *key)) by {
            assert forall|x: K| #[trigger] lrr.dom().contains(x) implies key_lt(x, *key) by {
                assert(lr.dom().contains(x));
                assert(ml.dom().contains(x));
            }
        }
        lemma_node(new_right);
    }
    let root = Arc::new(
        Node::new(left_right.key.clone(), left_right.value.clone(), Some(new_left), Some(new_right)),
    );
    proof {
        assert(ml.dom().contains(*left_right.key));
        assert(all_below(link_map(Some(new_left)), *left_right.key)) by {
            assert forall|x: K| #[trigger] link_map(Some(new_left)).dom().contains(x) implies key_lt(x, *left_right.key) by {
                if ll.dom().contains(x) {
                    assert(key_lt(x, *left.key));
                }
            }
        }
        assert(all_above(link_map(Some(new_right)), *left_right.key)) by {
            assert forall|x: K| #[trigger] link_map(Some(new_right)).dom().contains(x) implies key_lt(*left_right.key, x) by {
                if mr.dom().contains(x) {
                    assert(key_lt(*left_right.key, *key));
                }
            }
        }
        lemma_node(root);
        assert(link_map(Some(root)) =~= ml.union_prefer_right(mr).insert(*key, *value)) by {
            assert forall|x: K| ll.dom().contains(x) implies !lr.dom().contains(x) && !mr.dom().contains(x) && x != *key && x != *left.key by {
                assert(key_lt(x, *left.key));
                assert(ml.dom().contains(x));
            }
            assert forall|x: K| lr.dom().contains(x) implies !mr.dom().contains(x) && x != *key && x != *left.key by {
                assert(ml.dom().contains(x));
            }
            assert forall|x: K| lrl.dom().contains(x) implies !lrr.dom().contains(x) && x != *left_right.key by {
                assert(key_lt(x, *left_right.key));
            }
            assert(!mr.dom().contains(*left.key));
            assert(!mr.dom().contains(*left_right.key));
        }
    }
    proof {
        assert(shape_of(Some(left)) == kt_node(*left.key, shape_of(left_of(left)), shape_of(right_of(left))));
        assert(shape_of(Some(*left_right)) == kt_node(
            *left_right.key,
            shape_of(left_of(*left_right)),
            shape_of(right_of(*left_right)),
        ));
        assert(shape_of(Some(new_left)) == kt_node(*left.key, shape_of(left_of(left)), shape_of(left_of(*left_right))));
        assert(shape_of(Some(new_right)) == kt_node(*key, shape_of(right_of(*left_right)), shape_of(right)));
        assert(shape_of(Some(root)) == kt_node(*left_right.key, shape_of(Some(new_left)), shape_of(Some(new_right))));
    }
    proof {
        assert(inorder(Some(left)) == inorder(left_of(left)) + seq![(*left.key, *left.value)] + inorder(right_of(left)));
        assert(inorder(Some(*left_right)) == inorder(left_of(*left_right)) + seq![(*left_right.key, *left_right.value)]
            + inorder(right_of(*left_right)));
        assert(inorder(Some(new_left)) == inorder(left_of(left)) + seq![(*left.key, *left.value)] + inorder(left_of(*left_right)));
        assert(inorder(Some(new_right)) == inorder(right_of(*left_right)) + seq![(*key, *value)] + inorder(right));
        assert(inorder(Some(root)) == inorder(Some(new_left)) + seq![(*left_right.key, *left_right.value)] + inorder(Some(new_right)));
        assert(inorder(Some(root)) =~= inorder(Some(left)) + seq![(*key, *value)] + inorder(right));
    }
    Some(root)
}

/// Double rotation: the left child of the right child becomes the root.
fn rotate_right_left<K: Ord, V>(
    key: Arc<K>,
    value: Arc<V>,
    left: Option<Arc<Node<K, V>>>,
    right: Arc<Node<K, V>>,
) -> (r: Option<Arc<Node<K, V>>>)
    requires
        total_key_order::<K>(),
        wf_link(left),
        wf_link(Some(right)),
        all_below(link_map(left), *key),
        all_above(link_map(Some(right)), *key),
        ht(Some(right)) == ht(left) + 2,
        ht(right.right) < ht(right.left),
        ht(Some(right)) < usize::MAX,
    ensures
        r is Some,
        wf_link(r),
        link_map(r) == link_map(left).union_prefer_right(link_map(Some(right))).insert(*key, *value),
        ht(r) == ht(Some(right)),
        shape_of(r) == kt_rebalance(*key, shape_of(left), shape_of(Some(right))),
        inorder(r) == inorder(left) + seq![(*key, *value)] + inorder(Some(right)),
{
    proof {
        lemma_key_order::<K>();
        lemma_shape_height(Some(right));
        lemma_shape_height(left);
        lemma_shape_height(left_of(right));
        lemma_shape_height(right_of(right));
        lemma_height_nonneg(Some(right));
        lemma_height_nonneg(left);
        lemma_height_nonneg(left_of(right));
    }
    let ghost mr = link_map(Some(right));
    let ghost rl = link_map(left_of(right));
    let ghost rr = link_map(right_of(right));
    let ghost ml = link_map(left);
    let right_left = match &right.left {
        Some(n) => n,
        None => {
            proof {
                assert(false);
            }
            return None;
        },
    };
    let ghost rll = link_map(left_of(*right_left));
    let ghost rlr = link_map(right_of(*right_left));
    proof {
        assert(wf_link(Some(*right_left)));
        assert(wf_link(left_of(*right_left)) && wf_link(right_of(*right_left)));
        assert(all_below(rll, *right_left.key) && all_above(rlr, *right_left.key));
    }
    let new_left = Arc::new(Node::new(key, value, left, share(&right_left.left)));
    proof {
        assert(rl.dom().contains(*right_left.key));
        assert(all_above(rll, *key)) by {
            assert forall|x: K| #[trigger] rll.dom().contains(x) implies key_lt(*key, x) by {
                assert(rl.dom().contains(x));
                assert(mr.dom().contains(x));
            }
        }
        lemma_node(new_left);
    }
    let new_right = Arc::new(
        Node::new(right.key.clone(), right.value.clone(), share(&right_left.right), share(&right.right)),
    );
    proof {
        assert(all_below(rlr, *right.key)) by {
            assert forall|x: K| #[trigger] rlr.dom().contains(x) implies key_lt(x, *right.key) by {
                assert(rl.dom().contains(x));
            }
        }
        lemma_node(new_right);
    }
    let root = Arc::new(
        Node::new(right_left.key.clone(), right_left.value.clone(), Some(new_left), Some(new_right)),
    );
    proof {
        assert(mr.dom().contains(*right_left.key));
        assert(all_below(link_map(Some(new_left)), *right_left.key)) by {
            assert forall|x: K| #[trigger] link_map(Some(new_left)).dom().contains(x) implies key_lt(x, *right_left.key) by {
                if ml.dom().contains(x) {
                    assert(key_lt(*key, *right_left.key));
                }
            }
        }
        assert(all_above(link_map(Some(new_right)), *right_left.key)) by {
            assert forall|x: K| #[trigger] link_map(Some(new_right)).dom().contains(x) implies key_lt(*right_left.key, x) by {
                if rr.dom().contains(x) {
                    assert(key_lt(*right_left.key, *right.key));
                }
            }
        }
        lemma_node(root);
        assert(link_map(Some(root)) =~= ml.union_prefer_right(mr).insert(*key, *value)) by {
            assert forall|x: K| rr.dom().contains(x) implies !rl.dom().contains(x) && !ml.dom().contains(x) && x != *key && x != *right.key by {
                assert(key_lt(*right.key, x));
                assert(mr.dom().contains(x));
            }
            assert forall|x: K| rl.dom().contains(x) implies !ml.dom().contains(x) && x != *key && x != *right.key by {
                assert(mr.dom().contains(x));
            }
            assert forall|x: K| rll.dom().contains(x) implies !rlr.dom().contains(x) && x != *right_left.key by {
                assert(key_lt(x, *right_left.key));
            }
            assert(!ml.dom().contains(*right.key));
            assert(!ml.dom().contains(*right_left.key));
        }
    }
    proof {
        assert(shape_of(Some(right)) == kt_node(*right.key, shape_of(left_of(right)), shape_of(right_of(right))));
        assert(shape_of(Some(*right_left)) == kt_node(
            *right_left.key,
            shape_of(left_of(*right_left)),
            shape_of(right_of(*right_left)),
        ));
        assert(shape_of(Some(new_left)) == kt_node(*key, shape_of(left), shape_of(left_of(*right_left))));
        assert(shape_of(Some(new_right)) == kt_node(*right.key, shape_of(right_of(*right_left)), shape_of(right_of(right))));
        assert(shape_of(Some(root)) == kt_node(*right_left.key, shape_of(Some(new_left)), shape_of(Some(new_right))));
    }
    proof {
        assert(inorder(Some(right)) == inorder(left_of(right)) + seq![(*right.key, *right.value)] + inorder(right_of(right)));
        assert(inorder(Some(*right_left)) == inorder(left_of(*right_left)) + seq![(*right_left.key, *right_left.value)]
            + inorder(right_of(*right_left)));
        assert(inorder(Some(new_left)) == inorder(left) + seq![(*key, *value)] + inorder(left_of(*right_left)));
        assert(inorder(Some(new_right)) == inorder(right_of(*right_left)) + seq![(*right.key, *right.value)] + inorder(right_of(right)));
        assert(inorder(Some(root)) == inorder(Some(new_left)) + seq![(*right_left.key, *right_left.value)] + inorder(Some(new_right)));
        assert(inorder(Some(root)) =~= inorder(left) + seq![(*key, *value)] + inorder(Some(right)));
    }
    Some(root)
}


/// Joins two subtrees under a new root, restoring the height balance when the
/// subtrees differ in height by two.
fn rebalance<K: Ord, V>(
    key: Arc<K>,
    value: Arc<V>,
    left: Option<Arc<Node<K, V>>>,
    right: Option<Arc<Node<K, V>>>,
) -> (r: Option<Arc<Node<K, V>>>)
    requires
        total_key_order::<K>(),
        wf_link(left),
        wf_link(right),
        all_below(link_map(left), *key),
        all_above(link_map(right), *key),
        -2 <= ht(left) - ht(right) <= 2,
        ht(left) < usize::MAX,
        ht(right) < usize::MAX,
    ensures
        r is Some,
        wf_link(r),
        link_map(r) == link_map(left).union_prefer_right(link_map(right)).insert(*key, *value),
        -1 <= ht(left) - ht(right) <= 1 ==> ht(r) == 1 + max_int(ht(left), ht(right)),
        -1 <= ht(left) - ht(right) <= 1 ==> (r matches Some(n) && *n.key == *key),
        shape_of(r) == kt_rebalance(*key, shape_of(left), shape_of(right)),
        inorder(r) == inorder(left) + seq![(*key, *value)] + inorder(right),
        ht(left) == ht(right) + 2 ==> ht(left) <= ht(r) <= ht(left) + 1,
        ht(right) == ht(left) + 2 ==> ht(right) <= ht(r) <= ht(right) + 1,
{
    proof {
        lemma_height_nonneg(left);
        lemma_height_nonneg(right);
        lemma_shape_height(left);
        lemma_shape_height(right);
    }
    let lh = height_of(&left);
    let rh = height_of(&right);
    if lh > rh && lh - rh == 2 {
        let left_node = match left {
            Some(n) => n,
            None => {
                proof {
                    assert(false);
                }
                return None;
            },
        };
        let llh = height_of(&left_node.left);
        let lrh = height_of(&left_node.right);
        if llh < lrh {
            rotate_left_right(key, value, left_node, right)
        } else {
            rotate_right(key, value, left_node, right)
        }
    } else if rh > lh && rh - lh == 2 {
        let right_node = match right {
            Some(n) => n,
            None => {
                proof {
                    assert(false);
                }
                return None;
            },
        };
        let rlh = height_of(&right_node.left);
        let rrh = height_of(&right_node.right);
        if rrh < rlh {
            rotate_right_left(key, value, left, right_node)
        } else {
            rotate_left(key, value, left, right_node)
        }
    } else {
        let n = Arc::new(Node::new(key, value, left, right));
        proof {
            lemma_node(n);
        }
        Some(n)
    }
}


/// When `key` is at the root of `l` and the root has two subtrees, the
/// root of `r` holds the largest key of the left subtree if that one is at
/// least as high as the right one, and the smallest key of the right one
/// otherwise.
spec fn replaces_root<K: Ord, V>(l: Option<Arc<Node<K, V>>>, key: K, r: Option<Arc<Node<K, V>>>) -> bool {
    match l {
        Some(n) => (key == *n.key && left_of(n) is Some && right_of(n) is Some) ==> match r {
            Some(rn) => if ht(left_of(n)) >= ht(right_of(n)) {
                &&& link_map(left_of(n)).dom().contains(*rn.key)
                &&& forall|x: K| #[trigger]
                    link_map(left_of(n)).dom().contains(x) ==> x == *rn.key || key_lt(x, *rn.key)
            } else {
                &&& link_map(right_of(n)).dom().contains(*rn.key)
                &&& forall|x: K| #[trigger]
                    link_map(right_of(n)).dom().contains(x) ==> x == *rn.key || key_lt(*rn.key, x)
            },
            None => false,
        },
        None => true,
    }
}

/// The subtree `node` with `key` mapped to `value`.
fn add_node<K: Ord, V>(node: &Option<Arc<Node<K, V>>>, key: Arc<K>, value: Arc<V>) -> (r: Option<
    Arc<Node<K, V>>,
>)
    requires
        total_key_order::<K>(),
        wf_link(*node),
        ht(*node) < usize::MAX,
    ensures
        r is Some,
        wf_link(r),
        link_map(r) == link_map(*node).insert(*key, *value),
        ht(*node) <= ht(r) <= ht(*node) + 1,
        shape_of(r) == kt_add(shape_of(*node), *key),
    decreases *node,
{
    proof {
        lemma_cmp_results::<K>();
        lemma_height_nonneg(*node);
    }
    let n = match node {
        None => {
            let leaf = Arc::new(Node::new(key, value, None, None));
            proof {
                lemma_node(leaf);
                assert(link_map(Some(leaf)) =~= link_map(*node).insert(*key, *value));
            }
            return Some(leaf);
        },
        Some(n) => n,
    };
    let ghost ml = link_map(left_of(*n));
    let ghost mr = link_map(right_of(*n));
    let ghost old_map = link_map(*node);
    match (*key).cmp(&*n.key) {
        Ordering::Less => {
            let new_left = add_node(&n.left, key, value);
            proof {
                assert(all_below(link_map(new_left), *n.key)) by {
                    assert forall|x: K| #[trigger] link_map(new_left).dom().contains(x) implies key_lt(x, *n.key) by {
                        if x != *key {
                            assert(ml.dom().contains(x));
                        }
                    }
                }
            }
            let r = rebalance(n.key.clone(), n.value.clone(), new_left, share(&n.right));
            proof {
                assert(shape_of(*node) == kt_node(*n.key, shape_of(left_of(*n)), shape_of(right_of(*n))));
                assert(key_lt(*key, *n.key));
                assert(!mr.dom().contains(*key)) by {
                    if mr.dom().contains(*key) {
                        assert(key_lt(*n.key, *key));
                    }
                }
                assert(link_map(r) =~= old_map.insert(*key, *value));
            }
            r
        },
        Ordering::Greater => {
            let new_right = add_node(&n.right, key, value);
            proof {
                assert(all_above(link_map(new_right), *n.key)) by {
                    assert forall|x: K| #[trigger] link_map(new_right).dom().contains(x) implies key_lt(*n.key, x) by {
                        if x != *key {
                            assert(mr.dom().contains(x));
                        }
                    }
                }
            }
            let r = rebalance(n.key.clone(), n.value.clone(), share(&n.left), new_right);
            proof {
                assert(shape_of(*node) == kt_node(*n.key, shape_of(left_of(*n)), shape_of(right_of(*n))));
                assert(key_lt(*n.key, *key));
                assert(!key_lt(*key, *n.key));
                assert(!ml.dom().contains(*key)) by {
                    if ml.dom().contains(*key) {
                        assert(key_lt(*key, *n.key));
                    }
                }
                assert(link_map(r) =~= old_map.insert(*key, *value));
            }
            r
        },
        Ordering::Equal => {
            let replaced = Arc::new(Node::new(key, value, share(&n.left), share(&n.right)));
            proof {
                lemma_node(replaced);
                assert(link_map(Some(replaced)) =~= old_map.insert(*key, *value));
                assert(shape_of(*node) == kt_node(*n.key, shape_of(left_of(*n)), shape_of(right_of(*n))));
                assert(*key == *n.key);
                assert(!key_lt(*key, *n.key));
            }
            Some(replaced)
        },
    }
}

/// The node holding the smallest key of a subtree.
fn min_node<K: Ord, V>(node: &Arc<Node<K, V>>) -> (r: &Arc<Node<K, V>>)
    requires
        total_key_order::<K>(),
        wf_link(Some(*node)),
    ensures
        link_map(Some(*node)).dom().contains(*r.key),
        link_map(Some(*node))[*r.key] == *r.value,
        forall|x: K| #[trigger] link_map(Some(*node)).dom().contains(x) ==> x == *r.key || key_lt(*r.key, x),
        *r.key == kt_min(shape_of(Some(*node))),
    decreases *node,
{
    proof {
        lemma_key_order::<K>();
    }
    let ghost ml = link_map(left_of(*node));
    let ghost mr = link_map(right_of(*node));
    match &node.left {
        Some(left) => {
            let r = min_node(left);
            proof {
                assert(shape_of(Some(*node)) == kt_node(*node.key, shape_of(left_of(*node)), shape_of(right_of(*node))));
                assert(ml.dom().contains(*r.key));
                assert(!mr.dom().contains(*r.key)) by {
                    if mr.dom().contains(*r.key) {
                        assert(key_lt(*r.key, *node.key));
                    }
                }
                assert forall|x: K| #[trigger] link_map(Some(*node)).dom().contains(x) implies x == *r.key || key_lt(*r.key, x) by {
                    if mr.dom().contains(x) || x == *node.key {
                        assert(key_lt(*r.key, *node.key));
                    }
                }
            }
            r
        },
        None => node,
    }
}

/// The node holding the largest key of a subtree.
fn max_node<K: Ord, V>(node: &Arc<Node<K, V>>) -> (r: &Arc<Node<K, V>>)
    requires
        total_key_order::<K>(),
        wf_link(Some(*node)),
    ensures
        link_map(Some(*node)).dom().contains(*r.key),
        link_map(Some(*node))[*r.key] == *r.value,
        forall|x: K| #[trigger] link_map(Some(*node)).dom().contains(x) ==> x == *r.key || key_lt(x, *r.key),
        *r.key == kt_max(shape_of(Some(*node))),
    decreases *node,
{
    proof {
        lemma_key_order::<K>();
    }
    let ghost ml = link_map(left_of(*node));
    let ghost mr = link_map(right_of(*node));
    match &node.right {
        Some(right) => {
            let r = max_node(right);
            proof {
                assert(shape_of(Some(*node)) == kt_node(*node.key, shape_of(left_of(*node)), shape_of(right_of(*node))));
                assert(mr.dom().contains(*r.key));
                assert forall|x: K| #[trigger] link_map(Some(*node)).dom().contains(x) implies x == *r.key || key_lt(x, *r.key) by {
                    if ml.dom().contains(x) || x == *node.key {
                        assert(key_lt(*node.key, *r.key));
                    }
                }
            }
            r
        },
        None => node,
    }
}


/// The subtree `node` without `key`.
fn remove_node<K: Ord, V>(node: &Option<Arc<Node<K, V>>>, key: &K) -> (r: Option<Arc<Node<K, V>>>)
    requires
        total_key_order::<K>(),
        wf_link(*node),
    ensures
        wf_link(r),
        link_map(r) == link_map(*node).remove(*key),
        ht(*node) - 1 <= ht(r) <= ht(*node),
        replaces_root(*node, *key, r),
        shape_of(r) == kt_remove(shape_of(*node), *key),
    decreases *node,
{
    proof {
        lemma_cmp_results::<K>();
        lemma_height_nonneg(*node);
    }
    let n = match node {
        None => {
            proof {
                assert(link_map(*node).remove(*key) =~= link_map(*node));
            }
            return None;
        },
        Some(n) => n,
    };
    proof {
        lemma_height_nonneg(left_of(*n));
        lemma_height_nonneg(right_of(*n));
        lemma_shape_height(left_of(*n));
        lemma_shape_height(right_of(*n));
        assert(shape_of(*node) == kt_node(*n.key, shape_of(left_of(*n)), shape_of(right_of(*n))));
    }
    let ghost ml = link_map(left_of(*n));
    let ghost mr = link_map(right_of(*n));
    let ghost old_map = link_map(*node);
    match key.cmp(&*n.key) {
        Ordering::Less => {
            let new_left = remove_node(&n.left, key);
            proof {
                assert(all_below(link_map(new_left), *n.key)) by {
                    assert forall|x: K| #[trigger] link_map(new_left).dom().contains(x) implies key_lt(x, *n.key) by {
                        assert(ml.dom().contains(x));
                    }
                }
            }
            let r = rebalance(n.key.clone(), n.value.clone(), new_left, share(&n.right));
            proof {
                assert(key_lt(*key, *n.key));
                assert(!mr.dom().contains(*key)) by {
                    if mr.dom().contains(*key) {
                        assert(key_lt(*n.key, *key));
                    }
                }
                assert(link_map(r) =~= old_map.remove(*key));
            }
            r
        },
        Ordering::Greater => {
            let new_right = remove_node(&n.right, key);
            proof {
                assert(all_above(link_map(new_right), *n.key)) by {
                    assert forall|x: K| #[trigger] link_map(new_right).dom().contains(x) implies key_lt(*n.key, x) by {
                        assert(mr.dom().contains(x));
                    }
                }
            }
            let r = rebalance(n.key.clone(), n.value.clone(), share(&n.left), new_right);
            proof {
                assert(key_lt(*n.key, *key));
                assert(!key_lt(*key, *n.key));
                assert(!ml.dom().contains(*key)) by {
                    if ml.dom().contains(*key) {
                        assert(key_lt(*key, *n.key));
                    }
                }
                assert(link_map(r) =~= old_map.remove(*key));
            }
            r
        },
        Ordering::Equal => {
            proof {
                assert(!ml.dom().contains(*key));
                assert(!mr.dom().contains(*key));
                assert(*key == *n.key);
                assert(!key_lt(*key, *n.key) && !key_lt(*n.key, *key));
            }
            if n.left.is_none() {
                proof {
                    assert(mr =~= old_map.remove(*key));
                }
                return share(&n.right);
            }
            if n.right.is_none() {
                proof {
                    assert(ml =~= old_map.remove(*key));
                }
                return share(&n.left);
            }
            let left_height = height_of(&n.left);
            let right_height = height_of(&n.right);
            if left_height < right_height {
                let min_right = match &n.right {
                    Some(right) => min_node(right),
                    None => {
                        proof {
                            assert(false);
                        }
                        return None;
                    },
                };
                let new_right = remove_node(&n.right, &*min_right.key);
                proof {
                    assert(key_lt(*n.key, *min_right.key));
                    assert(all_below(ml, *min_right.key)) by {
                        assert forall|x: K| #[trigger] ml.dom().contains(x) implies key_lt(x, *min_right.key) by {
                            assert(key_lt(x, *n.key));
                        }
                    }
                    assert(all_above(link_map(new_right), *min_right.key)) by {
                        assert forall|x: K| #[trigger] link_map(new_right).dom().contains(x) implies key_lt(*min_right.key, x) by {
                            assert(mr.dom().contains(x));
                        }
                    }
                }
                let r = rebalance(min_right.key.clone(), min_right.value.clone(), share(&n.left), new_right);
                proof {
                    assert(link_map(r) =~= old_map.remove(*key));
                }
                r
            } else {
                let max_left = match &n.left {
                    Some(left) => max_node(left),
                    None => {
                        proof {
                            assert(false);
                        }
                        return None;
                    },
                };
                let new_left = remove_node(&n.left, &*max_left.key);
                proof {
                    assert(key_lt(*max_left.key, *n.key));
                    assert(all_above(mr, *max_left.key)) by {
                        assert forall|x: K| #[trigger] mr.dom().contains(x) implies key_lt(*max_left.key, x) by {
                            assert(key_lt(*n.key, x));
                        }
                    }
                    assert(all_below(link_map(new_left), *max_left.key)) by {
                        assert forall|x: K| #[trigger] link_map(new_left).dom().contains(x) implies key_lt(x, *max_left.key) by {
                            assert(ml.dom().contains(x));
                        }
                    }
                }
                let r = rebalance(max_left.key.clone(), max_left.value.clone(), new_left, share(&n.right));
                proof {
                    assert(link_map(r) =~= old_map.remove(*key));
                }
                r
            }
        },
    }
}


/// The key at the root after the root key `key` of a tree with map `m`
/// and root subtrees of heights `hs` was removed: the largest key below
/// `key` if the left subtree is at least as high as the right one, and the
/// smallest key above it otherwise.
pub open spec fn removed_root_successor<K: Ord, V>(m: Map<K, V>, key: K, root: Option<K>, hs: (nat, nat)) -> bool {
    match root {
        Some(k) => m.dom().contains(k) && if hs.0 >= hs.1 {
            key_lt(k, key) && forall|x: K| #[trigger] m.dom().contains(x) && key_lt(x, key) ==> x == k || key_lt(x, k)
        } else {
            key_lt(key, k) && forall|x: K| #[trigger] m.dom().contains(x) && key_lt(key, x) ==> x == k || key_lt(k, x)
        },
        None => false,
    }
}

/// The key at the root of a subtree.
spec fn link_root_key<K, V>(l: Option<Arc<Node<K, V>>>) -> Option<K> {
    match l {
        None => None,
        Some(n) => Some(*n.key),
    }
}

/// The heights of the two subtrees of the root of a subtree.
spec fn link_sub_heights<K, V>(l: Option<Arc<Node<K, V>>>) -> (nat, nat) {
    match l {
        None => (0, 0),
        Some(n) => (ht(left_of(n)) as nat, ht(right_of(n)) as nat),
    }
}

proof fn lemma_removed_root<K: Ord, V>(l: Option<Arc<Node<K, V>>>, key: K, r: Option<Arc<Node<K, V>>>)
    requires
        total_key_order::<K>(),
        wf_link(l),
        replaces_root(l, key, r),
    ensures
        link_root_key(l) == Some(key) && link_sub_heights(l).0 > 0 && link_sub_heights(l).1 > 0
            ==> removed_root_successor(link_map(l), key, link_root_key(r), link_sub_heights(l)),
{
    if let Some(n) = l {
        if link_root_key(l) == Some(key) && link_sub_heights(l).0 > 0 && link_sub_heights(l).1 > 0 {
            lemma_height_nonneg(left_of(n));
            lemma_height_nonneg(right_of(n));
            lemma_key_order::<K>();
            let ml = link_map(left_of(n));
            let mr = link_map(right_of(n));
            let m = link_map(l);
            assert forall|x: K| #[trigger] m.dom().contains(x) && key_lt(x, key) implies ml.dom().contains(x) by {
                if mr.dom().contains(x) {
                    assert(key_lt(*n.key, x));
                }
            }
            assert forall|x: K| #[trigger] m.dom().contains(x) && key_lt(key, x) implies mr.dom().contains(x) by {
                if ml.dom().contains(x) {
                    assert(key_lt(x, *n.key));
                }
            }
        }
    }
}

/// A persistent map ordered by key, balanced as an AVL tree.
#[derive(Debug)]
pub struct Avl<K, V> {
    root: Option<Arc<Node<K, V>>>,
}

impl<K, V> View for Avl<K, V> {
    type V = Map<K, V>;

    closed spec fn view(&self) -> Map<K, V> {
        link_map(self.root)
    }
}

impl<K, V> Avl<K, V> {
    /// The pairs of the tree in ascending key order.
    pub closed spec fn entries(&self) -> Seq<(K, V)> {
        inorder(self.root)
    }

    /// The number of nodes on the longest path from the root to a leaf.
    pub closed spec fn tree_height(&self) -> nat {
        match self.root {
            None => 0,
            Some(n) => n.height as nat,
        }
    }

    /// The shape of the tree: the key of every node and where it sits.
    pub closed spec fn shape(&self) -> KeyTree<K> {
        shape_of(self.root)
    }

    /// The heights of the two subtrees of the root; `(0, 0)` when the tree
    /// is empty.
    pub closed spec fn root_subtree_heights(&self) -> (nat, nat) {
        link_sub_heights(self.root)
    }

    /// The key stored at the root, if the tree is not empty.
    pub closed spec fn root_key_of(&self) -> Option<K> {
        link_root_key(self.root)
    }
}

impl<K: Ord, V> Avl<K, V> {
    /// The tree is a binary search tree by `K::cmp`, its stored heights are
    /// exact, and the two subtrees of every node differ in height by at most
    /// one.
    pub closed spec fn wf(&self) -> bool {
        wf_link(self.root)
    }
}

impl<K: Ord, V> Default for Avl<K, V> {
    fn default() -> (r: Self)
        ensures
            r.wf(),
            r.shape() == KeyTree::<K>::Leaf,
            r@ == Map::<K, V>::empty(),
            r.tree_height() == 0,
            r.entries() == Seq::<(K, V)>::empty(),
    {
        Avl { root: None }
    }
}

impl<K, V> Clone for Avl<K, V> {
    /// A second handle on the same tree; no node is copied.
    fn clone(&self) -> (r: Self)
        ensures
            r == *self,
    {
        Avl { root: share(&self.root) }
    }
}

impl<K: Ord, V> Avl<K, V> {
    /// An empty tree.
    pub fn new() -> (r: Self)
        ensures
            r.wf(),
            r.shape() == KeyTree::<K>::Leaf,
            r@ == Map::<K, V>::empty(),
            r.tree_height() == 0,
            r.entries() == Seq::<(K, V)>::empty(),
    {
        Avl { root: None }
    }
}

impl<K, V> Avl<K, V> {
    /// Whether the tree holds no pair.
    pub fn is_empty(&self) -> (r: bool)
        ensures
            r == (self@ == Map::<K, V>::empty()),
    {
        proof {
            if self.root is Some {
                assert(self@.dom().contains(*self.root->0.key));
            } else {
                assert(self@ =~= Map::<K, V>::empty());
            }
        }
        self.root.is_none()
    }

    /// The height of the tree: 0 when empty, otherwise the number of nodes on
    /// its longest root-to-leaf path.
    pub fn height(&self) -> (r: usize)
        ensures
            r == self.tree_height(),
    {
        height_of(&self.root)
    }

    /// The key at the root of the tree.
    pub fn root_key(&self) -> (r: Option<&K>)
        ensures
            match r {
                Some(k) => self.root_key_of() == Some(*k),
                None => self.root_key_of() is None,
            },
    {
        match &self.root {
            None => None,
            Some(n) => Some(&*n.key),
        }
    }

    /// An iterator over the pairs of the tree in ascending key order.
    pub fn iter(&self) -> (r: Iter<'_, K, V>)
        ensures
            r@ == self.entries(),
    {
        let mut iter = Iter { stack: Vec::new() };
        proof {
            assert(iter@ =~= Seq::<(K, V)>::empty());
        }
        iter.push_left(&self.root);
        proof {
            assert(iter@ =~= self.entries());
        }
        iter
    }
}

impl<K: Ord, V> Avl<K, V> {
    /// The value stored under `key`.
    pub fn get(&self, key: &K) -> (r: Option<&V>)
        requires
            total_key_order::<K>(),
            self.wf(),
        ensures
            match r {
                Some(v) => self@.dom().contains(*key) && *v == self@[*key],
                None => !self@.dom().contains(*key),
            },
    {
        proof {
            lemma_cmp_results::<K>();
        }
        let mut current = &self.root;
        loop
            invariant
                total_key_order::<K>(),
                wf_link(*current),
                self@.dom().contains(*key) <==> link_map(*current).dom().contains(*key),
                link_map(*current).dom().contains(*key) ==> self@[*key] == link_map(*current)[*key],
            decreases *current,
        {
            proof {
                lemma_cmp_results::<K>();
            }
            match current {
                None => {
                    return None;
                },
                Some(node) => {
                    let ghost ml = link_map(left_of(*node));
                    let ghost mr = link_map(right_of(*node));
                    match key.cmp(&*node.key) {
                        Ordering::Less => {
                            proof {
                                if mr.dom().contains(*key) {
                                    assert(key_lt(*node.key, *key));
                                }
                            }
                            current = &node.left;
                        },
                        Ordering::Greater => {
                            proof {
                                if ml.dom().contains(*key) {
                                    assert(key_lt(*key, *node.key));
                                }
                            }
                            current = &node.right;
                        },
                        Ordering::Equal => {
                            return Some(&*node.value);
                        },
                    }
                },
            }
        }
    }

    /// A new tree holding the pairs of this one with `key` mapped to `value`.
    /// This tree is left unchanged.
    pub fn add(&self, key: K, value: V) -> (r: Self)
        requires
            total_key_order::<K>(),
            self.wf(),
            self.tree_height() < usize::MAX,
        ensures
            r.wf(),
            r@ == self@.insert(key, value),
            self.tree_height() <= r.tree_height() <= self.tree_height() + 1,
            r.shape() == kt_add(self.shape(), key),
    {
        Avl { root: add_node(&self.root, Arc::new(key), Arc::new(value)) }
    }

    /// A new tree holding the pairs of this one except the one under `key`.
    /// This tree is left unchanged.
    pub fn remove(&self, key: &K) -> (r: Self)
        requires
            total_key_order::<K>(),
            self.wf(),
        ensures
            r.wf(),
            r@ == self@.remove(*key),
            r.tree_height() <= self.tree_height() <= r.tree_height() + 1,
            r.shape() == kt_remove(self.shape(), *key),
            self.root_key_of() == Some(*key) && self.root_subtree_heights().0 > 0 && self.root_subtree_heights().1
                > 0 ==> removed_root_successor(self@, *key, r.root_key_of(), self.root_subtree_heights()),
    {
        proof {
            lemma_height_nonneg(self.root);
        }
        let r = Avl { root: remove_node(&self.root, key) };
        proof {
            lemma_height_nonneg(r.root);
            lemma_removed_root(self.root, *key, r.root);
        }
        r
    }
}

/// Walks a tree in ascending key order.
pub struct Iter<'a, K, V> {
    stack: Vec<&'a Arc<Node<K, V>>>,
}

/// The pairs still to come from a stack of nodes whose left subtrees have
/// been visited: each node, then its right subtree, from the top down.
spec fn stack_seq<K, V>(s: Seq<&Arc<Node<K, V>>>) -> Seq<(K, V)>
    decreases s.len(),
{
    if s.len() == 0 {
        Seq::empty()
    } else {
        let n = s.last();
        seq![(*n.key, *n.value)] + inorder(n.right) + stack_seq(s.drop_last())
    }
}

impl<'a, K, V> View for Iter<'a, K, V> {
    type V = Seq<(K, V)>;

    /// The pairs the iterator has yet to yield, in order.
    closed spec fn view(&self) -> Seq<(K, V)> {
        stack_seq(self.stack@)
    }
}

impl<'a, K, V> Iter<'a, K, V> {
    fn push_left(&mut self, node: &'a Option<Arc<Node<K, V>>>)
        ensures
            final(self)@ == inorder(*node) + old(self)@,
    {
        let ghost start = self@;
        let mut cur = node;
        loop
            invariant
                start == old(self)@,
                inorder(*node) + start == inorder(*cur) + self@,
            decreases *cur,
        {
            match cur {
                None => {
                    proof {
                        assert(inorder(*node) + start =~= self@);
                    }
                    return;
                },
                Some(n) => {
                    let ghost before = self.stack@;
                    self.stack.push(n);
                    proof {
                        assert(self.stack@.drop_last() =~= before);
                        assert(inorder(*cur) =~= inorder(n.left) + seq![(*n.key, *n.value)] + inorder(n.right));
                        assert(inorder(*node) + start =~= inorder(n.left) + self@);
                    }
                    cur = &n.left;
                },
            }
        }
    }

    /// The next pair in ascending key order, or `None` when all have been
    /// yielded.
    pub fn next(&mut self) -> (r: Option<(&'a K, &'a V)>)
        ensures
            old(self)@.len() == 0 ==> r is None && final(self)@ == old(self)@,
            old(self)@.len() > 0 ==> (r matches Some((k, v)) && (*k, *v) == old(self)@[0]
                && final(self)@ == old(self)@.drop_first()),
    {
        let ghost before = self.stack@;
        match self.stack.pop() {
            None => None,
            Some(node) => {
                proof {
                    assert(before.drop_last() =~= self.stack@);
                    assert(old(self)@ =~= seq![(*node.key, *node.value)] + (inorder(node.right) + self@));
                }
                self.push_left(&node.right);
                proof {
                    assert(self@ =~= old(self)@.drop_first());
                }
                Some((&*node.key, &*node.value))
            },
        }
    }
}


/// Whether two handles point at the same node allocation.
#[verifier::external_body]
fn same_node<K, V>(a: &Arc<Node<K, V>>, b: &Arc<Node<K, V>>) -> (r: bool)
    ensures
        r ==> *a == *b,
{
    Arc::ptr_eq(a, b)
}

impl<K: Ord + PartialEq, V: PartialEq> PartialEq for Avl<K, V> {
    /// Two trees are equal when they yield equal pairs in the same order.
    fn eq(&self, other: &Self) -> (r: bool) {
        match (&self.root, &other.root) {
            (Some(r1), Some(r2)) => {
                if same_node(r1, r2) {
                    return true;
                }
            },
            (None, None) => {
                return true;
            },
            _ => {},
        }
        let mut a = self.iter();
        let mut b = other.iter();
        loop
            invariant
                obeys_concrete_eq::<K>() && obeys_concrete_eq::<V>() ==> (self.entries() == other.entries()
                    <==> a@ == b@),
            decreases a@.len(),
        {
            let ghost a0 = a@;
            let ghost b0 = b@;
            let x = a.next();
            let y = b.next();
            match (x, y) {
                (None, None) => {
                    return true;
                },
                (Some((ka, va)), Some((kb, vb))) => {
                    let same = ka.eq(kb) && va.eq(vb);
                    proof {
                        reveal(obeys_concrete_eq);
                        assert(a0 =~= seq![(*ka, *va)] + a@);
                        assert(b0 =~= seq![(*kb, *vb)] + b@);
                        if a@ == b@ && (*ka, *va) == (*kb, *vb) {
                            assert(a0 =~= b0);
                        }
                        if a0 == b0 {
                            assert(a0[0] == b0[0]);
                            assert(a@ =~= a0.drop_first());
                            assert(b@ =~= b0.drop_first());
                        }
                    }
                    if !same {
                        return false;
                    }
                },
                _ => {
                    return false;
                },
            }
        }
    }
}

impl<K: Ord + PartialEq, V: PartialEq> PartialEqSpecImpl for Avl<K, V> {
    open spec fn obeys_eq_spec() -> bool {
        obeys_concrete_eq::<K>() && obeys_concrete_eq::<V>()
    }

    open spec fn eq_spec(&self, other: &Self) -> bool {
        self.entries() == other.entries()
    }
}

impl<K: Ord + Eq, V: Eq> Eq for Avl<K, V> {

}

/// How two pairs compare: by key first, then by value.
pub open spec fn pair_cmp<K: Ord, V: PartialOrd>(a: (K, V), b: (K, V)) -> Option<Ordering> {
    match a.0.partial_cmp_spec(&b.0) {
        Some(Ordering::Equal) => a.1.partial_cmp_spec(&b.1),
        other => other,
    }
}

/// Lexicographic comparison of two sequences of pairs; a proper prefix comes
/// first.
pub open spec fn lex_cmp<K: Ord, V: PartialOrd>(a: Seq<(K, V)>, b: Seq<(K, V)>) -> Option<Ordering>
    decreases a.len(),
{
    if a.len() == 0 {
        if b.len() == 0 {
            Some(Ordering::Equal)
        } else {
            Some(Ordering::Less)
        }
    } else if b.len() == 0 {
        Some(Ordering::Greater)
    } else {
        match pair_cmp(a[0], b[0]) {
            Some(Ordering::Equal) => lex_cmp(a.drop_first(), b.drop_first()),
            other => other,
        }
    }
}

/// Comparing a sequence of pairs with itself answers `Equal` when both the key
/// and the value orderings are lawful.
proof fn lemma_lex_cmp_refl<K: Ord, V: PartialOrd>(a: Seq<(K, V)>)
    requires
        obeys_cmp::<K>(),
        obeys_concrete_eq::<K>(),
        obeys_partial_cmp_spec_properties::<V>(),
        obeys_concrete_eq::<V>(),
    ensures
        lex_cmp(a, a) == Some(Ordering::Equal),
    decreases a.len(),
{
    reveal(obeys_partial_cmp_spec_properties);
    reveal(obeys_concrete_eq);
    reveal(vstd::laws_cmp::obeys_cmp_partial_ord);
    reveal(vstd::laws_cmp::obeys_cmp_ord);
    if a.len() > 0 {
        assert(a[0].0.eq_spec(&a[0].0));
        assert(a[0].1.eq_spec(&a[0].1));
        lemma_lex_cmp_refl::<K, V>(a.drop_first());
    }
}

impl<K: Ord, V: PartialOrd> PartialOrd for Avl<K, V> {
    /// Lexicographic comparison of the pairs of the two trees in ascending key
    /// order.
    fn partial_cmp(&self, other: &Self) -> (r: Option<Ordering>) {
        match (&self.root, &other.root) {
            (Some(r1), Some(r2)) => {
                if same_node(r1, r2) {
                    proof {
                        if pairs_obey::<K, V>() {
                            lemma_lex_cmp_refl::<K, V>(self.entries());
                        }
                    }
                    return Some(Ordering::Equal);
                }
            },
            (None, None) => {
                return Some(Ordering::Equal);
            },
            _ => {},
        }
        let mut a = self.iter();
        let mut b = other.iter();
        loop
            invariant
                pairs_obey::<K, V>() ==> lex_cmp(self.entries(), other.entries()) == lex_cmp(a@, b@),
            decreases a@.len(),
        {
            let ghost a0 = a@;
            let ghost b0 = b@;
            let x = a.next();
            let y = b.next();
            match (x, y) {
                (None, None) => {
                    return Some(Ordering::Equal);
                },
                (None, Some(_)) => {
                    return Some(Ordering::Less);
                },
                (Some(_), None) => {
                    return Some(Ordering::Greater);
                },
                (Some((ka, va)), Some((kb, vb))) => {
                    let c = match ka.partial_cmp(kb) {
                        Some(Ordering::Equal) => va.partial_cmp(vb),
                        other => other,
                    };
                    proof {
                        reveal(vstd::laws_cmp::obeys_cmp_partial_ord);
                        assert(a0[0] == (*ka, *va));
                        assert(b0[0] == (*kb, *vb));
                        assert(a@ =~= a0.drop_first());
                        assert(b@ =~= b0.drop_first());
                    }
                    match c {
                        Some(Ordering::Equal) => {},
                        other => {
                            return other;
                        },
                    }
                },
            }
        }
    }
}

/// Both the key ordering and the value ordering are lawful, and their
/// equalities are the equality of values.
pub open spec fn pairs_obey<K: Ord, V: PartialOrd>() -> bool {
    &&& obeys_cmp::<K>()
    &&& obeys_concrete_eq::<K>()
    &&& V::obeys_partial_cmp_spec()
    &&& obeys_partial_cmp_spec_properties::<V>()
    &&& obeys_concrete_eq::<V>()
}

impl<K: Ord, V: PartialOrd> PartialOrdSpecImpl for Avl<K, V> {
    open spec fn obeys_partial_cmp_spec() -> bool {
        pairs_obey::<K, V>()
    }

    open spec fn partial_cmp_spec(&self, other: &Self) -> Option<Ordering> {
        lex_cmp(self.entries(), other.entries())
    }
}


impl<K: Ord, V> Avl<K, V> {
    /// The tree stays balanced: a tree of height `h` holds at most `2^h - 1`
    /// pairs and at least `fib(h + 2) - 1`, so its height grows with the
    /// logarithm of its size; its height is 0 exactly when it is empty (when
    /// it iterates nothing and when its map is empty), and
    /// it iterates exactly as many pairs as its map holds keys.
    pub proof fn lemma_height_balanced(&self)
        requires
            total_key_order::<K>(),
            self.wf(),
        ensures
            (self.tree_height() == 0) == (self.entries().len() == 0),
            self.entries().len() + 1 <= pow2(self.tree_height()),
            self.entries().len() + 1 >= fib(self.tree_height() + 2),
            self@.dom().finite(),
            self@.dom().len() == self.entries().len(),
            (self.tree_height() == 0) == (self@ == Map::<K, V>::empty()),
    {
        lemma_link_size(self.root);
        if self@.dom().len() == 0 {
            self@.dom().lemma_len0_is_empty();
            assert(self@ =~= Map::<K, V>::empty());
        }
        if self@ == Map::<K, V>::empty() {
            assert(self@.dom() =~= Set::<K>::empty());
            broadcast use vstd::set::axiom_set_empty_len;
        }
    }

    /// Iterating a tree yields its pairs in strictly ascending key order,
    /// each pair of the map exactly once.
    pub proof fn lemma_entries_sorted_and_complete(&self)
        requires
            total_key_order::<K>(),
            self.wf(),
        ensures
            forall|i: int, j: int|
                0 <= i < j < self.entries().len() ==> key_lt(
                    #[trigger] self.entries()[i].0,
                    #[trigger] self.entries()[j].0,
                ),
            forall|i: int|
                0 <= i < self.entries().len() ==> #[trigger] self@.dom().contains(self.entries()[i].0)
                    && self@[self.entries()[i].0] == self.entries()[i].1,
            forall|k: K|
                #[trigger] self@.dom().contains(k) ==> exists|i: int|
                    0 <= i < self.entries().len() && #[trigger] self.entries()[i].0 == k,
    {
        lemma_inorder(self.root);
        assert forall|k: K| #[trigger] self@.dom().contains(k) implies exists|i: int|
            0 <= i < self.entries().len() && #[trigger] self.entries()[i].0 == k by {
            assert(link_map(self.root).dom().contains(k));
            let i = choose|i: int| 0 <= i < inorder(self.root).len() && #[trigger] inorder(self.root)[i].0 == k;
            assert(self.entries()[i].0 == k);
        }
    }

    /// The shape of a tree gives its height and the key at its root.
    pub proof fn lemma_shape(&self)
        requires
            self.wf(),
        ensures
            self.tree_height() == kt_height(self.shape()),
            self.root_key_of() == match self.shape() {
                KeyTree::Leaf => None,
                KeyTree::Node(k, _, _) => Some(k),
            },
    {
        lemma_shape_height(self.root);
    }

    /// Iteration depends on the pairs alone: two trees that hold the same
    /// pairs iterate them alike.
    pub proof fn lemma_same_pairs_same_iteration(a: &Self, b: &Self)
        requires
            total_key_order::<K>(),
            a.wf(),
            b.wf(),
            a@ == b@,
        ensures
            a.entries() == b.entries(),
    {
        a.lemma_entries_sorted_and_complete();
        b.lemma_entries_sorted_and_complete();
        lemma_listing_unique(a.entries(), b.entries(), a@);
    }

    /// Iterating the tree that `remove(key)` returns yields the pairs this
    /// tree yields, in the same order, less the one under `key`.
    pub proof fn lemma_iteration_after_remove(&self, key: K, removed: &Self)
        requires
            total_key_order::<K>(),
            self.wf(),
            removed.wf(),
            removed@ == self@.remove(key),
        ensures
            !self@.dom().contains(key) ==> removed.entries() == self.entries(),
            self@.dom().contains(key) ==> exists|i: int|
                0 <= i < self.entries().len() && #[trigger] self.entries()[i].0 == key && removed.entries()
                    == self.entries().remove(i),
    {
        self.lemma_entries_sorted_and_complete();
        removed.lemma_entries_sorted_and_complete();
        let s = self.entries();
        assert(lists_in_order(s, self@));
        assert(lists_in_order(removed.entries(), removed@));
        if !self@.dom().contains(key) {
            assert(removed@ =~= self@);
            lemma_listing_unique(s, removed.entries(), removed@);
        } else {
            let i = choose|i: int| 0 <= i < s.len() && #[trigger] s[i].0 == key;
            lemma_listing_remove(s, self@, i);
            lemma_listing_unique(s.remove(i), removed.entries(), removed@);
        }
    }

    /// Iterating the tree that `add(key, value)` returns yields the pairs
    /// this tree yields, in the same order, with the value under `key`
    /// replaced, or with `(key, value)` inserted at its place in key order.
    pub proof fn lemma_iteration_after_add(&self, key: K, value: V, added: &Self)
        requires
            total_key_order::<K>(),
            self.wf(),
            added.wf(),
            added@ == self@.insert(key, value),
        ensures
            self@.dom().contains(key) ==> exists|i: int|
                0 <= i < self.entries().len() && #[trigger] self.entries()[i].0 == key && added.entries()
                    == self.entries().update(i, (key, value)),
            !self@.dom().contains(key) ==> exists|i: int|
                0 <= i <= self.entries().len() && added.entries() == #[trigger] self.entries().insert(
                    i,
                    (key, value),
                ),
    {
        self.lemma_entries_sorted_and_complete();
        added.lemma_entries_sorted_and_complete();
        let s = self.entries();
        assert(lists_in_order(s, self@));
        assert(lists_in_order(added.entries(), added@));
        if self@.dom().contains(key) {
            let i = choose|i: int| 0 <= i < s.len() && #[trigger] s[i].0 == key;
            lemma_listing_update(s, self@, i, value);
            lemma_listing_unique(s.update(i, (key, value)), added.entries(), added@);
        } else {
            let p = lemma_listing_insert(s, self@, key, value);
            lemma_listing_unique(s.insert(p, (key, value)), added.entries(), added@);
        }
    }

    /// A read after a write: the tree returned by `add(key, value)` maps
    /// `key` to `value` and every other key as before.
    pub proof fn lemma_get_after_add(t: Self, key: K, value: V, added: Self)
        requires
            added@ == t@.insert(key, value),
        ensures
            added@.dom().contains(key),
            added@[key] == value,
            forall|k: K|
                k != key ==> (#[trigger] added@.dom().contains(k) == t@.dom().contains(k)) && (
                t@.dom().contains(k) ==> added@[k] == t@[k]),
    {
    }

    /// The tree returned by `remove(key)` holds no value for `key` and every
    /// other key as before.
    pub proof fn lemma_get_after_remove(t: Self, key: K, removed: Self)
        requires
            removed@ == t@.remove(key),
        ensures
            !removed@.dom().contains(key),
            forall|k: K|
                k != key ==> (#[trigger] removed@.dom().contains(k) == t@.dom().contains(k)) && (
                t@.dom().contains(k) ==> removed@[k] == t@[k]),
    {
    }
}

} // verus!
