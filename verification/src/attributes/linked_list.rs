//! A persistent linked list that behaves like a map.
//!
//! Modifying the list returns a new version of it while the old version stays
//! valid; versions share their common tail.  Adding a key that is already
//! present shadows the older entry, and removing a key adds a deletion marker
//! that shadows every older entry for it.
//!
//! The list is meant for a small number of values (a few hundred) and favours
//! memory use over lookup speed.

use crate::key_order::total_key_order;
use std::collections::BTreeSet;
use std::sync::Arc;
use vstd::laws_eq::obeys_concrete_eq;
use vstd::prelude::*;

verus! {

/// A node of the list; each node points to the previous version of the list.
/// A value of `None` marks the key as removed.
#[derive(Debug)]
struct Node<K, V> {
    key: K,
    value: Option<V>,
    parent: Option<Arc<Node<K, V>>>,
}

spec fn parent_of<K, V>(n: Arc<Node<K, V>>) -> Option<Arc<Node<K, V>>> {
    n.parent
}

/// The entries of a chain of nodes, newest first.
spec fn chain<K, V>(l: Option<Arc<Node<K, V>>>) -> Seq<(K, Option<V>)>
    decreases l,
{
    match l {
        None => Seq::empty(),
        Some(n) => seq![(n.key, n.value)] + chain(n.parent),
    }
}

/// What the newest entry for `k` says: `Some(Some(v))` when it maps `k` to
/// `v`, `Some(None)` when it removes `k`, `None` when there is no entry.
pub open spec fn newest<K, V>(s: Seq<(K, Option<V>)>, k: K) -> Option<Option<V>>
    decreases s.len(),
{
    if s.len() == 0 {
        None
    } else if s[0].0 == k {
        Some(s[0].1)
    } else {
        newest(s.drop_first(), k)
    }
}

/// The map described by a sequence of entries, newest first.
pub open spec fn entries_map<K, V>(s: Seq<(K, Option<V>)>) -> Map<K, V> {
    Map::new(|k: K| newest(s, k) matches Some(Some(_)), |k: K| newest(s, k)->0->0)
}

/// The pairs an iteration yields from `s` when the keys in `seen` have
/// already been met: for each key met for the first time, its value unless
/// the entry is a deletion marker.
pub open spec fn visible<K, V>(s: Seq<(K, Option<V>)>, seen: Set<K>) -> Seq<(K, V)>
    decreases s.len(),
{
    if s.len() == 0 {
        Seq::empty()
    } else if seen.contains(s[0].0) {
        visible(s.drop_first(), seen)
    } else {
        match s[0].1 {
            Some(v) => seq![(s[0].0, v)] + visible(s.drop_first(), seen.insert(s[0].0)),
            None => visible(s.drop_first(), seen.insert(s[0].0)),
        }
    }
}

/// A persistent map kept as a list of entries, newest first.
#[derive(Debug)]
pub struct LinkedList<K, V> {
    head: Option<Arc<Node<K, V>>>,
}

impl<K, V> View for LinkedList<K, V> {
    type V = Map<K, V>;

    closed spec fn view(&self) -> Map<K, V> {
        entries_map(chain(self.head))
    }
}

impl<K, V> LinkedList<K, V> {
    /// Every entry of the list, newest first, deletion markers included.
    pub closed spec fn entries(&self) -> Seq<(K, Option<V>)> {
        chain(self.head)
    }

    /// The view is the map that the entries describe.
    pub proof fn lemma_view(&self)
        ensures
            self@ == entries_map(self.entries()),
    {
    }
}

impl<K, V> Clone for LinkedList<K, V> {
    /// A second handle on the same list; no node is copied.
    fn clone(&self) -> (r: Self)
        ensures
            r == *self,
    {
        match &self.head {
            None => LinkedList { head: None },
            Some(n) => LinkedList { head: Some(n.clone()) },
        }
    }
}

impl<K, V> Default for LinkedList<K, V> {
    fn default() -> (r: Self)
        ensures
            r.entries() == Seq::<(K, Option<V>)>::empty(),
            r@ == Map::<K, V>::empty(),
    {
        let r = LinkedList { head: None };
        proof {
            assert(r@ =~= Map::<K, V>::empty());
        }
        r
    }
}

/// Adding an entry in front changes the described map at that key only.
proof fn lemma_push_front<K, V>(s: Seq<(K, Option<V>)>, k: K, v: Option<V>)
    ensures
        newest(seq![(k, v)] + s, k) == Some(v),
        forall|j: K| j != k ==> #[trigger] newest(seq![(k, v)] + s, j) == newest(s, j),
{
    assert((seq![(k, v)] + s).drop_first() =~= s);
}

impl<K, V> LinkedList<K, V> {
    /// A new, empty list.
    pub fn new() -> (r: Self)
        ensures
            r.entries() == Seq::<(K, Option<V>)>::empty(),
            r@ == Map::<K, V>::empty(),
    {
        Self::default()
    }

    /// A new list that maps `key` to `value`, shadowing any older entry for
    /// `key`.  This list is left unchanged.
    pub fn add(&self, key: K, value: V) -> (r: Self)
        ensures
            r.entries() == seq![(key, Some(value))] + self.entries(),
            r@ == self@.insert(key, value),
    {
        let r = LinkedList { head: Some(Arc::new(Node { key, value: Some(value), parent: self.share_head() })) };
        proof {
            lemma_push_front(self.entries(), key, Some(value));
            assert(r.entries() =~= seq![(key, Some(value))] + self.entries());
            assert(r@ =~= self@.insert(key, value));
        }
        r
    }

    /// A new list in which `key` has no value, shadowing any older entry for
    /// `key`.  This list is left unchanged.
    pub fn remove(&self, key: K) -> (r: Self)
        ensures
            r.entries() == seq![(key, None::<V>)] + self.entries(),
            r@ == self@.remove(key),
    {
        let r = LinkedList { head: Some(Arc::new(Node { key, value: None, parent: self.share_head() })) };
        proof {
            lemma_push_front(self.entries(), key, None::<V>);
            assert(r.entries() =~= seq![(key, None::<V>)] + self.entries());
            assert(r@ =~= self@.remove(key));
        }
        r
    }

    fn share_head(&self) -> (r: Option<Arc<Node<K, V>>>)
        ensures
            r == self.head,
    {
        match &self.head {
            None => None,
            Some(n) => Some(n.clone()),
        }
    }
}

impl<K: Eq, V> LinkedList<K, V> {
    /// The value of the most recent entry for `key`; `None` when there is no
    /// entry or the most recent one is a deletion marker.
    pub fn get(&self, key: &K) -> (r: Option<&V>)
        requires
            obeys_concrete_eq::<K>(),
        ensures
            match r {
                Some(v) => self@.dom().contains(*key) && *v == self@[*key],
                None => !self@.dom().contains(*key),
            },
    {
        proof {
            reveal(obeys_concrete_eq);
        }
        let mut current = &self.head;
        loop
            invariant
                obeys_concrete_eq::<K>(),
                newest(self.entries(), *key) == newest(chain(*current), *key),
            decreases *current,
        {
            match current {
                None => {
                    return None;
                },
                Some(node) => {
                    proof {
                        reveal(obeys_concrete_eq);
                        assert(chain(*current).drop_first() =~= chain(node.parent));
                    }
                    if node.key.eq(key) {
                        return node.value.as_ref();
                    }
                    current = &node.parent;
                },
            }
        }
    }
}

impl<K: Ord, V> LinkedList<K, V> {
    /// An iterator over the pairs of the list, newest entry first: each key is
    /// yielded once, with its most recent value, and removed keys are skipped.
    pub fn iter(&self) -> (r: Iter<'_, K, V>)
        ensures
            r@ == visible(self.entries(), Set::empty()),
    {
        let r = Iter { current: self.head.as_ref(), seen: BTreeSet::new() };
        proof {
            assert(r.seen@ =~= Set::<&K>::empty());
            assert(seen_keys(r.seen@) =~= Set::<K>::empty());
        }
        r
    }
}

/// An iterator over the items of a `LinkedList`.
pub struct Iter<'a, K, V> {
    current: Option<&'a Arc<Node<K, V>>>,
    seen: BTreeSet<&'a K>,
}

spec fn seen_keys<K>(s: Set<&K>) -> Set<K> {
    Set::new(|k: K| s.contains(&k))
}

spec fn current_link<'a, K, V>(c: Option<&'a Arc<Node<K, V>>>) -> Option<Arc<Node<K, V>>> {
    match c {
        None => None,
        Some(n) => Some(*n),
    }
}

impl<'a, K, V> View for Iter<'a, K, V> {
    type V = Seq<(K, V)>;

    /// The pairs the iterator has yet to yield, in order.
    closed spec fn view(&self) -> Seq<(K, V)> {
        visible(chain(current_link(self.current)), seen_keys(self.seen@))
    }
}

impl<'a, K: Ord, V> Iter<'a, K, V> {
    /// The next pair, or `None` when all have been yielded.
    pub fn next(&mut self) -> (r: Option<(&'a K, &'a V)>)
        requires
            total_key_order::<K>(),
        ensures
            old(self)@.len() == 0 ==> r is None && final(self)@ == old(self)@,
            old(self)@.len() > 0 ==> (r matches Some((k, v)) && (*k, *v) == old(self)@[0]
                && final(self)@ == old(self)@.drop_first()),
    {
        proof {
            broadcast use vstd::laws_cmp::lemma_ref_obeys_cmp_spec;
        }
        loop
            invariant
                total_key_order::<K>(),
                self@ == old(self)@,
            decreases chain(current_link(self.current)).len(),
        {
            let node = match self.current {
                None => {
                    return None;
                },
                Some(node) => node,
            };
            let ghost s = chain(current_link(self.current));
            let ghost seen = seen_keys(self.seen@);
            self.current = node.parent.as_ref();
            proof {
                assert(s.drop_first() =~= chain(current_link(self.current)));
                assert(s[0] == (node.key, node.value));
            }
            let fresh = self.seen.insert(&node.key);
            proof {
                assert(fresh == !seen.contains(node.key));
                assert(seen_keys(self.seen@) =~= seen.insert(node.key));
            }
            if fresh {
                match &node.value {
                    Some(v) => {
                        return Some((&node.key, v));
                    },
                    None => {
                        proof {
                            assert(visible(s, seen) == visible(s.drop_first(), seen.insert(node.key)));
                        }
                    },
                }
            } else {
                proof {
                    assert(visible(s, seen) == visible(s.drop_first(), seen));
                    assert(seen_keys(self.seen@) =~= seen);
                }
            }
        }
    }
}


proof fn lemma_visible<K, V>(s: Seq<(K, Option<V>)>, seen: Set<K>)
    ensures
        forall|i: int|
            0 <= i < visible(s, seen).len() ==> !seen.contains(#[trigger] visible(s, seen)[i].0)
                && newest(s, visible(s, seen)[i].0) == Some(Some(visible(s, seen)[i].1)),
        forall|i: int, j: int|
            0 <= i < j < visible(s, seen).len() ==> #[trigger] visible(s, seen)[i].0
                != #[trigger] visible(s, seen)[j].0,
        forall|k: K|
            !seen.contains(k) && #[trigger] entries_map(s).dom().contains(k) ==> exists|i: int|
                0 <= i < visible(s, seen).len() && #[trigger] visible(s, seen)[i].0 == k,
    decreases s.len(),
{
    if s.len() > 0 {
        let k0 = s[0].0;
        let rest = s.drop_first();
        let seen2 = if seen.contains(k0) {
            seen
        } else {
            seen.insert(k0)
        };
        lemma_visible(rest, seen2);
        let r = visible(rest, seen2);
        let out = visible(s, seen);
        if !seen.contains(k0) && s[0].1 is Some {
            let v0 = s[0].1->0;
            assert(out == seq![(k0, v0)] + r);
            assert forall|i: int| 0 <= i < out.len() implies !seen.contains(#[trigger] out[i].0)
                && newest(s, out[i].0) == Some(Some(out[i].1)) by {
                if i > 0 {
                    assert(out[i] == r[i - 1]);
                }
            }
            assert forall|i: int, j: int| 0 <= i < j < out.len() implies #[trigger] out[i].0
                != #[trigger] out[j].0 by {
                assert(out[j] == r[j - 1]);
                if i > 0 {
                    assert(out[i] == r[i - 1]);
                }
            }
            assert forall|k: K| !seen.contains(k) && #[trigger] entries_map(s).dom().contains(k) implies exists|
                i: int,
            | 0 <= i < out.len() && #[trigger] out[i].0 == k by {
                if k == k0 {
                    assert(out[0].0 == k);
                } else {
                    assert(newest(s, k) == newest(rest, k));
                    assert(entries_map(rest).dom().contains(k));
                    assert(!seen2.contains(k));
                    let i = choose|i: int| 0 <= i < r.len() && #[trigger] r[i].0 == k;
                    assert(out[i + 1] == r[i]);
                }
            }
        } else {
            assert(out == r);
            assert forall|k: K| !seen.contains(k) && #[trigger] entries_map(s).dom().contains(k) implies exists|
                i: int,
            | 0 <= i < out.len() && #[trigger] out[i].0 == k by {
                if k == k0 {
                    assert(newest(s, k) == Some(s[0].1));
                }
                assert(newest(s, k) == newest(rest, k));
                assert(entries_map(rest).dom().contains(k));
                assert(!seen2.contains(k));
            }
        }
    }
}

/// The pairs of `s` whose key is not `k`, in order.
pub open spec fn without_pairs<K, V>(s: Seq<(K, V)>, k: K) -> Seq<(K, V)>
    decreases s.len(),
{
    if s.len() == 0 {
        s
    } else if s[0].0 == k {
        without_pairs(s.drop_first(), k)
    } else {
        seq![s[0]] + without_pairs(s.drop_first(), k)
    }
}

proof fn lemma_without_absent<K, V>(s: Seq<(K, V)>, k: K)
    requires
        forall|i: int| 0 <= i < s.len() ==> (#[trigger] s[i]).0 != k,
    ensures
        without_pairs(s, k) == s,
    decreases s.len(),
{
    if s.len() > 0 {
        lemma_without_absent(s.drop_first(), k);
        assert(s =~= seq![s[0]] + s.drop_first());
    }
}

/// Meeting one more key first leaves out that key's pairs and changes
/// nothing else.
proof fn lemma_visible_seen_insert<K, V>(s: Seq<(K, Option<V>)>, seen: Set<K>, k: K)
    requires
        !seen.contains(k),
    ensures
        visible(s, seen.insert(k)) == without_pairs(visible(s, seen), k),
    decreases s.len(),
{
    if s.len() > 0 {
        let k0 = s[0].0;
        let rest = s.drop_first();
        if seen.contains(k0) {
            lemma_visible_seen_insert(rest, seen, k);
        } else if k0 == k {
            lemma_visible(rest, seen.insert(k));
            lemma_without_absent(visible(rest, seen.insert(k)), k);
            match s[0].1 {
                Some(v) => {
                    let tail = visible(rest, seen.insert(k));
                    assert((seq![(k0, v)] + tail).drop_first() =~= tail);
                },
                None => {},
            }
        } else {
            lemma_visible_seen_insert(rest, seen.insert(k0), k);
            assert(seen.insert(k).insert(k0) =~= seen.insert(k0).insert(k));
            match s[0].1 {
                Some(v) => {
                    let tail = visible(rest, seen.insert(k0));
                    assert((seq![(k0, v)] + tail).drop_first() =~= tail);
                    assert((seq![(k0, v)] + tail)[0] == (k0, v));
                },
                None => {},
            }
        }
    }
}

/// The pairs of `s` (entries newest first, none of them a deletion
/// marker) keeping only the first, that is the newest, entry of each key,
/// newest first.
pub open spec fn newest_first<K, V>(s: Seq<(K, Option<V>)>) -> Seq<(K, V)>
    decreases s.len(),
{
    if s.len() == 0 {
        Seq::empty()
    } else {
        seq![(s[0].0, s[0].1->0)] + without_pairs(newest_first(s.drop_first()), s[0].0)
    }
}

proof fn lemma_visible_of_adds<K, V>(s: Seq<(K, Option<V>)>)
    requires
        forall|i: int| 0 <= i < s.len() ==> (#[trigger] s[i]).1 is Some,
    ensures
        visible(s, Set::empty()) == newest_first(s),
    decreases s.len(),
{
    if s.len() > 0 {
        let rest = s.drop_first();
        assert forall|i: int| 0 <= i < rest.len() implies (#[trigger] rest[i]).1 is Some by {
            assert(rest[i] == s[i + 1]);
        }
        lemma_visible_of_adds(rest);
        lemma_visible_seen_insert(rest, Set::empty(), s[0].0);
    }
}

impl<K, V> LinkedList<K, V> {
    /// The order of iteration: the list that `add(key, value)` returns
    /// yields `(key, value)` first and then what this list yields, less
    /// `key`; the list that `remove(key)` returns yields what this list
    /// yields, less `key`. So keys come newest write first.
    pub proof fn lemma_iteration_order(&self, key: K, value: V, added: Self, removed: Self)
        requires
            added.entries() == seq![(key, Some(value))] + self.entries(),
            removed.entries() == seq![(key, None::<V>)] + self.entries(),
        ensures
            visible(added.entries(), Set::empty()) == seq![(key, value)] + without_pairs(
                visible(self.entries(), Set::empty()),
                key,
            ),
            visible(removed.entries(), Set::empty()) == without_pairs(
                visible(self.entries(), Set::empty()),
                key,
            ),
    {
        lemma_visible_seen_insert(self.entries(), Set::empty(), key);
        assert(added.entries().drop_first() =~= self.entries());
        assert(removed.entries().drop_first() =~= self.entries());
    }

    /// A list built by adds alone iterates each of its keys once, with the
    /// value of the last add of the key, ordered by those last adds from
    /// the latest to the earliest.
    pub proof fn lemma_iteration_of_adds(&self)
        requires
            forall|i: int| 0 <= i < self.entries().len() ==> (#[trigger] self.entries()[i]).1 is Some,
        ensures
            visible(self.entries(), Set::empty()) == newest_first(self.entries()),
    {
        lemma_visible_of_adds(self.entries());
    }

    /// A read after a write: the list returned by `add(key, value)` maps
    /// `key` to `value` and every other key as before.
    pub proof fn lemma_get_after_add(l: Self, key: K, value: V, added: Self)
        requires
            added@ == l@.insert(key, value),
        ensures
            added@.dom().contains(key),
            added@[key] == value,
            forall|k: K|
                k != key ==> (#[trigger] added@.dom().contains(k) == l@.dom().contains(k)) && (l@.dom().contains(
                    k,
                ) ==> added@[k] == l@[k]),
    {
    }

    /// Iterating a list yields every key of its map exactly once, with the
    /// value of the newest entry for it; removed keys are not yielded.
    pub proof fn lemma_iteration(&self)
        ensures
            forall|i: int|
                0 <= i < visible(self.entries(), Set::empty()).len() ==> #[trigger] self@.dom().contains(
                    visible(self.entries(), Set::empty())[i].0,
                ) && self@[visible(self.entries(), Set::empty())[i].0] == visible(
                    self.entries(),
                    Set::empty(),
                )[i].1,
            forall|i: int, j: int|
                0 <= i < j < visible(self.entries(), Set::empty()).len() ==> #[trigger] visible(
                    self.entries(),
                    Set::empty(),
                )[i].0 != #[trigger] visible(self.entries(), Set::empty())[j].0,
            forall|k: K|
                #[trigger] self@.dom().contains(k) ==> exists|i: int|
                    0 <= i < visible(self.entries(), Set::empty()).len() && #[trigger] visible(
                        self.entries(),
                        Set::empty(),
                    )[i].0 == k,
    {
        lemma_visible(self.entries(), Set::empty());
        let out = visible(self.entries(), Set::empty());
        assert forall|i: int| 0 <= i < out.len() implies #[trigger] self@.dom().contains(out[i].0)
            && self@[out[i].0] == out[i].1 by {
            assert(!Set::<K>::empty().contains(out[i].0));
        }
        assert forall|k: K| #[trigger] self@.dom().contains(k) implies exists|i: int|
            0 <= i < out.len() && #[trigger] out[i].0 == k by {
            assert(entries_map(self.entries()).dom().contains(k));
            assert(!Set::<K>::empty().contains(k));
        }
    }
}

} // verus!
