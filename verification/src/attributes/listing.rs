//! Listings of a map in ascending key order: there is at most one, and
//! taking a pair out, replacing a value or adding a key changes it as
//! expected.

use crate::key_order::key_lt;
use crate::key_order::lemma_key_order;
use crate::key_order::total_key_order;
use vstd::prelude::*;

verus! {

/// `s` lists the pairs of `m` in strictly ascending key order, each once.
pub open spec fn lists_in_order<K: Ord, V>(s: Seq<(K, V)>, m: Map<K, V>) -> bool {
    &&& forall|i: int, j: int| 0 <= i < j < s.len() ==> key_lt(#[trigger] s[i].0, #[trigger] s[j].0)
    &&& forall|i: int| #![trigger s[i]] 0 <= i < s.len() ==> m.dom().contains(s[i].0) && m[s[i].0] == s[i].1
    &&& forall|k: K| #[trigger] m.dom().contains(k) ==> exists|i: int| 0 <= i < s.len() && #[trigger] s[i].0 == k
}

/// Keys ordered strictly apart are different.
proof fn lemma_lt_ne<K: Ord>(a: K, b: K)
    requires
        total_key_order::<K>(),
        key_lt(a, b),
    ensures
        a != b,
{
    lemma_key_order::<K>();
    if a == b {
        assert(key_lt(a, a));
    }
}

/// The pair at `i` of a listing of `m` is a pair of `m`.
proof fn lemma_listing_at<K: Ord, V>(s: Seq<(K, V)>, m: Map<K, V>, i: int)
    requires
        lists_in_order(s, m),
        0 <= i < s.len(),
    ensures
        m.dom().contains(s[i].0),
        m[s[i].0] == s[i].1,
{
}

/// A listing of `m` without its first pair lists `m` without its smallest
/// key.
pub proof fn lemma_listing_drop_first<K: Ord, V>(s: Seq<(K, V)>, m: Map<K, V>)
    requires
        total_key_order::<K>(),
        lists_in_order(s, m),
        s.len() > 0,
    ensures
        lists_in_order(s.drop_first(), m.remove(s[0].0)),
{
    lemma_key_order::<K>();
    let m2 = m.remove(s[0].0);
    let s2 = s.drop_first();
    assert forall|a: int, b: int| 0 <= a < b < s2.len() implies key_lt(#[trigger] s2[a].0, #[trigger] s2[b].0) by {
        assert(s2[a] == s[a + 1] && s2[b] == s[b + 1]);
    }
    assert forall|a: int| 0 <= a < s2.len() implies #[trigger] m2.dom().contains(s2[a].0) && m2[s2[a].0]
        == s2[a].1 by {
        assert(s2[a] == s[a + 1]);
        assert(key_lt(s[0].0, s[a + 1].0));
        lemma_lt_ne(s[0].0, s[a + 1].0);
        lemma_listing_at(s, m, a + 1);
    }
    assert forall|x: K| #[trigger] m2.dom().contains(x) implies exists|a: int|
        0 <= a < s2.len() && #[trigger] s2[a].0 == x by {
        assert(m.dom().contains(x));
        let a = choose|a: int| 0 <= a < s.len() && #[trigger] s[a].0 == x;
        assert(a > 0);
        assert(s2[a - 1] == s[a]);
    }
}

/// A map has at most one listing in ascending key order.
pub proof fn lemma_listing_unique<K: Ord, V>(s: Seq<(K, V)>, t: Seq<(K, V)>, m: Map<K, V>)
    requires
        total_key_order::<K>(),
        lists_in_order(s, m),
        lists_in_order(t, m),
    ensures
        s == t,
    decreases s.len(),
{
    lemma_key_order::<K>();
    if s.len() == 0 {
        if t.len() > 0 {
            assert(m.dom().contains(t[0].0));
        }
        assert(s =~= t);
    } else {
        assert(m.dom().contains(s[0].0));
        assert(t.len() > 0);
        let k = s[0].0;
        let k2 = t[0].0;
        assert(m.dom().contains(k2));
        let i = choose|i: int| 0 <= i < s.len() && #[trigger] s[i].0 == k2;
        let j = choose|j: int| 0 <= j < t.len() && #[trigger] t[j].0 == k;
        if k != k2 {
            assert(i > 0 && j > 0);
            assert(key_lt(s[0].0, s[i].0));
            assert(key_lt(t[0].0, t[j].0));
        }
        let m2 = m.remove(k);
        let s2 = s.drop_first();
        let t2 = t.drop_first();
        lemma_listing_drop_first(s, m);
        lemma_listing_drop_first(t, m);
        lemma_listing_unique(s2, t2, m2);
        assert(s =~= seq![s[0]] + s2);
        assert(t =~= seq![t[0]] + t2);
    }
}

/// Taking the pair at `i` out of a listing of `m` lists `m` without its key.
pub proof fn lemma_listing_remove<K: Ord, V>(s: Seq<(K, V)>, m: Map<K, V>, i: int)
    requires
        total_key_order::<K>(),
        lists_in_order(s, m),
        0 <= i < s.len(),
    ensures
        lists_in_order(s.remove(i), m.remove(s[i].0)),
{
    lemma_key_order::<K>();
    let t = s.remove(i);
    let m2 = m.remove(s[i].0);
    s.remove_ensures(i);
    assert forall|a: int, b: int| 0 <= a < b < t.len() implies key_lt(#[trigger] t[a].0, #[trigger] t[b].0) by {
        if b < i {
            assert(t[a] == s[a] && t[b] == s[b]);
        } else if a < i {
            assert(t[a] == s[a] && t[b] == s[b + 1]);
        } else {
            assert(t[a] == s[a + 1] && t[b] == s[b + 1]);
        }
    }
    assert forall|a: int| 0 <= a < t.len() implies #[trigger] m2.dom().contains(t[a].0) && m2[t[a].0] == t[a].1 by {
        if a < i {
            assert(t[a] == s[a]);
            assert(key_lt(s[a].0, s[i].0));
            lemma_lt_ne(s[a].0, s[i].0);
            lemma_listing_at(s, m, a);
        } else {
            assert(t[a] == s[a + 1]);
            assert(key_lt(s[i].0, s[a + 1].0));
            lemma_lt_ne(s[i].0, s[a + 1].0);
            lemma_listing_at(s, m, a + 1);
        }
    }
    assert forall|x: K| #[trigger] m2.dom().contains(x) implies exists|a: int| 0 <= a < t.len() && #[trigger] t[a].0 == x by {
        assert(m.dom().contains(x));
        let a = choose|a: int| 0 <= a < s.len() && #[trigger] s[a].0 == x;
        if a < i {
            assert(t[a] == s[a]);
        } else {
            assert(a != i);
            assert(t[a - 1] == s[a]);
        }
    }
}

/// Replacing the value of the pair at `i` of a listing of `m` lists `m`
/// with that key mapped to the new value.
pub proof fn lemma_listing_update<K: Ord, V>(s: Seq<(K, V)>, m: Map<K, V>, i: int, v: V)
    requires
        total_key_order::<K>(),
        lists_in_order(s, m),
        0 <= i < s.len(),
    ensures
        lists_in_order(s.update(i, (s[i].0, v)), m.insert(s[i].0, v)),
{
    lemma_key_order::<K>();
    let k = s[i].0;
    let t = s.update(i, (k, v));
    let m2 = m.insert(k, v);
    assert forall|a: int, b: int| 0 <= a < b < t.len() implies key_lt(#[trigger] t[a].0, #[trigger] t[b].0) by {
        assert(key_lt(s[a].0, s[b].0));
    }
    assert forall|a: int| 0 <= a < t.len() implies #[trigger] m2.dom().contains(t[a].0) && m2[t[a].0] == t[a].1 by {
        if a < i {
            assert(key_lt(s[a].0, s[i].0));
            lemma_lt_ne(s[a].0, s[i].0);
            lemma_listing_at(s, m, a);
        } else if a > i {
            assert(key_lt(s[i].0, s[a].0));
            lemma_lt_ne(s[i].0, s[a].0);
            lemma_listing_at(s, m, a);
        }
    }
    assert forall|x: K| #[trigger] m2.dom().contains(x) implies exists|a: int| 0 <= a < t.len() && #[trigger] t[a].0 == x by {
        if x == k {
            assert(t[i].0 == x);
        } else {
            assert(m.dom().contains(x));
            let a = choose|a: int| 0 <= a < s.len() && #[trigger] s[a].0 == x;
            assert(t[a] == s[a]);
        }
    }
}

/// A key that a listing of `m` lacks, inserted at its place in key order,
/// gives a listing of `m` with that key; returns the place.
pub proof fn lemma_listing_insert<K: Ord, V>(s: Seq<(K, V)>, m: Map<K, V>, key: K, v: V) -> (p: int)
    requires
        total_key_order::<K>(),
        lists_in_order(s, m),
        !m.dom().contains(key),
    ensures
        0 <= p <= s.len(),
        lists_in_order(s.insert(p, (key, v)), m.insert(key, v)),
{
    lemma_key_order::<K>();
    assert forall|a: int| 0 <= a < s.len() implies (#[trigger] s[a]).0 != key by {
        assert(m.dom().contains(s[a].0));
    }
    let p = lemma_insertion_point(s, key);
    let t = s.insert(p, (key, v));
    let m2 = m.insert(key, v);
    s.insert_ensures(p, (key, v));
    assert forall|a: int, b: int| 0 <= a < b < t.len() implies key_lt(#[trigger] t[a].0, #[trigger] t[b].0) by {
        if b < p {
            assert(t[a] == s[a] && t[b] == s[b]);
        } else if b == p {
            assert(t[a] == s[a]);
        } else if a < p {
            assert(t[a] == s[a] && t[b] == s[b - 1]);
        } else if a == p {
            assert(t[b] == s[b - 1]);
        } else {
            assert(t[a] == s[a - 1] && t[b] == s[b - 1]);
        }
    }
    assert forall|a: int| 0 <= a < t.len() implies #[trigger] m2.dom().contains(t[a].0) && m2[t[a].0] == t[a].1 by {
        if a < p {
            assert(t[a] == s[a]);
            assert(s[a].0 != key);
            lemma_listing_at(s, m, a);
        } else if a > p {
            assert(t[a] == s[a - 1]);
            assert(s[a - 1].0 != key);
            lemma_listing_at(s, m, a - 1);
        }
    }
    assert forall|x: K| #[trigger] m2.dom().contains(x) implies exists|a: int| 0 <= a < t.len() && #[trigger] t[a].0 == x by {
        if x == key {
            assert(t[p].0 == x);
        } else {
            assert(m.dom().contains(x));
            let a = choose|a: int| 0 <= a < s.len() && #[trigger] s[a].0 == x;
            if a < p {
                assert(t[a] == s[a]);
            } else {
                assert(t[a + 1] == s[a]);
            }
        }
    }
    p
}

/// Where `key` goes in the ascending listing `s`: every key before the
/// position is below it, every key from it on is above it.
pub proof fn lemma_insertion_point<K: Ord, V>(s: Seq<(K, V)>, key: K) -> (p: int)
    requires
        total_key_order::<K>(),
        forall|i: int, j: int| 0 <= i < j < s.len() ==> key_lt(#[trigger] s[i].0, #[trigger] s[j].0),
        forall|i: int| 0 <= i < s.len() ==> (#[trigger] s[i]).0 != key,
    ensures
        0 <= p <= s.len(),
        forall|i: int| 0 <= i < p ==> key_lt(#[trigger] s[i].0, key),
        forall|i: int| p <= i < s.len() ==> key_lt(key, #[trigger] s[i].0),
    decreases s.len(),
{
    lemma_key_order::<K>();
    if s.len() == 0 {
        0
    } else if key_lt(s.last().0, key) {
        assert forall|i: int| 0 <= i < s.len() implies key_lt(#[trigger] s[i].0, key) by {
            if i < s.len() - 1 {
                assert(key_lt(s[i].0, s[s.len() - 1].0));
            }
        }
        s.len() as int
    } else {
        let t = s.drop_last();
        assert forall|i: int, j: int| 0 <= i < j < t.len() implies key_lt(#[trigger] t[i].0, #[trigger] t[j].0) by {
            assert(t[i] == s[i] && t[j] == s[j]);
        }
        assert forall|i: int| 0 <= i < t.len() implies (#[trigger] t[i]).0 != key by {
            assert(t[i] == s[i]);
        }
        let p = lemma_insertion_point(t, key);
        assert(s[s.len() - 1].0 != key);
        assert forall|i: int| 0 <= i < p implies key_lt(#[trigger] s[i].0, key) by {
            assert(t[i] == s[i]);
        }
        assert forall|i: int| p <= i < s.len() implies key_lt(key, #[trigger] s[i].0) by {
            if i < s.len() - 1 {
                assert(t[i] == s[i]);
            }
        }
        p
    }
}

} // verus!
