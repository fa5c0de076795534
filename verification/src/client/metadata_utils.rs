//! Interceptors that work on the metadata of calls.

use crate::core_types::RequestHeaders;
use crate::metadata::{entry_views, without_key, MetadataMap};
use vstd::prelude::*;

verus! {

/// `h` after inserting the entries `es` one after the other, each replacing
/// the values of its key.
pub open spec fn insert_all(
    h: Seq<(Seq<char>, Seq<char>)>,
    es: Seq<(Seq<char>, Seq<char>)>,
) -> Seq<(Seq<char>, Seq<char>)>
    decreases es.len(),
{
    if es.len() == 0 {
        h
    } else {
        without_key(insert_all(h, es.drop_last()), es.last().0).push(es.last())
    }
}

/// An interceptor that attaches metadata to outgoing RPC headers.
pub struct AttachHeadersInterceptor {
    md: MetadataMap,
}

impl AttachHeadersInterceptor {
    pub closed spec fn md(&self) -> Seq<(Seq<char>, Seq<char>)> {
        self.md@
    }

    pub fn new(md: MetadataMap) -> (r: Self)
        ensures
            r.md() == md@,
    {
        AttachHeadersInterceptor { md }
    }

    /// Attaches the interceptor's metadata to `headers`: each of its entries
    /// is inserted in turn, replacing the values the headers had for that
    /// key.
    pub fn attach(&self, headers: &mut RequestHeaders)
        ensures
            final(headers).method_name_of() == old(headers).method_name_of(),
            final(headers).metadata_of()@ == insert_all(old(headers).metadata_of()@, self.md()),
    {
        let entries = self.md.entries();
        let md = headers.metadata_mut();
        let ghost h0 = md@;
        let mut i: usize = 0;
        while i < entries.len()
            invariant
                0 <= i <= entries@.len(),
                entry_views(entries@) == self.md(),
                md@ == insert_all(h0, self.md().take(i as int)),
            decreases entries@.len() - i,
        {
            let (k, v) = &entries[i];
            proof {
                let t = self.md().take(i + 1);
                assert(t.drop_last() =~= self.md().take(i as int));
                assert(t.last() == (k@, v@));
            }
            md.insert(k.clone(), v.clone());
            i = i + 1;
        }
        proof {
            assert(self.md().take(entries@.len() as int) =~= self.md());
        }
    }
}

/// The entries of `s` with key `k`, in order.
pub open spec fn with_key(s: Seq<(Seq<char>, Seq<char>)>, k: Seq<char>) -> Seq<(Seq<char>, Seq<char>)> {
    s.filter(|e: (Seq<char>, Seq<char>)| e.0 == k)
}

/// After attaching, every key of the interceptor's metadata has exactly one
/// value in the headers, the last one the interceptor gives for it; the
/// entries of the other keys stay, in order.
pub proof fn lemma_attach_replaces_keys(h: Seq<(Seq<char>, Seq<char>)>, es: Seq<(Seq<char>, Seq<char>)>)
    ensures
        forall|k: Seq<char>|
            (exists|j: int| 0 <= j < es.len() && es[j].0 == k) ==> #[trigger] with_key(insert_all(h, es), k) == seq![es[last_with_key(es, k)]],
        forall|k: Seq<char>|
            !(exists|j: int| 0 <= j < es.len() && es[j].0 == k) ==> #[trigger] with_key(insert_all(h, es), k) == with_key(h, k),
    decreases es.len(),
{
    if es.len() > 0 {
        let p = es.drop_last();
        let l = es.last();
        lemma_attach_replaces_keys(h, p);
        let prev = insert_all(h, p);
        let cur = insert_all(h, es);
        assert forall|k: Seq<char>| #[trigger] with_key(cur, k) == if k == l.0 {
            seq![l]
        } else {
            with_key(prev, k)
        } by {
            lemma_filter_without_key(prev, l.0, k);
            without_key(prev, l.0).lemma_filter_push(l, |e: (Seq<char>, Seq<char>)| e.0 == k);
        }
        assert forall|k: Seq<char>| (exists|j: int| 0 <= j < es.len() && es[j].0 == k) implies #[trigger] with_key(cur, k) == seq![es[last_with_key(es, k)]] by {
            if k == l.0 {
                assert(last_with_key(es, k) == es.len() - 1);
            } else {
                let j = choose|j: int| 0 <= j < es.len() && es[j].0 == k;
                assert(p[j].0 == k);
                assert(last_with_key(es, k) == last_with_key(p, k));
                lemma_last_with_key(p, k);
                assert(es[last_with_key(p, k)] == p[last_with_key(p, k)]);
            }
        }
        assert forall|k: Seq<char>| !(exists|j: int| 0 <= j < es.len() && es[j].0 == k) implies #[trigger] with_key(cur, k) == with_key(h, k) by {
            assert(k != l.0) by {
                assert(es[es.len() - 1].0 == l.0);
            }
            assert(!(exists|j: int| 0 <= j < p.len() && p[j].0 == k)) by {
                if exists|j: int| 0 <= j < p.len() && p[j].0 == k {
                    let j = choose|j: int| 0 <= j < p.len() && p[j].0 == k;
                    assert(es[j].0 == k);
                }
            }
        }
    }
}

/// The index of the last entry of `es` with key `k` (or -1).
pub open spec fn last_with_key(es: Seq<(Seq<char>, Seq<char>)>, k: Seq<char>) -> int
    decreases es.len(),
{
    if es.len() == 0 {
        -1
    } else if es.last().0 == k {
        es.len() - 1
    } else {
        last_with_key(es.drop_last(), k)
    }
}

proof fn lemma_last_with_key(es: Seq<(Seq<char>, Seq<char>)>, k: Seq<char>)
    requires
        exists|j: int| 0 <= j < es.len() && es[j].0 == k,
    ensures
        0 <= last_with_key(es, k) < es.len(),
    decreases es.len(),
{
    if es.last().0 != k {
        let j = choose|j: int| 0 <= j < es.len() && es[j].0 == k;
        assert(es.drop_last()[j].0 == k);
        lemma_last_with_key(es.drop_last(), k);
    }
}

proof fn lemma_filter_without_key(s: Seq<(Seq<char>, Seq<char>)>, key: Seq<char>, k: Seq<char>)
    ensures
        with_key(without_key(s, key), k) == if k == key {
            Seq::<(Seq<char>, Seq<char>)>::empty()
        } else {
            with_key(s, k)
        },
    decreases s.len(),
{
    reveal(Seq::filter);
    if s.len() > 0 {
        let p = s.drop_last();
        let l = s.last();
        lemma_filter_without_key(p, key, k);
        let w = without_key(p, key);
        assert(without_key(s, key) == if l.0 != key {
            w.push(l)
        } else {
            w
        });
        assert(with_key(s, k) == if l.0 == k {
            with_key(p, k).push(l)
        } else {
            with_key(p, k)
        });
        if l.0 != key {
            assert(w.push(l).drop_last() =~= w);
            assert(with_key(w.push(l), k) == if l.0 == k {
                with_key(w, k).push(l)
            } else {
                with_key(w, k)
            });
        }
    }
}

} // verus!
