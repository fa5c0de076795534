//! Metadata: the key/value pairs carried by RPC headers and trailers.

use vstd::prelude::*;

verus! {

/// An ordered collection of metadata entries; a key may occur more than once.
#[derive(Debug)]
pub struct MetadataMap {
    entries: Vec<(String, String)>,
}

impl Clone for MetadataMap {
    /// A copy holding the same entries in the same order.
    fn clone(&self) -> (r: Self)
        ensures
            r@ == self@,
    {
        let mut entries: Vec<(String, String)> = Vec::new();
        let mut i: usize = 0;
        while i < self.entries.len()
            invariant
                i <= self.entries@.len(),
                entries@.len() == i,
                forall|j: int| 0 <= j < i ==> (#[trigger] entries@[j]).0@ == self.entries@[j].0@
                    && entries@[j].1@ == self.entries@[j].1@,
            decreases self.entries@.len() - i,
        {
            let key = self.entries[i].0.clone();
            let value = self.entries[i].1.clone();
            entries.push((key, value));
            i = i + 1;
        }
        let r = MetadataMap { entries };
        proof {
            assert(r@ =~= self@);
        }
        r
    }
}

/// The entries of a map, as key and value character sequences.
pub open spec fn entry_views(v: Seq<(String, String)>) -> Seq<(Seq<char>, Seq<char>)> {
    v.map_values(|e: (String, String)| (e.0@, e.1@))
}

impl View for MetadataMap {
    type V = Seq<(Seq<char>, Seq<char>)>;

    closed spec fn view(&self) -> Seq<(Seq<char>, Seq<char>)> {
        entry_views(self.entries@)
    }
}

/// The entries of `s` whose key is not `k`, in order.
pub open spec fn without_key(s: Seq<(Seq<char>, Seq<char>)>, k: Seq<char>) -> Seq<(Seq<char>, Seq<char>)> {
    s.filter(|e: (Seq<char>, Seq<char>)| e.0 != k)
}

impl Default for MetadataMap {
    fn default() -> (r: Self)
        ensures
            r@ == Seq::<(Seq<char>, Seq<char>)>::empty(),
    {
        let r = MetadataMap { entries: Vec::new() };
        proof {
            assert(r@ =~= Seq::<(Seq<char>, Seq<char>)>::empty());
        }
        r
    }
}

impl MetadataMap {
    /// An empty map.
    pub fn new() -> (r: Self)
        ensures
            r@ == Seq::<(Seq<char>, Seq<char>)>::empty(),
    {
        Self::default()
    }

    /// The number of entries.
    pub fn len(&self) -> (r: usize)
        ensures
            r == self@.len(),
    {
        self.entries.len()
    }

    /// The value of the first entry for `key`.
    pub fn get(&self, key: &str) -> (r: Option<&str>)
        ensures
            match r {
                Some(v) => exists|i: int|
                    0 <= i < self@.len() && self@[i].0 == key@ && self@[i].1 == v@ && forall|j: int|
                        0 <= j < i ==> #[trigger] self@[j].0 != key@,
                None => forall|j: int| 0 <= j < self@.len() ==> #[trigger] self@[j].0 != key@,
            },
    {
        let mut i: usize = 0;
        while i < self.entries.len()
            invariant
                0 <= i <= self.entries@.len(),
                self@ == entry_views(self.entries@),
                forall|j: int| 0 <= j < i ==> #[trigger] self@[j].0 != key@,
            decreases self.entries@.len() - i,
        {
            let same = str_equal(self.entries[i].0.as_str(), key);
            if same {
                proof {
                    assert(self@[i as int] == (self.entries@[i as int].0@, self.entries@[i as int].1@));
                }
                return Some(self.entries[i].1.as_str());
            }
            i = i + 1;
        }
        None
    }

    /// Sets `key` to `value`, removing every earlier entry for `key`; the new
    /// entry goes last.  Returns the value of the first removed entry.
    pub fn insert(&mut self, key: String, value: String) -> (r: Option<String>)
        ensures
            final(self)@ == without_key(old(self)@, key@).push((key@, value@)),
            match r {
                Some(v) => exists|i: int|
                    0 <= i < old(self)@.len() && old(self)@[i].0 == key@ && old(self)@[i].1 == v@
                        && forall|j: int| 0 <= j < i ==> #[trigger] old(self)@[j].0 != key@,
                None => forall|j: int| 0 <= j < old(self)@.len() ==> #[trigger] old(self)@[j].0 != key@,
            },
    {
        let ghost old_view = self@;
        let mut old_entries: Vec<(String, String)> = Vec::new();
        std::mem::swap(&mut old_entries, &mut self.entries);
        let mut kept: Vec<(String, String)> = Vec::new();
        let mut previous: Option<String> = None;
        let mut i: usize = 0;
        while i < old_entries.len()
            invariant
                0 <= i <= old_entries@.len(),
                old_view == entry_views(old_entries@),
                entry_views(kept@) == without_key(old_view.take(i as int), key@),
                match previous {
                    Some(v) => exists|x: int|
                        0 <= x < i && old_view[x].0 == key@ && old_view[x].1 == v@ && forall|j: int|
                            0 <= j < x ==> #[trigger] old_view[j].0 != key@,
                    None => forall|j: int| 0 <= j < i ==> #[trigger] old_view[j].0 != key@,
                },
            decreases old_entries@.len() - i,
        {
            let same = str_equal(old_entries[i].0.as_str(), key.as_str());
            proof {
                assert(old_view.take(i + 1) =~= old_view.take(i as int).push(old_view[i as int]));
                reveal(Seq::filter);
                assert(without_key(old_view.take(i + 1), key@) == if old_view[i as int].0 != key@ {
                    without_key(old_view.take(i as int), key@).push(old_view[i as int])
                } else {
                    without_key(old_view.take(i as int), key@)
                }) by {
                    assert(old_view.take(i + 1).drop_last() =~= old_view.take(i as int));
                }
            }
            if same {
                if previous.is_none() {
                    previous = Some(old_entries[i].1.clone());
                }
            } else {
                let entry = (old_entries[i].0.clone(), old_entries[i].1.clone());
                let ghost before = kept@;
                kept.push(entry);
                proof {
                    assert(entry_views(kept@) =~= entry_views(before).push(old_view[i as int]));
                }
            }
            i = i + 1;
        }
        proof {
            assert(old_view.take(old_entries@.len() as int) =~= old_view);
        }
        let ghost before = kept@;
        kept.push((key, value));
        proof {
            assert(entry_views(kept@) =~= entry_views(before).push((key@, value@)));
        }
        self.entries = kept;
        previous
    }

    /// The entries of the map, in order.
    pub fn entries(&self) -> (r: &Vec<(String, String)>)
        ensures
            entry_views(r@) == self@,
    {
        &self.entries
    }
}

/// Whether two strings hold the same characters.
pub(crate) fn str_equal(a: &str, b: &str) -> (r: bool)
    ensures
        r == (a@ == b@),
{
    let n = a.unicode_len();
    if n != b.unicode_len() {
        return false;
    }
    let mut i: usize = 0;
    while i < n
        invariant
            n == a@.len(),
            n == b@.len(),
            i <= n,
            forall|j: int| 0 <= j < i ==> a@[j] == b@[j],
        decreases n - i,
    {
        if a.get_char(i) != b.get_char(i) {
            return false;
        }
        i = i + 1;
    }
    proof {
        assert(a@ =~= b@);
    }
    true
}

} // verus!
