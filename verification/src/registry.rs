//! Registries of named things (resolver builders by scheme, policies and
//! codecs by name): maps from names to values, with later registrations
//! replacing earlier ones.

use crate::metadata::str_equal;
use vstd::prelude::*;

verus! {

/// A map from names to values.
#[derive(Clone)]
pub struct Registry<V> {
    entries: Vec<(String, V)>,
}

spec fn entry_keys<V>(s: Seq<(String, V)>) -> Seq<Seq<char>> {
    s.map_values(|e: (String, V)| e.0@)
}

impl<V> View for Registry<V> {
    type V = Map<Seq<char>, V>;

    closed spec fn view(&self) -> Map<Seq<char>, V> {
        Map::new(
            |k: Seq<char>| entry_keys(self.entries@).contains(k),
            |k: Seq<char>| self.entries@[choose|i: int| 0 <= i < self.entries@.len() && #[trigger] self.entries@[i].0@ == k].1,
        )
    }
}

impl<V> Registry<V> {
    /// No name occurs twice.
    pub closed spec fn wf(&self) -> bool {
        forall|i: int, j: int|
            0 <= i < j < self.entries@.len() ==> #[trigger] self.entries@[i].0@ != #[trigger] self.entries@[j].0@
    }

    proof fn lemma_lookup(&self, i: int)
        requires
            self.wf(),
            0 <= i < self.entries@.len(),
        ensures
            self@.dom().contains(self.entries@[i].0@),
            self@[self.entries@[i].0@] == self.entries@[i].1,
    {
        let k = self.entries@[i].0@;
        assert(entry_keys(self.entries@)[i] == k);
        let j = choose|j: int| 0 <= j < self.entries@.len() && #[trigger] self.entries@[j].0@ == k;
        if j != i {
            if j < i {
                assert(self.entries@[j].0@ != self.entries@[i].0@);
            } else {
                assert(self.entries@[i].0@ != self.entries@[j].0@);
            }
        }
    }

    /// An empty registry.
    pub fn new() -> (r: Self)
        ensures
            r.wf(),
            r@ == Map::<Seq<char>, V>::empty(),
    {
        let r = Registry { entries: Vec::new() };
        proof {
            assert(r@ =~= Map::<Seq<char>, V>::empty());
        }
        r
    }

    fn find(&self, a: &str) -> (r: Option<usize>)
        requires
            self.wf(),
        ensures
            match r {
                Some(i) => i < self.entries@.len() && self.entries@[i as int].0@ == a@,
                None => !self@.dom().contains(a@),
            },
    {
        let mut i: usize = 0;
        while i < self.entries.len()
            invariant
                0 <= i <= self.entries@.len(),
                forall|j: int| 0 <= j < i ==> self.entries@[j].0@ != a@,
            decreases self.entries@.len() - i,
        {
            if str_equal(self.entries[i].0.as_str(), a) {
                return Some(i);
            }
            i = i + 1;
        }
        proof {
            if self@.dom().contains(a@) {
                let j = choose|j: int| 0 <= j < entry_keys(self.entries@).len() && entry_keys(self.entries@)[j] == a@;
                assert(self.entries@[j].0@ == a@);
            }
        }
        None
    }

    /// The value registered under `a`.
    pub fn get(&self, a: &str) -> (r: Option<&V>)
        requires
            self.wf(),
        ensures
            match r {
                Some(s) => self@.dom().contains(a@) && self@[a@] == *s,
                None => !self@.dom().contains(a@),
            },
    {
        match self.find(a) {
            Some(i) => {
                proof {
                    self.lemma_lookup(i as int);
                }
                Some(&self.entries[i].1)
            },
            None => None,
        }
    }

    /// Registers `s` under `a`, replacing what was registered under it.
    pub fn insert(&mut self, a: String, s: V)
        requires
            old(self).wf(),
        ensures
            final(self).wf(),
            final(self)@ == old(self)@.insert(a@, s),
    {
        let ghost old_view = self@;
        match self.find(a.as_str()) {
            Some(i) => {
                let ghost k = a@;
                self.entries.set(i, (a, s));
                proof {
                    assert forall|x: int, y: int| 0 <= x < y < self.entries@.len() implies #[trigger] self.entries@[x].0@
                        != #[trigger] self.entries@[y].0@ by {
                        assert(old(self).entries@[x].0@ != old(self).entries@[y].0@);
                    }
                    assert(entry_keys(self.entries@) =~= entry_keys(old(self).entries@));
                    assert(entry_keys(old(self).entries@)[i as int] == k);
                    assert(self@.dom() =~= old_view.insert(k, s).dom());
                    assert forall|key: Seq<char>| #[trigger] self@.dom().contains(key) implies self@[key]
                        == old_view.insert(k, s)[key] by {
                        let j = choose|j: int| 0 <= j < entry_keys(self.entries@).len() && entry_keys(self.entries@)[j] == key;
                        assert(self.entries@[j].0@ == key);
                        self.lemma_lookup(j);
                        if key != k {
                            old(self).lemma_lookup(j);
                        }
                    }
                    assert(self@ =~= old_view.insert(k, s));
                }
            },
            None => {
                let ghost k = a@;
                let ghost before = self.entries@;
                self.entries.push((a, s));
                proof {
                    assert(entry_keys(self.entries@) =~= entry_keys(before).push(k));
                    assert(entry_keys(self.entries@)[before.len() as int] == k);
                    assert forall|key: Seq<char>| #[trigger] self@.dom().contains(key) == old_view.insert(k, s).dom().contains(key) by {
                        if entry_keys(before).contains(key) {
                            let j = choose|j: int| 0 <= j < entry_keys(before).len() && entry_keys(before)[j] == key;
                            assert(entry_keys(self.entries@)[j] == key);
                        }
                        if entry_keys(self.entries@).contains(key) && key != k {
                            let j = choose|j: int| 0 <= j < entry_keys(self.entries@).len() && entry_keys(self.entries@)[j] == key;
                            assert(entry_keys(before)[j] == key);
                        }
                    }
                    assert(self@.dom() =~= old_view.insert(k, s).dom());
                    assert forall|x: int, y: int| 0 <= x < y < self.entries@.len() implies #[trigger] self.entries@[x].0@
                        != #[trigger] self.entries@[y].0@ by {
                        if y == before.len() {
                            assert(entry_keys(before)[x] == before[x].0@);
                        } else {
                            assert(old(self).entries@[x].0@ != old(self).entries@[y].0@);
                        }
                    }
                    assert forall|key: Seq<char>| #[trigger] self@.dom().contains(key) implies self@[key]
                        == old_view.insert(k, s)[key] by {
                        let j = choose|j: int| 0 <= j < entry_keys(self.entries@).len() && entry_keys(self.entries@)[j] == key;
                        assert(self.entries@[j].0@ == key);
                        self.lemma_lookup(j);
                        if key != k {
                            old(self).lemma_lookup(j);
                        }
                    }
                    assert(self@ =~= old_view.insert(k, s));
                }
            },
        }
    }
}

/// Whether `s` holds an ASCII uppercase letter.
pub open spec fn has_ascii_uppercase(s: Seq<char>) -> bool {
    exists|i: int| 0 <= i < s.len() && 'A' <= #[trigger] s[i] <= 'Z'
}

fn contains_ascii_uppercase(s: &str) -> (r: bool)
    ensures
        r == has_ascii_uppercase(s@),
{
    let n = s.unicode_len();
    let mut i: usize = 0;
    while i < n
        invariant
            n == s@.len(),
            0 <= i <= n,
            forall|j: int| 0 <= j < i ==> !('A' <= #[trigger] s@[j] <= 'Z'),
        decreases n - i,
    {
        let c = s.get_char(i);
        if 'A' <= c && c <= 'Z' {
            return true;
        }
        i = i + 1;
    }
    false
}

/// What `str::to_lowercase` makes of `s`.
pub uninterp spec fn lowercased(s: Seq<char>) -> Seq<char>;

/// Calls `str::to_lowercase`. Claimed: the result depends on `s` alone.
#[verifier::external_body]
fn to_lowercase(s: &str) -> (r: String)
    ensures
        r@ == lowercased(s@),
{
    s.to_lowercase()
}

/// The error for a scheme with uppercase letters.
pub open spec fn uppercase_scheme_error(scheme: Seq<char>) -> Seq<char> {
    "Scheme must not contain uppercase characters: "@ + scheme
}

impl<V> Registry<V> {
    /// Registers a resolver builder under `scheme`, replacing any builder of
    /// that scheme; a scheme with ASCII uppercase letters is refused.
    pub fn try_add_builder(&mut self, scheme: &str, builder: V) -> (r: Result<(), String>)
        requires
            old(self).wf(),
        ensures
            final(self).wf(),
            match r {
                Ok(()) => !has_ascii_uppercase(scheme@) && final(self)@ == old(self)@.insert(scheme@, builder),
                Err(e) => has_ascii_uppercase(scheme@) && e@ == uppercase_scheme_error(scheme@) && final(self)@
                    == old(self)@,
            },
    {
        if contains_ascii_uppercase(scheme) {
            let mut msg = String::from_str("Scheme must not contain uppercase characters: ");
            msg.append(scheme);
            return Err(msg);
        }
        self.insert(String::from_str(scheme), builder);
        Ok(())
    }

    /// The resolver builder of `scheme`, looked up in lower case.
    pub fn get_scheme(&self, scheme: &str) -> (r: Option<&V>)
        requires
            self.wf(),
        ensures
            match r {
                Some(b) => self@.dom().contains(lowercased(scheme@)) && self@[lowercased(scheme@)] == *b,
                None => !self@.dom().contains(lowercased(scheme@)),
            },
    {
        let lower = to_lowercase(scheme);
        self.get(lower.as_str())
    }
}

} // verus!
