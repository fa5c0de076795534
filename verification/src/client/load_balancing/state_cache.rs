//! The last known connectivity state of each subchannel, by address.

use crate::client::name_resolution::Address;
use crate::client::ConnectivityState;
use vstd::prelude::*;

verus! {

/// A map from addresses to connectivity states.
pub struct StateCache {
    entries: Vec<(Address, ConnectivityState)>,
}

spec fn entry_keys(s: Seq<(Address, ConnectivityState)>) -> Seq<(Seq<char>, Seq<char>)> {
    s.map_values(|e: (Address, ConnectivityState)| e.0@)
}

impl View for StateCache {
    type V = Map<(Seq<char>, Seq<char>), ConnectivityState>;

    closed spec fn view(&self) -> Map<(Seq<char>, Seq<char>), ConnectivityState> {
        Map::new(
            |k: (Seq<char>, Seq<char>)| entry_keys(self.entries@).contains(k),
            |k: (Seq<char>, Seq<char>)|
                self.entries@[choose|i: int| 0 <= i < self.entries@.len() && #[trigger] self.entries@[i].0@ == k].1,
        )
    }
}

impl StateCache {
    /// No address occurs twice.
    pub closed spec fn wf(&self) -> bool {
        forall|i: int, j: int|
            0 <= i < j < self.entries@.len() ==> #[trigger] self.entries@[i].0@ != #[trigger] self.entries@[j].0@
    }

    proof fn lemma_lookup(&self, i: int)
        requires
            self.wf(),
            0 <= i < self.entries@.len(),
        ensures
            self@.dom().contains(self.entries@[i].0@),
            self@[self.entries@[i].0@] == self.entries@[i].1,
    {
        let k = self.entries@[i].0@;
        assert(entry_keys(self.entries@)[i] == k);
        let j = choose|j: int| 0 <= j < self.entries@.len() && #[trigger] self.entries@[j].0@ == k;
        if j != i {
            if j < i {
                assert(self.entries@[j].0@ != self.entries@[i].0@);
            } else {
                assert(self.entries@[i].0@ != self.entries@[j].0@);
            }
        }
    }

    /// An empty cache.
    pub fn new() -> (r: Self)
        ensures
            r.wf(),
            r@ == Map::<(Seq<char>, Seq<char>), ConnectivityState>::empty(),
    {
        let r = StateCache { entries: Vec::new() };
        proof {
            assert(r@ =~= Map::<(Seq<char>, Seq<char>), ConnectivityState>::empty());
        }
        r
    }

    fn find(&self, a: &Address) -> (r: Option<usize>)
        requires
            self.wf(),
        ensures
            match r {
                Some(i) => i < self.entries@.len() && self.entries@[i as int].0@ == a@,
                None => !self@.dom().contains(a@),
            },
    {
        let mut i: usize = 0;
        while i < self.entries.len()
            invariant
                0 <= i <= self.entries@.len(),
                forall|j: int| 0 <= j < i ==> self.entries@[j].0@ != a@,
            decreases self.entries@.len() - i,
        {
            if self.entries[i].0.same(a) {
                return Some(i);
            }
            i = i + 1;
        }
        proof {
            if self@.dom().contains(a@) {
                let j = choose|j: int| 0 <= j < entry_keys(self.entries@).len() && entry_keys(self.entries@)[j] == a@;
                assert(self.entries@[j].0@ == a@);
            }
        }
        None
    }

    /// The state cached for `a`.
    pub fn get(&self, a: &Address) -> (r: Option<ConnectivityState>)
        requires
            self.wf(),
        ensures
            match r {
                Some(s) => self@.dom().contains(a@) && self@[a@] == s,
                None => !self@.dom().contains(a@),
            },
    {
        match self.find(a) {
            Some(i) => {
                proof {
                    self.lemma_lookup(i as int);
                }
                Some(self.entries[i].1)
            },
            None => None,
        }
    }

    /// Caches `s` for `a`.
    pub fn insert(&mut self, a: Address, s: ConnectivityState)
        requires
            old(self).wf(),
        ensures
            final(self).wf(),
            final(self)@ == old(self)@.insert(a@, s),
    {
        let ghost old_view = self@;
        match self.find(&a) {
            Some(i) => {
                let ghost k = a@;
                self.entries.set(i, (a, s));
                proof {
                    assert forall|x: int, y: int| 0 <= x < y < self.entries@.len() implies #[trigger] self.entries@[x].0@
                        != #[trigger] self.entries@[y].0@ by {
                        assert(old(self).entries@[x].0@ != old(self).entries@[y].0@);
                    }
                    assert(entry_keys(self.entries@) =~= entry_keys(old(self).entries@));
                    assert(entry_keys(old(self).entries@)[i as int] == k);
                    assert(self@.dom() =~= old_view.insert(k, s).dom());
                    assert forall|key: (Seq<char>, Seq<char>)| #[trigger] self@.dom().contains(key) implies self@[key]
                        == old_view.insert(k, s)[key] by {
                        let j = choose|j: int| 0 <= j < entry_keys(self.entries@).len() && entry_keys(self.entries@)[j] == key;
                        assert(self.entries@[j].0@ == key);
                        self.lemma_lookup(j);
                        if key != k {
                            old(self).lemma_lookup(j);
                        }
                    }
                    assert(self@ =~= old_view.insert(k, s));
                }
            },
            None => {
                let ghost k = a@;
                let ghost before = self.entries@;
                self.entries.push((a, s));
                proof {
                    assert(entry_keys(self.entries@) =~= entry_keys(before).push(k));
                    assert(entry_keys(self.entries@)[before.len() as int] == k);
                    assert forall|key: (Seq<char>, Seq<char>)| #[trigger] self@.dom().contains(key) == old_view.insert(k, s).dom().contains(key) by {
                        if entry_keys(before).contains(key) {
                            let j = choose|j: int| 0 <= j < entry_keys(before).len() && entry_keys(before)[j] == key;
                            assert(entry_keys(self.entries@)[j] == key);
                        }
                        if entry_keys(self.entries@).contains(key) && key != k {
                            let j = choose|j: int| 0 <= j < entry_keys(self.entries@).len() && entry_keys(self.entries@)[j] == key;
                            assert(entry_keys(before)[j] == key);
                        }
                    }
                    assert(self@.dom() =~= old_view.insert(k, s).dom());
                    assert forall|x: int, y: int| 0 <= x < y < self.entries@.len() implies #[trigger] self.entries@[x].0@
                        != #[trigger] self.entries@[y].0@ by {
                        if y == before.len() {
                            assert(entry_keys(before)[x] == before[x].0@);
                        } else {
                            assert(old(self).entries@[x].0@ != old(self).entries@[y].0@);
                        }
                    }
                    assert forall|key: (Seq<char>, Seq<char>)| #[trigger] self@.dom().contains(key) implies self@[key]
                        == old_view.insert(k, s)[key] by {
                        let j = choose|j: int| 0 <= j < entry_keys(self.entries@).len() && entry_keys(self.entries@)[j] == key;
                        assert(self.entries@[j].0@ == key);
                        self.lemma_lookup(j);
                        if key != k {
                            old(self).lemma_lookup(j);
                        }
                    }
                    assert(self@ =~= old_view.insert(k, s));
                }
            },
        }
    }
}

} // verus!
