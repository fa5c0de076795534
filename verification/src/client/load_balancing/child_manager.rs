//! The child manager of parent policies: how its children are matched up
//! when the set of children changes. A child whose identifier stays is
//! kept, with its policy, state and subchannels; a new identifier gets a
//! new child; the children of identifiers that go are dropped.

use vstd::laws_eq::obeys_concrete_eq;
use vstd::prelude::*;

verus! {

/// Where a child comes from after a reset.
#[derive(Debug, Clone, Copy, PartialEq, Eq, Structural)]
pub enum ChildSource {
    /// The old child at this index is kept.
    Existing(usize),
    /// A new child is built.
    New,
}

/// One child after a reset: the position of its entry in the update (the
/// index under which its subchannels and pending work are then filed) and
/// where it comes from.
#[derive(Debug, Clone, Copy)]
pub struct ChildPlanEntry {
    pub position: usize,
    pub source: ChildSource,
}

pub open spec fn entry_view(e: ChildPlanEntry) -> (int, Option<int>) {
    (
        e.position as int,
        match e.source {
            ChildSource::Existing(i) => Some(i as int),
            ChildSource::New => None,
        },
    )
}

pub open spec fn plan_view(s: Seq<ChildPlanEntry>) -> Seq<(int, Option<int>)> {
    s.map_values(|e: ChildPlanEntry| entry_view(e))
}

/// The index of the last occurrence of `k` in `s`, or -1.
pub open spec fn last_index_of<K>(s: Seq<K>, k: K) -> int
    decreases s.len(),
{
    if s.len() == 0 {
        -1
    } else if s.last() == k {
        s.len() - 1
    } else {
        last_index_of(s.drop_last(), k)
    }
}

/// What becomes of an update entry with identifier `k`, the entries before
/// it having identifiers `before`: the first entry with an identifier of an
/// old child takes over that child (the last old one with it); any other
/// entry gets a new child, unless only existing children are retained, in
/// which case it is skipped (`None`).
pub open spec fn plan_entry<K>(old: Seq<K>, before: Seq<K>, k: K, retain_only: bool) -> Option<Option<int>> {
    if old.contains(k) && !before.contains(k) {
        Some(Some(last_index_of(old, k)))
    } else if !retain_only {
        Some(None)
    } else {
        None
    }
}

/// The children after a reset to the identifiers `new`, in order.
pub open spec fn plan_spec<K>(old: Seq<K>, new: Seq<K>, retain_only: bool) -> Seq<(int, Option<int>)>
    decreases new.len(),
{
    if new.len() == 0 {
        Seq::empty()
    } else {
        let prev = plan_spec(old, new.drop_last(), retain_only);
        match plan_entry(old, new.drop_last(), new.last(), retain_only) {
            Some(src) => prev.push((new.len() - 1, src)),
            None => prev,
        }
    }
}

fn contains_before<K: PartialEq>(s: &Vec<K>, n: usize, k: &K) -> (r: bool)
    requires
        obeys_concrete_eq::<K>(),
        n <= s@.len(),
    ensures
        r == s@.take(n as int).contains(*k),
{
    let mut j: usize = 0;
    while j < n
        invariant
            obeys_concrete_eq::<K>(),
            0 <= j <= n <= s@.len(),
            forall|i: int| 0 <= i < j ==> s@[i] != *k,
        decreases n - j,
    {
        proof {
            reveal(obeys_concrete_eq);
        }
        if s[j].eq(k) {
            proof {
                assert(s@.take(n as int)[j as int] == *k);
            }
            return true;
        }
        j = j + 1;
    }
    proof {
        assert forall|i: int| 0 <= i < n implies s@.take(n as int)[i] != *k by {
            assert(s@.take(n as int)[i] == s@[i]);
        }
    }
    false
}

proof fn lemma_last_index_of<K>(s: Seq<K>, k: K)
    ensures
        -1 <= last_index_of(s, k) < s.len(),
        last_index_of(s, k) >= 0 ==> s[last_index_of(s, k)] == k,
        forall|i: int| last_index_of(s, k) < i < s.len() ==> s[i] != k,
        s.contains(k) <==> last_index_of(s, k) >= 0,
    decreases s.len(),
{
    if s.len() > 0 {
        lemma_last_index_of(s.drop_last(), k);
        if s.last() != k {
            assert forall|i: int| last_index_of(s, k) < i < s.len() implies s[i] != k by {
                if i < s.len() - 1 {
                    assert(s.drop_last()[i] == s[i]);
                }
            }
            if s.contains(k) {
                let i = choose|i: int| 0 <= i < s.len() && s[i] == k;
                assert(s.drop_last()[i] == k);
            }
            if last_index_of(s, k) >= 0 {
                assert(s.drop_last()[last_index_of(s, k)] == k);
            }
        } else {
            assert(s[s.len() - 1] == k);
        }
    }
}

fn last_index<K: PartialEq>(s: &Vec<K>, k: &K) -> (r: Option<usize>)
    requires
        obeys_concrete_eq::<K>(),
    ensures
        match r {
            Some(i) => i == last_index_of(s@, *k),
            None => last_index_of(s@, *k) == -1,
        },
{
    proof {
        lemma_last_index_of(s@, *k);
    }
    let mut j: usize = s.len();
    while j > 0
        invariant
            obeys_concrete_eq::<K>(),
            0 <= j <= s@.len(),
            forall|i: int| j <= i < s@.len() ==> s@[i] != *k,
            -1 <= last_index_of(s@, *k) < s@.len(),
            last_index_of(s@, *k) >= 0 ==> s@[last_index_of(s@, *k)] == *k,
            forall|i: int| last_index_of(s@, *k) < i < s@.len() ==> s@[i] != *k,
        decreases j,
    {
        proof {
            reveal(obeys_concrete_eq);
        }
        if s[j - 1].eq(k) {
            return Some(j - 1);
        }
        j = j - 1;
    }
    None
}

/// The children after a reset from the identifiers `old` of the current
/// children to the identifiers `new` of an update: see `plan_entry`.
pub fn plan_children<K: PartialEq>(old: &Vec<K>, new: &Vec<K>, retain_only: bool) -> (r: Vec<
    ChildPlanEntry,
>)
    requires
        obeys_concrete_eq::<K>(),
    ensures
        plan_view(r@) == plan_spec(old@, new@, retain_only),
{
    let mut out: Vec<ChildPlanEntry> = Vec::new();
    let mut j: usize = 0;
    while j < new.len()
        invariant
            obeys_concrete_eq::<K>(),
            0 <= j <= new@.len(),
            plan_view(out@) == plan_spec(old@, new@.take(j as int), retain_only),
        decreases new@.len() - j,
    {
        let k = &new[j];
        proof {
            assert(new@.take(j + 1).drop_last() =~= new@.take(j as int));
            assert(new@.take(j + 1).last() == *k);
        }
        let ghost o = out@;
        let seen = contains_before(new, j, k);
        match last_index(old, k) {
            Some(i) => {
                proof {
                    lemma_last_index_of(old@, *k);
                }
                if !seen {
                    out.push(ChildPlanEntry { position: j, source: ChildSource::Existing(i) });
                } else if !retain_only {
                    out.push(ChildPlanEntry { position: j, source: ChildSource::New });
                }
            },
            None => {
                proof {
                    lemma_last_index_of(old@, *k);
                }
                if !retain_only {
                    out.push(ChildPlanEntry { position: j, source: ChildSource::New });
                }
            },
        }
        proof {
            if out@.len() > o.len() {
                assert(plan_view(out@) =~= plan_view(o).push(entry_view(out@.last())));
            } else {
                assert(out@ == o);
            }
        }
        j = j + 1;
    }
    proof {
        assert(new@.take(new@.len() as int) =~= new@);
    }
    out
}

/// The position under which the old child `old_index` is filed after the
/// reset, if it is kept.
pub fn new_position(plan: &Vec<ChildPlanEntry>, old_index: usize) -> (r: Option<usize>)
    ensures
        match r {
            Some(p) => exists|i: int|
                0 <= i < plan@.len() && plan@[i].source == ChildSource::Existing(old_index) && plan@[i].position
                    == p,
            None => forall|i: int| 0 <= i < plan@.len() ==> plan@[i].source != ChildSource::Existing(old_index),
        },
{
    let mut i: usize = 0;
    while i < plan.len()
        invariant
            0 <= i <= plan@.len(),
            forall|j: int| 0 <= j < i ==> plan@[j].source != ChildSource::Existing(old_index),
        decreases plan@.len() - i,
    {
        if plan[i].source == ChildSource::Existing(old_index) {
            return Some(plan[i].position);
        }
        i = i + 1;
    }
    None
}

proof fn lemma_plan<K>(old: Seq<K>, new: Seq<K>, retain_only: bool)
    ensures
        forall|i: int| 0 <= i < plan_spec(old, new, retain_only).len() ==> {
            let e = #[trigger] plan_spec(old, new, retain_only)[i];
            &&& 0 <= e.0 < new.len()
            &&& e.1 == plan_entry(old, new.take(e.0), new[e.0], retain_only)->0
            &&& plan_entry(old, new.take(e.0), new[e.0], retain_only) is Some
        },
        forall|i: int, j: int|
            0 <= i < j < plan_spec(old, new, retain_only).len() ==> plan_spec(old, new, retain_only)[i].0
                < plan_spec(old, new, retain_only)[j].0,
        forall|p: int|
            0 <= p < new.len() && #[trigger] plan_entry(old, new.take(p), new[p], retain_only) is Some
                ==> exists|i: int|
                0 <= i < plan_spec(old, new, retain_only).len() && #[trigger] plan_spec(old, new, retain_only)[i].0
                    == p,
    decreases new.len(),
{
    if new.len() > 0 {
        let n1 = new.drop_last();
        lemma_plan(old, n1, retain_only);
        let prev = plan_spec(old, n1, retain_only);
        let cur = plan_spec(old, new, retain_only);
        assert forall|p: int| 0 <= p < n1.len() implies n1.take(p) == new.take(p) && n1[p] == new[p] by {
            assert(n1.take(p) =~= new.take(p));
        }
        assert(new.take(new.len() - 1) =~= n1);
        assert forall|i: int| 0 <= i < cur.len() implies {
            let e = #[trigger] cur[i];
            &&& 0 <= e.0 < new.len()
            &&& e.1 == plan_entry(old, new.take(e.0), new[e.0], retain_only)->0
            &&& plan_entry(old, new.take(e.0), new[e.0], retain_only) is Some
        } by {
            if i < prev.len() {
                assert(cur[i] == prev[i]);
            }
        }
        assert forall|i: int, j: int| 0 <= i < j < cur.len() implies cur[i].0 < cur[j].0 by {
            if j < prev.len() {
                assert(cur[i] == prev[i] && cur[j] == prev[j]);
            } else {
                assert(cur[i] == prev[i]);
            }
        }
        assert forall|p: int|
            0 <= p < new.len() && #[trigger] plan_entry(old, new.take(p), new[p], retain_only) is Some implies exists|i: int|
            0 <= i < cur.len() && #[trigger] cur[i].0 == p by {
            if p < n1.len() {
                let i = choose|i: int| 0 <= i < prev.len() && #[trigger] prev[i].0 == p;
                assert(cur[i] == prev[i]);
            } else {
                assert(cur[cur.len() - 1].0 == p);
            }
        }
    }
}

/// A reset keeps the children whose identifiers stay and matches them by
/// identifier: every kept child sits at an entry of the update with its own
/// identifier; no old child is taken over twice; the first entry with the
/// identifier of an old child takes it over; and unless only existing
/// children are retained, every entry of the update has a child, in order.
pub proof fn lemma_reset_matches_by_identifier<K>(old: Seq<K>, new: Seq<K>, retain_only: bool)
    ensures
        forall|i: int|
            0 <= i < plan_spec(old, new, retain_only).len() && (#[trigger] plan_spec(old, new, retain_only)[i]).1
                is Some ==> {
                let e = plan_spec(old, new, retain_only)[i];
                0 <= e.1->0 < old.len() && old[e.1->0] == new[e.0]
            },
        forall|i: int, j: int|
            0 <= i < j < plan_spec(old, new, retain_only).len() && (#[trigger] plan_spec(old, new, retain_only)[i]).1
                is Some && (#[trigger] plan_spec(old, new, retain_only)[j]).1 is Some ==> plan_spec(
                old,
                new,
                retain_only,
            )[i].1 != plan_spec(old, new, retain_only)[j].1,
        forall|p: int|
            0 <= p < new.len() && old.contains(new[p]) && !(#[trigger] new.take(p)).contains(new[p])
                ==> exists|i: int|
                0 <= i < plan_spec(old, new, retain_only).len() && (#[trigger] plan_spec(old, new, retain_only)[i])
                    == (p, Some(last_index_of(old, new[p]))),
        !retain_only ==> plan_spec(old, new, retain_only).len() == new.len() && forall|i: int|
            0 <= i < new.len() ==> (#[trigger] plan_spec(old, new, retain_only)[i]).0 == i,
{
    lemma_plan(old, new, retain_only);
    let plan = plan_spec(old, new, retain_only);
    assert forall|i: int| 0 <= i < plan.len() && (#[trigger] plan[i]).1 is Some implies {
        let e = plan[i];
        0 <= e.1->0 < old.len() && old[e.1->0] == new[e.0]
    } by {
        let e = plan[i];
        lemma_last_index_of(old, new[e.0]);
    }
    assert forall|i: int, j: int|
        0 <= i < j < plan.len() && (#[trigger] plan[i]).1 is Some && (#[trigger] plan[j]).1 is Some implies plan[i].1
        != plan[j].1 by {
        let ei = plan[i];
        let ej = plan[j];
        lemma_last_index_of(old, new[ei.0]);
        lemma_last_index_of(old, new[ej.0]);
        if ei.1 == ej.1 {
            // Both take over the same old child, so they have the same
            // identifier; the later one then saw it before.
            assert(new[ei.0] == new[ej.0]);
            assert(new.take(ej.0)[ei.0] == new[ei.0]);
            assert(new.take(ej.0).contains(new[ej.0]));
        }
    }
    assert forall|p: int| 0 <= p < new.len() && old.contains(new[p]) && !(#[trigger] new.take(p)).contains(new[p]) implies exists|i: int|
        0 <= i < plan.len() && (#[trigger] plan[i]) == (p, Some(last_index_of(old, new[p]))) by {
        assert(plan_entry(old, new.take(p), new[p], retain_only) is Some);
        let i = choose|i: int| 0 <= i < plan.len() && #[trigger] plan[i].0 == p;
        assert(plan[i] == (p, Some(last_index_of(old, new[p]))));
    }
    if !retain_only {
        lemma_plan_len(old, new);
    }
}

/// Which old children a reset keeps: the old child at `oi` is taken over
/// exactly when the update holds its identifier and no later old child has
/// the same identifier; every other old child is dropped.
pub proof fn lemma_reset_keeps_exactly<K>(old: Seq<K>, new: Seq<K>, retain_only: bool, oi: int)
    requires
        0 <= oi < old.len(),
    ensures
        (exists|i: int|
            0 <= i < plan_spec(old, new, retain_only).len() && (#[trigger] plan_spec(old, new, retain_only)[i]).1
                == Some(oi)) <==> (new.contains(old[oi]) && oi == last_index_of(old, old[oi])),
{
    lemma_reset_matches_by_identifier(old, new, retain_only);
    lemma_plan(old, new, retain_only);
    let plan = plan_spec(old, new, retain_only);
    if exists|i: int| 0 <= i < plan.len() && (#[trigger] plan[i]).1 == Some(oi) {
        let i = choose|i: int| 0 <= i < plan.len() && (#[trigger] plan[i]).1 == Some(oi);
        let e = plan[i];
        assert(old[oi] == new[e.0]);
        assert(new.contains(new[e.0]));
        lemma_last_index_of(old, new[e.0]);
    }
    if new.contains(old[oi]) && oi == last_index_of(old, old[oi]) {
        new.index_of_first_ensures(old[oi]);
        let p = new.index_of_first(old[oi])->0;
        assert(!new.take(p).contains(new[p])) by {
            if new.take(p).contains(new[p]) {
                let j = choose|j: int| 0 <= j < new.take(p).len() && new.take(p)[j] == new[p];
                assert(new[j] == new[p]);
            }
        }
        lemma_last_index_of(old, old[oi]);
        assert(old.contains(new[p])) by {
            assert(old[oi] == new[p]);
        }
        let i = choose|i: int| 0 <= i < plan.len() && (#[trigger] plan[i]) == (p, Some(last_index_of(old, new[p])));
        assert(plan[i].1 == Some(oi));
    }
}

proof fn lemma_plan_len<K>(old: Seq<K>, new: Seq<K>)
    ensures
        plan_spec(old, new, false).len() == new.len(),
        forall|i: int| 0 <= i < new.len() ==> (#[trigger] plan_spec(old, new, false)[i]).0 == i,
    decreases new.len(),
{
    if new.len() > 0 {
        lemma_plan_len(old, new.drop_last());
        let prev = plan_spec(old, new.drop_last(), false);
        let cur = plan_spec(old, new, false);
        assert forall|i: int| 0 <= i < new.len() implies (#[trigger] cur[i]).0 == i by {
            if i < prev.len() {
                assert(cur[i] == prev[i]);
            }
        }
    }
}

/// The texts of `s` joined with `sep` between them.
pub open spec fn joined(s: Seq<Seq<char>>, sep: Seq<char>) -> Seq<char>
    decreases s.len(),
{
    if s.len() == 0 {
        Seq::empty()
    } else if s.len() == 1 {
        s[0]
    } else {
        joined(s.drop_last(), sep) + sep + s.last()
    }
}

pub open spec fn texts(s: Seq<String>) -> Seq<Seq<char>> {
    s.map_values(|x: String| x@)
}

/// The outcome of forwarding an update to the children: `Ok` when none
/// refused it, otherwise an error with their messages joined by `"; "`.
pub fn combine_errors(errors: &Vec<String>) -> (r: Result<(), String>)
    ensures
        match r {
            Ok(()) => errors@.len() == 0,
            Err(e) => errors@.len() > 0 && e@ == joined(texts(errors@), "; "@),
        },
{
    if errors.len() == 0 {
        return Ok(());
    }
    let mut out = errors[0].clone();
    let mut i: usize = 1;
    proof {
        assert(texts(errors@).take(1) =~= seq![errors@[0]@]);
    }
    while i < errors.len()
        invariant
            1 <= i <= errors@.len(),
            out@ == joined(texts(errors@).take(i as int), "; "@),
        decreases errors@.len() - i,
    {
        out.append("; ");
        out.append(errors[i].as_str());
        proof {
            let t = texts(errors@).take(i + 1);
            assert(t.drop_last() =~= texts(errors@).take(i as int));
            assert(t.last() == errors@[i as int]@);
        }
        i = i + 1;
    }
    proof {
        assert(texts(errors@).take(errors@.len() as int) =~= texts(errors@));
    }
    Err(out)
}

} // verus!
