//! Properties of the pick-first policy that hold across all its operations.

use crate::client::load_balancing::pick_first::{
    address_order, bump, dedup, first_viable, in_pass, interleave, is_ipv6, pf_inv, spec_apply_addresses,
    spec_resolver_error, spec_set_failure, spec_start_pass, spec_subchannel_update, spec_trigger,
    spec_update_endpoints, spec_work, ActionView, PfView, StepView,
};
use crate::client::ConnectivityState;
use vstd::prelude::*;

verus! {

/// The address an action asks to connect to, if it is a connection request.
pub open spec fn connect_target(a: ActionView) -> Option<(Seq<char>, Seq<char>)> {
    match a {
        ActionView::Connect(x) => Some(x),
        _ => None,
    }
}

/// The connectivity state a published picker stands for, if the action
/// publishes one.
pub open spec fn picker_state(a: ActionView) -> Option<ConnectivityState> {
    match a {
        ActionView::PickQueuing => Some(ConnectivityState::Connecting),
        ActionView::PickFailing(_) => Some(ConnectivityState::TransientFailure),
        ActionView::PickReady(_) => Some(ConnectivityState::Ready),
        ActionView::PickIdle => Some(ConnectivityState::Idle),
        _ => None,
    }
}

/// Whether `a` is known to be in transient failure in `v`.
pub open spec fn known_failed(v: PfView, a: (Seq<char>, Seq<char>)) -> bool {
    v.states.dom().contains(a) && v.states[a] == ConnectivityState::TransientFailure
}

/// No connection is requested to an address known to be in transient
/// failure after the step.
pub open spec fn connects_only_viable(after: PfView, acts: Seq<ActionView>) -> bool {
    forall|i: int|
        0 <= i < acts.len() && (#[trigger] connect_target(acts[i])) is Some ==> !known_failed(
            after,
            connect_target(acts[i])->0,
        )
}

/// Every failing picker is followed at once by a request for re-resolution.
pub open spec fn failure_requests_resolution(acts: Seq<ActionView>) -> bool {
    forall|i: int|
        0 <= i < acts.len() && (#[trigger] acts[i]) is PickFailing ==> i + 1 < acts.len() && acts[i + 1]
            is RequestResolution
}

/// Every picker published agrees with the state the policy reports after
/// the step, and a ready picker sends RPCs to the selected subchannel, the
/// only one left.
pub open spec fn pickers_agree(after: PfView, acts: Seq<ActionView>) -> bool {
    &&& forall|i: int|
        0 <= i < acts.len() && (#[trigger] picker_state(acts[i])) is Some ==> picker_state(acts[i])
            == Some(after.cs)
    &&& forall|i: int|
        0 <= i < acts.len() && (#[trigger] acts[i]) is PickReady ==> after.selected == Some(
            acts[i]->PickReady_0,
        ) && after.subchannels == seq![acts[i]->PickReady_0]
}

/// The properties every step of the policy keeps.
pub open spec fn well_behaved(step: (PfView, Seq<ActionView>)) -> bool {
    &&& connects_only_viable(step.0, step.1)
    &&& failure_requests_resolution(step.1)
    &&& pickers_agree(step.0, step.1)
}

/// What `first_viable` finds: an index at or after `from` whose subchannel
/// is not known to have failed, all those before it (from `from` on) being
/// known to have failed.
proof fn lemma_first_viable(
    subs: Seq<(Seq<char>, Seq<char>)>,
    states: Map<(Seq<char>, Seq<char>), ConnectivityState>,
    from: int,
)
    requires
        0 <= from,
    ensures
        from <= first_viable(subs, states, from),
        first_viable(subs, states, from) < subs.len() ==> !(states.dom().contains(
            subs[first_viable(subs, states, from)],
        ) && states[subs[first_viable(subs, states, from)]] == ConnectivityState::TransientFailure),
    decreases subs.len() - from,
{
    if from < subs.len() && states.dom().contains(subs[from]) && states[subs[from]]
        == ConnectivityState::TransientFailure {
        lemma_first_viable(subs, states, from + 1);
    }
}

proof fn lemma_set_failure(v: PfView, e: Seq<char>)
    ensures
        well_behaved(spec_set_failure(v, e)),
{
    let acts = spec_set_failure(v, e).1;
    assert(picker_state(acts[0]) == Some(ConnectivityState::TransientFailure));
    assert(picker_state(acts[1]) is None);
}

proof fn lemma_trigger(v: PfView)
    requires
        0 <= v.frontier < v.subchannels.len(),
        !known_failed(v, v.subchannels[v.frontier]),
    ensures
        well_behaved(spec_trigger(v)),
{
    let acts = spec_trigger(v).1;
    assert(connect_target(acts[1]) is None);
    assert(picker_state(acts[0]) is None);
    assert(picker_state(acts[1]) is None);
}

proof fn lemma_start_pass(v: PfView)
    ensures
        well_behaved(spec_start_pass(v)),
{
    let v1 = PfView { selected: None, ..v };
    let f = first_viable(v1.subchannels, v1.states, 0);
    let v2 = PfView { frontier: f, ..v1 };
    lemma_first_viable(v1.subchannels, v1.states, 0);
    if f < v2.subchannels.len() {
        lemma_trigger(v2);
        let acts = spec_start_pass(v).1;
        let t = spec_trigger(v2).1;
        assert(acts == t.push(ActionView::PickQueuing));
        assert forall|i: int| 0 <= i < acts.len() && (#[trigger] connect_target(acts[i])) is Some implies !known_failed(
            spec_start_pass(v).0,
            connect_target(acts[i])->0,
        ) by {
            assert(i < t.len());
            assert(acts[i] == t[i]);
        }
        assert forall|i: int| 0 <= i < acts.len() && (#[trigger] picker_state(acts[i])) is Some implies picker_state(
            acts[i],
        ) == Some(spec_start_pass(v).0.cs) by {
            if i < t.len() {
                assert(acts[i] == t[i]);
            }
        }
        assert forall|i: int| 0 <= i < acts.len() && (#[trigger] acts[i]) is PickFailing implies i + 1
            < acts.len() && acts[i + 1] is RequestResolution by {
            if i < t.len() {
                assert(acts[i] == t[i]);
            }
        }
        assert forall|i: int| 0 <= i < acts.len() && (#[trigger] acts[i]) is PickReady implies spec_start_pass(
            v,
        ).0.selected == Some(acts[i]->PickReady_0) && spec_start_pass(v).0.subchannels == seq![
            acts[i]->PickReady_0,
        ] by {
            if i < t.len() {
                assert(acts[i] == t[i]);
            }
        }
    } else {
        lemma_set_failure(v2, match v2.connection_error {
            Some(e) => e,
            None => "all addresses in transient failure"@,
        });
    }
}

/// Whether `acts` is `p + q` with both well behaved after `after`.
proof fn lemma_concat(after: PfView, p: Seq<ActionView>, q: Seq<ActionView>)
    requires
        connects_only_viable(after, p),
        connects_only_viable(after, q),
        failure_requests_resolution(p),
        failure_requests_resolution(q),
        pickers_agree(after, p),
        pickers_agree(after, q),
    ensures
        well_behaved((after, p + q)),
{
    let acts = p + q;
    assert forall|i: int| 0 <= i < acts.len() && (#[trigger] connect_target(acts[i])) is Some implies !known_failed(
        after,
        connect_target(acts[i])->0,
    ) by {
        if i < p.len() {
            assert(acts[i] == p[i]);
        } else {
            assert(acts[i] == q[i - p.len()]);
        }
    }
    assert forall|i: int| 0 <= i < acts.len() && (#[trigger] acts[i]) is PickFailing implies i + 1
        < acts.len() && acts[i + 1] is RequestResolution by {
        if i < p.len() {
            assert(acts[i] == p[i]);
            assert(acts[i + 1] == p[i + 1]);
        } else {
            assert(acts[i] == q[i - p.len()]);
            assert(acts[i + 1] == q[i + 1 - p.len()]);
        }
    }
    assert forall|i: int| 0 <= i < acts.len() && (#[trigger] picker_state(acts[i])) is Some implies picker_state(
        acts[i],
    ) == Some(after.cs) by {
        if i < p.len() {
            assert(acts[i] == p[i]);
        } else {
            assert(acts[i] == q[i - p.len()]);
        }
    }
    assert forall|i: int| 0 <= i < acts.len() && (#[trigger] acts[i]) is PickReady implies after.selected
        == Some(acts[i]->PickReady_0) && after.subchannels == seq![acts[i]->PickReady_0] by {
        if i < p.len() {
            assert(acts[i] == p[i]);
        } else {
            assert(acts[i] == q[i - p.len()]);
        }
    }
}

/// Every step of pick-first is well behaved: it never asks to connect to an
/// address known to be in transient failure, every failing picker it
/// publishes comes with a request for re-resolution, and every picker it
/// publishes agrees with the state it reports (a ready picker naming the
/// selected subchannel, then the only one).
pub proof fn lemma_steps_well_behaved(
    v: PfView,
    a: (Seq<char>, Seq<char>),
    st: ConnectivityState,
    err: Option<Seq<char>>,
    timer_expired: bool,
)
    requires
        pf_inv(v),
    ensures
        well_behaved(spec_start_pass(v)),
        well_behaved(spec_work(v, timer_expired)),
        well_behaved(spec_subchannel_update(v, a, st, err)),
{
    lemma_start_pass(v);
    lemma_work(v, timer_expired);
    lemma_subchannel_update(v, a, st, err);
}

proof fn lemma_work(v: PfView, timer_expired: bool)
    requires
        pf_inv(v),
    ensures
        well_behaved(spec_work(v, timer_expired)),
{
    if v.cs == ConnectivityState::Idle {
        lemma_start_pass(v);
    } else if v.cs == ConnectivityState::Connecting && timer_expired {
        let f = first_viable(v.subchannels, v.states, bump(v.frontier));
        lemma_first_viable(v.subchannels, v.states, bump(v.frontier));
        let v1 = PfView { frontier: f, ..v };
        if f < v1.subchannels.len() {
            lemma_trigger(v1);
        }
    }
}

proof fn lemma_subchannel_update(
    v: PfView,
    a: (Seq<char>, Seq<char>),
    st: ConnectivityState,
    err: Option<Seq<char>>,
)
    requires
        pf_inv(v),
    ensures
        well_behaved(spec_subchannel_update(v, a, st, err)),
{
    let v1 = PfView { states: v.states.insert(a, st), ..v };
    let r = spec_subchannel_update(v, a, st, err);
    if v1.selected == Some(a) {
        if st != ConnectivityState::Ready {
            assert(picker_state(r.1[0]) == Some(ConnectivityState::Idle));
        }
    } else {
        let a1: Seq<ActionView> = if v1.steady is Some && st == ConnectivityState::Idle {
            seq![ActionView::Connect(a)]
        } else {
            Seq::empty()
        };
        let (v2, a2) = match v1.steady {
            Some(c) => if st == ConnectivityState::TransientFailure {
                if c + 1 >= v1.subchannels.len() {
                    (PfView { steady: Some(0), ..v1 }, seq![ActionView::RequestResolution])
                } else {
                    (PfView { steady: Some(c + 1), ..v1 }, Seq::<ActionView>::empty())
                }
            } else {
                (v1, Seq::<ActionView>::empty())
            },
            None => (v1, Seq::<ActionView>::empty()),
        };
        let a12 = a1 + a2;
        // The steady-state prefix only connects the reporting (idle) address
        // and publishes no picker.
        assert forall|i: int| 0 <= i < a12.len() implies (#[trigger] picker_state(a12[i])) is None
            && !(a12[i] is PickFailing) && !(a12[i] is PickReady) && (connect_target(a12[i]) is Some
            ==> connect_target(a12[i]) == Some(a) && st == ConnectivityState::Idle) by {
            if i < a1.len() {
                assert(a12[i] == a1[i]);
            } else {
                assert(a12[i] == a2[i - a1.len()]);
            }
        }
        if st == ConnectivityState::Ready && in_pass(v2.subchannels, v2.frontier, a) {
            let after = r.0;
            let tail = seq![ActionView::CancelTimer, ActionView::PickReady(a)];
            assert(picker_state(tail[0]) is None);
            assert(connect_target(tail[0]) is None);
            assert(connect_target(tail[1]) is None);
            assert(after.states == v1.states);
            lemma_concat(after, a12, tail);
            assert(r.1 == a12 + tail);
        } else if 0 <= v2.frontier < v2.subchannels.len() && v2.subchannels[v2.frontier] == a && st
            == ConnectivityState::TransientFailure {
            let f = first_viable(v2.subchannels, v2.states, bump(v2.frontier));
            lemma_first_viable(v2.subchannels, v2.states, bump(v2.frontier));
            let v3 = PfView { frontier: f, ..v2 };
            if f < v3.subchannels.len() {
                lemma_trigger(v3);
                let (v4, a4) = spec_trigger(v3);
                lemma_concat(v4, a12, a4);
                assert(r.1 == a12 + a4);
            } else {
                let e = match err {
                    Some(e) => e,
                    None => "all addresses failed"@,
                };
                let (v5, a5) = spec_set_failure(PfView { connection_error: Some(e), ..v3 }, e);
                lemma_set_failure(PfView { connection_error: Some(e), ..v3 }, e);
                let after = PfView { steady: Some(0), ..v5 };
                assert(r.0 == after);
                assert(picker_state(a5[0]) == Some(ConnectivityState::TransientFailure));
                assert(picker_state(a5[1]) is None);
                lemma_concat(after, a12, a5);
                assert(r.1 == a12 + a5);
            }
        } else {
            lemma_concat(v2, a12, Seq::empty());
            assert(r.1 == a12 + Seq::<ActionView>::empty());
        }
    }
}


/// A resolver step is well behaved, and a refused update is answered with a
/// failing picker that carries the refusal's error, then a request for
/// re-resolution, the policy then being in transient failure.
pub open spec fn resolver_step_ok(step: (PfView, StepView)) -> bool {
    match step.1 {
        StepView::Done(acts, res) => {
            &&& well_behaved((step.0, acts))
            &&& (res matches Err(e) ==> acts == seq![
                ActionView::PickFailing(e),
                ActionView::RequestResolution,
            ] && step.0.cs == ConnectivityState::TransientFailure)
        },
        StepView::Addresses(_) => true,
    }
}

/// The resolver-side steps of pick-first are well behaved too; a refused
/// update (no address at all, or an error while there is no subchannel or
/// the policy already fails) is answered with a failing picker carrying the
/// same error and a request for re-resolution.
pub proof fn lemma_resolver_steps_well_behaved(
    v: PfView,
    eps: Seq<Seq<(Seq<char>, Seq<char>)>>,
    e: Seq<char>,
    new: Seq<(Seq<char>, Seq<char>)>,
    created: Map<(Seq<char>, Seq<char>), ConnectivityState>,
)
    ensures
        resolver_step_ok(spec_update_endpoints(v, eps)),
        resolver_step_ok(spec_resolver_error(v, e)),
        well_behaved(spec_apply_addresses(v, new, created)),
{
    let v0 = PfView { steady: None, ..v };
    if address_order(eps).len() == 0 {
        let err = match v0.resolver_error {
            Some(x) => x,
            None => "empty address list"@,
        };
        lemma_set_failure(PfView { subchannels: Seq::empty(), selected: None, ..v0 }, err);
    }
    lemma_set_failure(PfView { steady: None, resolver_error: Some(e), ..v }, e);
    assert(well_behaved((PfView { steady: None, resolver_error: Some(e), ..v }, Seq::<ActionView>::empty())));
    let sticky = match v.selected {
        Some(s) => new.contains(s),
        None => false,
    };
    if !sticky {
        lemma_start_pass(PfView { subchannels: new, states: spec_apply_addresses(v, new, created).0.states, ..v });
    } else {
        assert(well_behaved((spec_apply_addresses(v, new, created).0, Seq::<ActionView>::empty())));
    }
}

/// A resolver update whose addresses still include the selected one keeps
/// the selection and the reported state, and publishes nothing.
pub proof fn lemma_sticky_update(
    v: PfView,
    new: Seq<(Seq<char>, Seq<char>)>,
    created: Map<(Seq<char>, Seq<char>), ConnectivityState>,
)
    requires
        v.selected is Some,
        new.contains(v.selected->0),
    ensures
        spec_apply_addresses(v, new, created).1 == Seq::<ActionView>::empty(),
        spec_apply_addresses(v, new, created).0.selected == v.selected,
        spec_apply_addresses(v, new, created).0.cs == v.cs,
        spec_apply_addresses(v, new, created).0.subchannels == new,
{
}

/// The policy never keeps a selection the resolver no longer lists: after
/// new addresses are applied, a selected address is one of them; when the
/// old selection is gone, the selection is dropped and the policy no
/// longer reports `Ready`, starting a new pass over the new addresses.
pub proof fn lemma_selection_stays_listed(
    v: PfView,
    new: Seq<(Seq<char>, Seq<char>)>,
    created: Map<(Seq<char>, Seq<char>), ConnectivityState>,
)
    ensures
        spec_apply_addresses(v, new, created).0.selected is Some ==> new.contains(
            spec_apply_addresses(v, new, created).0.selected->0,
        ),
        v.selected is Some && !new.contains(v.selected->0) ==> spec_apply_addresses(v, new, created).0.selected
            is None && spec_apply_addresses(v, new, created).0.cs != ConnectivityState::Ready
            && spec_apply_addresses(v, new, created).1.len() > 0,
        spec_apply_addresses(v, new, created).0.subchannels == new,
{
}

/// A resolver error is refused, with a failing picker carrying it and a
/// request for re-resolution, exactly when the policy has nothing to serve
/// with: no subchannel, or a failure already reported. Then the policy
/// reports transient failure. Otherwise the error is only remembered: the
/// update is accepted, nothing is published and the state stays.
pub proof fn lemma_resolver_error_refusal(v: PfView, e: Seq<char>)
    ensures
        (v.subchannels.len() == 0 || v.cs == ConnectivityState::TransientFailure) ==> spec_resolver_error(v, e).1
            == StepView::Done(seq![ActionView::PickFailing(e), ActionView::RequestResolution], Err(e))
            && spec_resolver_error(v, e).0.cs == ConnectivityState::TransientFailure,
        !(v.subchannels.len() == 0 || v.cs == ConnectivityState::TransientFailure) ==> spec_resolver_error(v, e).1
            == StepView::Done(Seq::<ActionView>::empty(), Ok(())) && spec_resolver_error(v, e).0.cs == v.cs,
        spec_resolver_error(v, e).0.resolver_error == Some(e),
{
}

proof fn lemma_dedup<A>(s: Seq<A>)
    ensures
        dedup(s).no_duplicates(),
        forall|x: A| dedup(s).contains(x) <==> s.contains(x),
    decreases s.len(),
{
    if s.len() > 0 {
        let r = s.drop_last();
        let l = s.last();
        let d = dedup(r);
        lemma_dedup(r);
        assert(s =~= r.push(l));
        assert forall|x: A| s.contains(x) <==> (r.contains(x) || x == l) by {
            if s.contains(x) {
                let i = choose|i: int| 0 <= i < s.len() && s[i] == x;
                if i < r.len() {
                    assert(r[i] == x);
                }
            }
            if r.contains(x) {
                let i = choose|i: int| 0 <= i < r.len() && r[i] == x;
                assert(s[i] == x);
            }
            if x == l {
                assert(s[s.len() - 1] == x);
            }
        }
        if !d.contains(l) {
            let e = d.push(l);
            assert forall|x: A| e.contains(x) <==> (d.contains(x) || x == l) by {
                if e.contains(x) {
                    let i = choose|i: int| 0 <= i < e.len() && e[i] == x;
                    if i < d.len() {
                        assert(d[i] == x);
                    }
                }
                if d.contains(x) {
                    let i = choose|i: int| 0 <= i < d.len() && d[i] == x;
                    assert(e[i] == x);
                }
                if x == l {
                    assert(e[d.len() as int] == x);
                }
            }
            assert forall|i: int, j: int| 0 <= i < e.len() && 0 <= j < e.len() && i != j implies e[i] != e[j] by {
                if i < d.len() && j < d.len() {
                } else if i < d.len() {
                    assert(d.contains(e[i]));
                } else if j < d.len() {
                    assert(d.contains(e[j]));
                }
            }
        }
    }
}

proof fn lemma_filter_unique<A>(s: Seq<A>, p: spec_fn(A) -> bool)
    requires
        s.no_duplicates(),
    ensures
        s.filter(p).no_duplicates(),
        forall|x: A| s.filter(p).contains(x) <==> (s.contains(x) && p(x)),
    decreases s.len(),
{
    if s.len() > 0 {
        let r = s.drop_last();
        let l = s.last();
        assert(s =~= r.push(l));
        assert(r.no_duplicates()) by {
            assert forall|i: int, j: int| 0 <= i < r.len() && 0 <= j < r.len() && i != j implies r[i] != r[j] by {
                assert(s[i] == r[i] && s[j] == r[j]);
            }
        }
        lemma_filter_unique(r, p);
        r.lemma_filter_push(l, p);
        assert(!r.contains(l)) by {
            if r.contains(l) {
                let i = choose|i: int| 0 <= i < r.len() && r[i] == l;
                assert(s[i] == s[s.len() - 1]);
            }
        }
        assert forall|x: A| s.contains(x) <==> (r.contains(x) || x == l) by {
            if s.contains(x) {
                let i = choose|i: int| 0 <= i < s.len() && s[i] == x;
                if i < r.len() {
                    assert(r[i] == x);
                }
            }
            if r.contains(x) {
                let i = choose|i: int| 0 <= i < r.len() && r[i] == x;
                assert(s[i] == x);
            }
            if x == l {
                assert(s[s.len() - 1] == x);
            }
        }
        let f = r.filter(p);
        if p(l) {
            let e = f.push(l);
            assert(s.filter(p) == e);
            assert forall|x: A| e.contains(x) <==> (f.contains(x) || x == l) by {
                if e.contains(x) {
                    let i = choose|i: int| 0 <= i < e.len() && e[i] == x;
                    if i < f.len() {
                        assert(f[i] == x);
                    }
                }
                if f.contains(x) {
                    let i = choose|i: int| 0 <= i < f.len() && f[i] == x;
                    assert(e[i] == x);
                }
                if x == l {
                    assert(e[f.len() as int] == x);
                }
            }
            assert forall|i: int, j: int| 0 <= i < e.len() && 0 <= j < e.len() && i != j implies e[i] != e[j] by {
                if i < f.len() && j < f.len() {
                } else if i < f.len() {
                    assert(f.contains(e[i]));
                } else if j < f.len() {
                    assert(f.contains(e[j]));
                }
            }
        }
    }
}

proof fn lemma_interleave<A>(a: Seq<A>, b: Seq<A>)
    ensures
        forall|x: A| interleave(a, b).contains(x) <==> (a.contains(x) || b.contains(x)),
        a.no_duplicates() && b.no_duplicates() && (forall|i: int, j: int|
            0 <= i < a.len() && 0 <= j < b.len() ==> a[i] != b[j]) ==> interleave(a, b).no_duplicates(),
    decreases a.len(),
{
    if a.len() > 0 && b.len() > 0 {
        let a1 = a.drop_first();
        let b1 = b.drop_first();
        let rest = interleave(a1, b1);
        let head = seq![a[0], b[0]];
        lemma_interleave(a1, b1);
        assert(interleave(a, b) == head + rest);
        assert forall|x: A| a.contains(x) <==> (x == a[0] || a1.contains(x)) by {
            if a.contains(x) {
                let i = choose|i: int| 0 <= i < a.len() && a[i] == x;
                if i > 0 {
                    assert(a1[i - 1] == x);
                }
            }
            if a1.contains(x) {
                let i = choose|i: int| 0 <= i < a1.len() && a1[i] == x;
                assert(a[i + 1] == x);
            }
        }
        assert forall|x: A| b.contains(x) <==> (x == b[0] || b1.contains(x)) by {
            if b.contains(x) {
                let i = choose|i: int| 0 <= i < b.len() && b[i] == x;
                if i > 0 {
                    assert(b1[i - 1] == x);
                }
            }
            if b1.contains(x) {
                let i = choose|i: int| 0 <= i < b1.len() && b1[i] == x;
                assert(b[i + 1] == x);
            }
        }
        assert forall|x: A| (head + rest).contains(x) <==> (x == a[0] || x == b[0] || rest.contains(x)) by {
            let c = head + rest;
            if c.contains(x) {
                let i = choose|i: int| 0 <= i < c.len() && c[i] == x;
                if i >= 2 {
                    assert(rest[i - 2] == x);
                }
            }
            if rest.contains(x) {
                let i = choose|i: int| 0 <= i < rest.len() && rest[i] == x;
                assert(c[i + 2] == x);
            }
            if x == a[0] {
                assert(c[0] == x);
            }
            if x == b[0] {
                assert(c[1] == x);
            }
        }
        if a.no_duplicates() && b.no_duplicates() && (forall|i: int, j: int|
            0 <= i < a.len() && 0 <= j < b.len() ==> a[i] != b[j]) {
            assert(a1.no_duplicates()) by {
                assert forall|i: int, j: int| 0 <= i < a1.len() && 0 <= j < a1.len() && i != j implies a1[i] != a1[j] by {
                    assert(a[i + 1] == a1[i] && a[j + 1] == a1[j]);
                }
            }
            assert(b1.no_duplicates()) by {
                assert forall|i: int, j: int| 0 <= i < b1.len() && 0 <= j < b1.len() && i != j implies b1[i] != b1[j] by {
                    assert(b[i + 1] == b1[i] && b[j + 1] == b1[j]);
                }
            }
            assert forall|i: int, j: int| 0 <= i < a1.len() && 0 <= j < b1.len() implies a1[i] != b1[j] by {
                assert(a[i + 1] == a1[i] && b[j + 1] == b1[j]);
            }
            assert(!a1.contains(a[0])) by {
                if a1.contains(a[0]) {
                    let i = choose|i: int| 0 <= i < a1.len() && a1[i] == a[0];
                    assert(a[i + 1] == a[0]);
                }
            }
            assert(!b1.contains(b[0])) by {
                if b1.contains(b[0]) {
                    let i = choose|i: int| 0 <= i < b1.len() && b1[i] == b[0];
                    assert(b[i + 1] == b[0]);
                }
            }
            assert(!b1.contains(a[0])) by {
                if b1.contains(a[0]) {
                    let i = choose|i: int| 0 <= i < b1.len() && b1[i] == a[0];
                    assert(b[i + 1] == a[0]);
                }
            }
            assert(!a1.contains(b[0])) by {
                if a1.contains(b[0]) {
                    let i = choose|i: int| 0 <= i < a1.len() && a1[i] == b[0];
                    assert(a[i + 1] == b[0]);
                }
            }
            assert(head.no_duplicates()) by {
                assert(a[0] != b[0]);
            }
            assert forall|i: int, j: int| 0 <= i < head.len() && 0 <= j < rest.len() implies head[i] != rest[j] by {
                assert(rest.contains(rest[j]));
            }
            vstd::seq_lib::lemma_no_dup_in_concat(head, rest);
        }
    } else if a.len() == 0 {
        assert(interleave(a, b) == b);
    } else {
        assert(interleave(a, b) == a);
    }
}

/// The addresses pick-first tries are exactly those of the endpoints, each
/// of them once.
pub proof fn lemma_address_order_unique_and_complete(eps: Seq<Seq<(Seq<char>, Seq<char>)>>)
    ensures
        address_order(eps).no_duplicates(),
        forall|a: (Seq<char>, Seq<char>)| address_order(eps).contains(a) <==> eps.flatten_alt().contains(a),
{
    let u = dedup(eps.flatten_alt());
    lemma_dedup(eps.flatten_alt());
    let p6 = |a: (Seq<char>, Seq<char>)| is_ipv6(a);
    let p4 = |a: (Seq<char>, Seq<char>)| !is_ipv6(a);
    let f6 = u.filter(p6);
    let f4 = u.filter(p4);
    lemma_filter_unique(u, p6);
    lemma_filter_unique(u, p4);
    assert forall|i: int, j: int| 0 <= i < f6.len() && 0 <= j < f4.len() implies f6[i] != f4[j] by {
        assert(f6.contains(f6[i]));
        assert(f4.contains(f4[j]));
    }
    lemma_interleave(f6, f4);
    assert(address_order(eps) == interleave(f6, f4));
}

} // verus!
