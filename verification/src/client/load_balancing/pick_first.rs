//! The pick-first load-balancing policy: it tries the addresses of the
//! resolver update one after the other and sends every RPC to the first one
//! that connects.

use crate::client::load_balancing::state_cache::StateCache;
use crate::client::load_balancing::subchannel::SubchannelState;
use crate::client::name_resolution::Address;
use crate::client::ConnectivityState;
use rand::seq::SliceRandom;
use vstd::arithmetic::div_mod::lemma_fundamental_div_mod;
use vstd::arithmetic::div_mod::lemma_fundamental_div_mod_converse;
use vstd::arithmetic::div_mod::lemma_mod_bound;
use vstd::prelude::*;

verus! {

/// The configuration of the pick-first policy.
#[derive(Debug, Clone, Copy)]
pub struct PickFirstConfig {
    /// Whether the endpoints are shuffled before their addresses are tried.
    pub shuffle_address_list: bool,
}

/// The views of a list of addresses.
pub open spec fn addr_views(s: Seq<Address>) -> Seq<(Seq<char>, Seq<char>)> {
    s.map_values(|a: Address| a@)
}

/// The views of the addresses of each endpoint.
pub open spec fn endpoint_views(s: Seq<Vec<Address>>) -> Seq<Seq<(Seq<char>, Seq<char>)>> {
    s.map_values(|e: Vec<Address>| addr_views(e@))
}

/// `s` with every repeated element dropped after its first occurrence.
pub open spec fn dedup<A>(s: Seq<A>) -> Seq<A>
    decreases s.len(),
{
    if s.len() == 0 {
        s
    } else {
        let d = dedup(s.drop_last());
        if d.contains(s.last()) {
            d
        } else {
            d.push(s.last())
        }
    }
}

/// An address is taken for IPv6 when it holds a `:`.
pub open spec fn is_ipv6(a: (Seq<char>, Seq<char>)) -> bool {
    a.1.contains(':')
}

/// The elements of `a` and `b` alternated, starting with `a`; when one runs
/// out, the rest of the other follows.
pub open spec fn interleave<A>(a: Seq<A>, b: Seq<A>) -> Seq<A>
    decreases a.len(),
{
    if a.len() == 0 {
        b
    } else if b.len() == 0 {
        a
    } else {
        seq![a[0], b[0]] + interleave(a.drop_first(), b.drop_first())
    }
}

/// The order in which pick-first tries the addresses of a list of endpoints:
/// all addresses in order without repeats, IPv6 and IPv4 addresses
/// alternated.
pub open spec fn address_order(eps: Seq<Seq<(Seq<char>, Seq<char>)>>) -> Seq<(Seq<char>, Seq<char>)> {
    let unique = dedup(eps.flatten_alt());
    interleave(unique.filter(|a: (Seq<char>, Seq<char>)| is_ipv6(a)), unique.filter(|a: (Seq<char>, Seq<char>)| !is_ipv6(a)))
}

fn contains_address(list: &Vec<Address>, a: &Address) -> (r: bool)
    ensures
        r == addr_views(list@).contains(a@),
{
    let mut i: usize = 0;
    while i < list.len()
        invariant
            0 <= i <= list@.len(),
            forall|j: int| 0 <= j < i ==> addr_views(list@)[j] != a@,
        decreases list@.len() - i,
    {
        if list[i].same(a) {
            proof {
                assert(addr_views(list@)[i as int] == a@);
            }
            return true;
        }
        i = i + 1;
    }
    false
}

fn has_colon(s: &str) -> (r: bool)
    ensures
        r == s@.contains(':'),
{
    let n = s.unicode_len();
    let mut i: usize = 0;
    while i < n
        invariant
            n == s@.len(),
            forall|j: int| 0 <= j < i ==> s@[j] != ':',
        decreases n - i,
    {
        if s.get_char(i) == ':' {
            proof {
                assert(s@[i as int] == ':');
            }
            return true;
        }
        i = i + 1;
    }
    false
}

/// The addresses of `endpoints` in the order in which pick-first tries them:
/// flattened, de-duplicated (first occurrence kept), then IPv6 and IPv4
/// addresses alternated.
pub fn compile_addresses(endpoints: &Vec<Vec<Address>>) -> (r: Vec<Address>)
    ensures
        addr_views(r@) == address_order(endpoint_views(endpoints@)),
{
    let ghost eps = endpoint_views(endpoints@);
    // Flatten and de-duplicate, keeping first occurrences in order.
    let mut unique: Vec<Address> = Vec::new();
    let mut i: usize = 0;
    while i < endpoints.len()
        invariant
            0 <= i <= endpoints@.len(),
            eps == endpoint_views(endpoints@),
            addr_views(unique@) == dedup(eps.take(i as int).flatten_alt()),
        decreases endpoints@.len() - i,
    {
        let ep = &endpoints[i];
        let ghost before = eps.take(i as int).flatten_alt();
        proof {
            assert(eps.take(i + 1).drop_last() =~= eps.take(i as int));
            assert(eps.take(i + 1).last() == addr_views(ep@));
            assert(eps.take(i + 1).flatten_alt() == before + addr_views(ep@));
        }
        let mut j: usize = 0;
        while j < ep.len()
            invariant
                0 <= j <= ep@.len(),
                addr_views(unique@) == dedup(before + addr_views(ep@).take(j as int)),
            decreases ep@.len() - j,
        {
            let a = &ep[j];
            let ghost prefix = before + addr_views(ep@).take(j as int);
            proof {
                assert(before + addr_views(ep@).take(j + 1) =~= prefix.push(a@));
                assert((prefix.push(a@)).drop_last() =~= prefix);
            }
            if !contains_address(&unique, a) {
                let ghost u = unique@;
                unique.push(a.clone());
                proof {
                    assert(addr_views(unique@) =~= addr_views(u).push(a@));
                }
            }
            j = j + 1;
        }
        proof {
            assert(addr_views(ep@).take(ep@.len() as int) =~= addr_views(ep@));
        }
        i = i + 1;
    }
    proof {
        assert(eps.take(endpoints@.len() as int) =~= eps);
    }
    let ghost u = addr_views(unique@);
    // Partition by family.
    let mut ipv6: Vec<Address> = Vec::new();
    let mut ipv4: Vec<Address> = Vec::new();
    let mut k: usize = 0;
    while k < unique.len()
        invariant
            0 <= k <= unique@.len(),
            u == addr_views(unique@),
            addr_views(ipv6@) == u.take(k as int).filter(|a: (Seq<char>, Seq<char>)| is_ipv6(a)),
            addr_views(ipv4@) == u.take(k as int).filter(|a: (Seq<char>, Seq<char>)| !is_ipv6(a)),
        decreases unique@.len() - k,
    {
        let a = &unique[k];
        proof {
            reveal(Seq::filter);
            assert(u.take(k + 1).drop_last() =~= u.take(k as int));
            assert(u.take(k + 1).last() == a@);
        }
        let ghost v6 = ipv6@;
        let ghost v4 = ipv4@;
        if has_colon(a.address.as_str()) {
            ipv6.push(a.clone());
            proof {
                assert(addr_views(ipv6@) =~= addr_views(v6).push(a@));
            }
        } else {
            ipv4.push(a.clone());
            proof {
                assert(addr_views(ipv4@) =~= addr_views(v4).push(a@));
            }
        }
        k = k + 1;
    }
    proof {
        assert(u.take(unique@.len() as int) =~= u);
    }
    // Alternate the two families.
    let ghost a6 = addr_views(ipv6@);
    let ghost a4 = addr_views(ipv4@);
    let mut out: Vec<Address> = Vec::new();
    let mut t: usize = 0;
    proof {
        assert(a6.skip(0) =~= a6);
        assert(a4.skip(0) =~= a4);
        assert(addr_views(out@) + interleave(a6, a4) =~= interleave(a6, a4));
    }
    while t < ipv6.len() && t < ipv4.len()
        invariant
            0 <= t <= ipv6@.len(),
            t <= ipv4@.len(),
            a6 == addr_views(ipv6@),
            a4 == addr_views(ipv4@),
            addr_views(out@) + interleave(a6.skip(t as int), a4.skip(t as int)) == interleave(a6, a4),
        decreases ipv6@.len() - t,
    {
        let ghost o = out@;
        proof {
            let s6 = a6.skip(t as int);
            let s4 = a4.skip(t as int);
            assert(s6.drop_first() =~= a6.skip(t + 1));
            assert(s4.drop_first() =~= a4.skip(t + 1));
            assert(interleave(s6, s4) == seq![s6[0], s4[0]] + interleave(a6.skip(t + 1), a4.skip(t + 1)));
        }
        out.push(ipv6[t].clone());
        out.push(ipv4[t].clone());
        proof {
            assert(addr_views(out@) =~= addr_views(o) + seq![a6[t as int], a4[t as int]]);
            assert(addr_views(out@) + interleave(a6.skip(t + 1), a4.skip(t + 1)) =~= addr_views(o) + (seq![
                a6[t as int],
                a4[t as int],
            ] + interleave(a6.skip(t + 1), a4.skip(t + 1))));
        }
        t = t + 1;
    }
    // One family is exhausted: the rest of the other follows.
    proof {
        let s6 = a6.skip(t as int);
        let s4 = a4.skip(t as int);
        if t == ipv6@.len() {
            assert(s6 =~= Seq::<(Seq<char>, Seq<char>)>::empty());
            assert(interleave(s6, s4) == s4);
            assert(s6 + s4 =~= s4);
        } else {
            assert(s4 =~= Seq::<(Seq<char>, Seq<char>)>::empty());
            assert(interleave(s6, s4) == s6);
            assert(s6 + s4 =~= s6);
        }
        assert(addr_views(out@) + (s6 + s4) == interleave(a6, a4));
    }
    let mut rest: usize = t;
    while rest < ipv6.len()
        invariant
            t <= rest <= ipv6@.len(),
            a6 == addr_views(ipv6@),
            a4 == addr_views(ipv4@),
            addr_views(out@) + (a6.skip(rest as int) + a4.skip(t as int)) == interleave(a6, a4),
        decreases ipv6@.len() - rest,
    {
        let ghost o = out@;
        out.push(ipv6[rest].clone());
        proof {
            assert(a6.skip(rest as int) =~= seq![a6[rest as int]] + a6.skip(rest + 1));
            assert(addr_views(out@) =~= addr_views(o).push(a6[rest as int]));
            assert(addr_views(out@) + (a6.skip(rest + 1) + a4.skip(t as int)) =~= addr_views(o) + (a6.skip(
                rest as int,
            ) + a4.skip(t as int)));
        }
        rest = rest + 1;
    }
    let mut rest4: usize = t;
    while rest4 < ipv4.len()
        invariant
            t <= rest4 <= ipv4@.len(),
            rest == ipv6@.len(),
            a6 == addr_views(ipv6@),
            a4 == addr_views(ipv4@),
            addr_views(out@) + (a6.skip(rest as int) + a4.skip(rest4 as int)) == interleave(a6, a4),
        decreases ipv4@.len() - rest4,
    {
        let ghost o = out@;
        out.push(ipv4[rest4].clone());
        proof {
            assert(a6.skip(rest as int) =~= Seq::<(Seq<char>, Seq<char>)>::empty());
            assert(a4.skip(rest4 as int) =~= seq![a4[rest4 as int]] + a4.skip(rest4 + 1));
            assert(addr_views(out@) =~= addr_views(o).push(a4[rest4 as int]));
            assert(addr_views(out@) + (a6.skip(rest as int) + a4.skip(rest4 + 1)) =~= addr_views(o) + (
            a6.skip(rest as int) + a4.skip(rest4 as int)));
        }
        rest4 = rest4 + 1;
    }
    proof {
        assert(a6.skip(rest as int) + a4.skip(rest4 as int) =~= Seq::<(Seq<char>, Seq<char>)>::empty());
        assert(addr_views(out@) =~= addr_views(out@) + (a6.skip(rest as int) + a4.skip(rest4 as int)));
    }
    out
}


/// The picker a policy publishes.
#[derive(Debug)]
pub enum PickerUpdate {
    /// Connecting: every RPC waits.
    Queuing,
    /// Transient failure: every RPC fails with this error.
    Failing(String),
    /// Ready: every RPC goes to the subchannel of this address.
    Ready(Address),
    /// Idle: a pick asks the policy to do work and the RPC waits.
    Idle,
}

/// What the policy asks its channel to do.
#[derive(Debug)]
pub enum PickFirstAction {
    /// Connect the subchannel of this address.
    Connect(Address),
    /// Cancel the connection-attempt timer if one runs, and start a new one.
    StartTimer,
    /// Cancel the connection-attempt timer if one runs.
    CancelTimer,
    /// Publish a picker.
    UpdatePicker(PickerUpdate),
    /// Ask the name resolver to resolve again.
    RequestResolution,
}

/// The view of an action.
pub enum ActionView {
    Connect((Seq<char>, Seq<char>)),
    StartTimer,
    CancelTimer,
    PickQueuing,
    PickFailing(Seq<char>),
    PickReady((Seq<char>, Seq<char>)),
    PickIdle,
    RequestResolution,
}

pub open spec fn action_view(a: PickFirstAction) -> ActionView {
    match a {
        PickFirstAction::Connect(x) => ActionView::Connect(x@),
        PickFirstAction::StartTimer => ActionView::StartTimer,
        PickFirstAction::CancelTimer => ActionView::CancelTimer,
        PickFirstAction::UpdatePicker(PickerUpdate::Queuing) => ActionView::PickQueuing,
        PickFirstAction::UpdatePicker(PickerUpdate::Failing(e)) => ActionView::PickFailing(e@),
        PickFirstAction::UpdatePicker(PickerUpdate::Ready(x)) => ActionView::PickReady(x@),
        PickFirstAction::UpdatePicker(PickerUpdate::Idle) => ActionView::PickIdle,
        PickFirstAction::RequestResolution => ActionView::RequestResolution,
    }
}

pub open spec fn actions_view(s: Seq<PickFirstAction>) -> Seq<ActionView> {
    s.map_values(|a: PickFirstAction| action_view(a))
}

/// The abstract state of a pick-first policy.
#[verifier::ext_equal]
pub struct PfView {
    /// The connectivity state the policy reports.
    pub cs: ConnectivityState,
    /// The addresses of its subchannels, in the order they are tried.
    pub subchannels: Seq<(Seq<char>, Seq<char>)>,
    /// The last known state of each subchannel, by address.
    pub states: Map<(Seq<char>, Seq<char>), ConnectivityState>,
    /// The subchannel all RPCs go to, once one is ready.
    pub selected: Option<(Seq<char>, Seq<char>)>,
    /// The index of the subchannel of the current connection attempt.
    pub frontier: int,
    pub resolver_error: Option<Seq<char>>,
    pub connection_error: Option<Seq<char>>,
    /// In steady state (after a pass failed on every address), the number of
    /// failures seen since re-resolution was last requested.
    pub steady: Option<int>,
}

/// The first index at or after `from` whose subchannel is not known to be in
/// transient failure; at least the number of subchannels when there is none.
pub open spec fn first_viable(
    subs: Seq<(Seq<char>, Seq<char>)>,
    states: Map<(Seq<char>, Seq<char>), ConnectivityState>,
    from: int,
) -> int
    decreases subs.len() - from,
{
    if from >= subs.len() || from < 0 {
        from
    } else if states.dom().contains(subs[from]) && states[subs[from]] == ConnectivityState::TransientFailure {
        first_viable(subs, states, from + 1)
    } else {
        from
    }
}

/// Whether `a` is among the subchannels of the current pass: those at
/// indices up to the frontier.
pub open spec fn in_pass(subs: Seq<(Seq<char>, Seq<char>)>, frontier: int, a: (Seq<char>, Seq<char>)) -> bool {
    exists|i: int| 0 <= i < subs.len() && i <= frontier && subs[i] == a
}

/// One more than `x`, unless that would leave `usize`.
pub open spec fn bump(x: int) -> int {
    if x < usize::MAX {
        x + 1
    } else {
        x
    }
}

/// Goes to transient failure with `error`: publishes a failing picker and
/// asks for re-resolution.
pub open spec fn spec_set_failure(v: PfView, error: Seq<char>) -> (PfView, Seq<ActionView>) {
    (
        PfView { cs: ConnectivityState::TransientFailure, ..v },
        seq![ActionView::PickFailing(error), ActionView::RequestResolution],
    )
}

/// Starts connecting the subchannel at the frontier.
pub open spec fn spec_trigger(v: PfView) -> (PfView, Seq<ActionView>) {
    (PfView { cs: ConnectivityState::Connecting, ..v }, seq![ActionView::Connect(v.subchannels[v.frontier]), ActionView::StartTimer])
}

/// Starts a pass through the addresses from the first one.
pub open spec fn spec_start_pass(v: PfView) -> (PfView, Seq<ActionView>) {
    let v1 = PfView { selected: None, ..v };
    let f = first_viable(v1.subchannels, v1.states, 0);
    let v2 = PfView { frontier: f, ..v1 };
    if f < v2.subchannels.len() {
        let (v3, a3) = spec_trigger(v2);
        (v3, a3.push(ActionView::PickQueuing))
    } else {
        spec_set_failure(
            v2,
            match v2.connection_error {
                Some(e) => e,
                None => "all addresses in transient failure"@,
            },
        )
    }
}

/// A subchannel reports state `st` (with `err`, its last connection error,
/// in transient failure).
pub open spec fn spec_subchannel_update(
    v: PfView,
    a: (Seq<char>, Seq<char>),
    st: ConnectivityState,
    err: Option<Seq<char>>,
) -> (PfView, Seq<ActionView>) {
    let v1 = PfView { states: v.states.insert(a, st), ..v };
    if v1.selected == Some(a) {
        if st != ConnectivityState::Ready {
            (PfView { selected: None, cs: ConnectivityState::Idle, ..v1 }, seq![ActionView::PickIdle])
        } else {
            (v1, Seq::empty())
        }
    } else {
        let a1: Seq<ActionView> = if v1.steady is Some && st == ConnectivityState::Idle {
            seq![ActionView::Connect(a)]
        } else {
            Seq::empty()
        };
        let (v2, a2) = match v1.steady {
            Some(c) => if st == ConnectivityState::TransientFailure {
                if c + 1 >= v1.subchannels.len() {
                    (PfView { steady: Some(0), ..v1 }, seq![ActionView::RequestResolution])
                } else {
                    (PfView { steady: Some(c + 1), ..v1 }, Seq::<ActionView>::empty())
                }
            } else {
                (v1, Seq::<ActionView>::empty())
            },
            None => (v1, Seq::<ActionView>::empty()),
        };
        if st == ConnectivityState::Ready && in_pass(v2.subchannels, v2.frontier, a) {
            (
                PfView { selected: Some(a), cs: ConnectivityState::Ready, subchannels: seq![a], ..v2 },
                a1 + a2 + seq![ActionView::CancelTimer, ActionView::PickReady(a)],
            )
        } else if 0 <= v2.frontier < v2.subchannels.len() && v2.subchannels[v2.frontier] == a && st
            == ConnectivityState::TransientFailure {
            let f = first_viable(v2.subchannels, v2.states, bump(v2.frontier));
            let v3 = PfView { frontier: f, ..v2 };
            if f < v3.subchannels.len() {
                let (v4, a4) = spec_trigger(v3);
                (v4, a1 + a2 + a4)
            } else {
                let e = match err {
                    Some(e) => e,
                    None => "all addresses failed"@,
                };
                let (v5, a5) = spec_set_failure(PfView { connection_error: Some(e), ..v3 }, e);
                (PfView { steady: Some(0), ..v5 }, a1 + a2 + a5)
            }
        } else {
            (v2, a1 + a2)
        }
    }
}

/// The policy is asked to do work; `timer_expired` tells whether the
/// connection-attempt timer fired since the last time it was consumed.
pub open spec fn spec_work(v: PfView, timer_expired: bool) -> (PfView, Seq<ActionView>) {
    if v.cs == ConnectivityState::Idle {
        spec_start_pass(v)
    } else if v.cs == ConnectivityState::Connecting && timer_expired {
        let f = first_viable(v.subchannels, v.states, bump(v.frontier));
        let v1 = PfView { frontier: f, ..v };
        if f < v1.subchannels.len() {
            spec_trigger(v1)
        } else {
            (v1, Seq::empty())
        }
    } else {
        (v, Seq::empty())
    }
}

/// The states kept after the subchannels are replaced by those of `new`: a
/// subchannel that stays keeps its state, a new one has the state it was
/// created with.
pub open spec fn rebuilt_states(
    v: PfView,
    new: Seq<(Seq<char>, Seq<char>)>,
    created: Map<(Seq<char>, Seq<char>), ConnectivityState>,
) -> Map<(Seq<char>, Seq<char>), ConnectivityState> {
    Map::new(
        |a: (Seq<char>, Seq<char>)| new.contains(a),
        |a: (Seq<char>, Seq<char>)|
            if v.subchannels.contains(a) {
                v.states[a]
            } else {
                created[a]
            },
    )
}

/// The subchannels are replaced by those of `new`; unless the selected
/// subchannel is among them, a connection pass starts.
pub open spec fn spec_apply_addresses(
    v: PfView,
    new: Seq<(Seq<char>, Seq<char>)>,
    created: Map<(Seq<char>, Seq<char>), ConnectivityState>,
) -> (PfView, Seq<ActionView>) {
    let sticky = match v.selected {
        Some(s) => new.contains(s),
        None => false,
    };
    let v1 = PfView { subchannels: new, states: rebuilt_states(v, new, created), ..v };
    if sticky {
        (v1, Seq::empty())
    } else {
        spec_start_pass(v1)
    }
}

/// What a resolver update leads to.
#[derive(Debug)]
pub enum ResolverUpdateStep {
    /// The update is handled: the channel performs these actions, and the
    /// update is answered with this result.
    Done(Vec<PickFirstAction>, Result<(), String>),
    /// The addresses to use, in the order they are tried: the channel
    /// creates the subchannels that `missing_subchannels` lists, then calls
    /// `apply_addresses`; the update is then answered `Ok`.
    Addresses(Vec<Address>),
}

/// The view of a resolver-update step.
pub enum StepView {
    Done(Seq<ActionView>, Result<(), Seq<char>>),
    Addresses(Seq<(Seq<char>, Seq<char>)>),
}

pub open spec fn step_view(r: ResolverUpdateStep) -> StepView {
    match r {
        ResolverUpdateStep::Done(a, Ok(())) => StepView::Done(actions_view(a@), Ok(())),
        ResolverUpdateStep::Done(a, Err(e)) => StepView::Done(actions_view(a@), Err(e@)),
        ResolverUpdateStep::Addresses(x) => StepView::Addresses(addr_views(x@)),
    }
}

/// A resolver update with endpoints (in the order given): the steady state
/// ends; with no address the subchannels are dropped and the policy goes to
/// transient failure with the last resolver error, and the update is
/// refused; otherwise the addresses come back in the order they are tried.
pub open spec fn spec_update_endpoints(v: PfView, eps: Seq<Seq<(Seq<char>, Seq<char>)>>) -> (PfView, StepView) {
    let v0 = PfView { steady: None, ..v };
    let addrs = address_order(eps);
    if addrs.len() == 0 {
        let e = match v0.resolver_error {
            Some(e) => e,
            None => "empty address list"@,
        };
        let (v1, a1) = spec_set_failure(PfView { subchannels: Seq::empty(), selected: None, ..v0 }, e);
        (v1, StepView::Done(a1, Err(e)))
    } else {
        (v0, StepView::Addresses(addrs))
    }
}

/// A resolver update with an error: it is remembered; with no subchannel,
/// or already in transient failure, the policy goes (again) to transient
/// failure and the update is refused.
pub open spec fn spec_resolver_error(v: PfView, e: Seq<char>) -> (PfView, StepView) {
    let v0 = PfView { steady: None, resolver_error: Some(e), ..v };
    if v.subchannels.len() == 0 || v.cs == ConnectivityState::TransientFailure {
        let (v1, a1) = spec_set_failure(v0, e);
        (v1, StepView::Done(a1, Err(e)))
    } else {
        (v0, StepView::Done(Seq::empty(), Ok(())))
    }
}

/// One more failure against `n` subchannels, from a count of `count`:
/// whether re-resolution is asked for, and the new count.
pub open spec fn failure_step(count: int, n: int) -> (bool, int) {
    if count + 1 >= n {
        (true, 0)
    } else {
        (false, count + 1)
    }
}

/// The count after `k` failures in a row against `n` subchannels.
pub open spec fn failures_after(count: int, n: int, k: nat) -> int
    decreases k,
{
    if k == 0 {
        count
    } else {
        failure_step(failures_after(count, n, (k - 1) as nat), n).1
    }
}

/// How many of `k` failures in a row against `n` subchannels asked for
/// re-resolution.
pub open spec fn resolutions_after(count: int, n: int, k: nat) -> int
    decreases k,
{
    if k == 0 {
        0
    } else {
        resolutions_after(count, n, (k - 1) as nat) + if failure_step(
            failures_after(count, n, (k - 1) as nat),
            n,
        ).0 {
            1int
        } else {
            0int
        }
    }
}

/// Re-resolution once per round of failures: after `k` failures in a row
/// against the same `n` subchannels, starting from a count below `n`,
/// re-resolution was asked for `(count + k) / n` times and the count is
/// `(count + k) % n`.
pub proof fn lemma_failures_in_a_row(count: int, n: int, k: nat)
    requires
        0 <= count < n,
    ensures
        failures_after(count, n, k) == (count + k) % n,
        resolutions_after(count, n, k) == (count + k) / n,
    decreases k,
{
    if k == 0 {
        lemma_fundamental_div_mod_converse(count, n, 0, count);
    } else {
        let j = (k - 1) as nat;
        lemma_failures_in_a_row(count, n, j);
        let f = (count + j) % n;
        let q = (count + j) / n;
        lemma_fundamental_div_mod(count + j, n);
        assert(0 <= f < n) by {
            lemma_mod_bound(count + j, n);
        }
        if f + 1 >= n {
            assert(count + k == (q + 1) * n + 0) by (nonlinear_arith)
                requires
                    count + j == n * q + f,
                    f + 1 == n,
                    k == j + 1,
            ;
            lemma_fundamental_div_mod_converse(count + k, n, q + 1, 0);
        } else {
            assert(count + k == q * n + (f + 1)) by (nonlinear_arith)
                requires
                    count + j == n * q + f,
                    k == j + 1,
            ;
            lemma_fundamental_div_mod_converse(count + k, n, q, f + 1);
        }
    }
}

/// The `i`-th failure in a row against the same `n` subchannels, counted
/// from a fresh counter, asks for re-resolution exactly when `n` is 0 or
/// `i` is a multiple of `n`.
pub proof fn lemma_ith_failure_asks(n: int, i: nat)
    requires
        n >= 0,
        i >= 1,
    ensures
        failure_step(failures_after(0, n, (i - 1) as nat), n).0 == (n == 0 || (i as int) % n == 0),
{
    if n == 0 {
        lemma_no_subchannels_count_stays(i);
    } else {
        lemma_failures_in_a_row(0, n, (i - 1) as nat);
        let f = (i - 1) % n;
        let q = (i - 1) / n;
        lemma_fundamental_div_mod(i - 1, n);
        assert(0 <= f < n) by {
            lemma_mod_bound(i - 1, n);
        }
        if f + 1 == n {
            assert(i == (q + 1) * n + 0) by (nonlinear_arith)
                requires
                    i - 1 == n * q + f,
                    f + 1 == n,
            ;
            lemma_fundamental_div_mod_converse(i as int, n, q + 1, 0);
        } else {
            assert(i == q * n + (f + 1)) by (nonlinear_arith)
                requires
                    i - 1 == n * q + f,
            ;
            lemma_fundamental_div_mod_converse(i as int, n, q, f + 1);
        }
    }
}

/// With no subchannels the count stays 0.
proof fn lemma_no_subchannels_count_stays(k: nat)
    ensures
        failures_after(0, 0, k) == 0,
    decreases k,
{
    if k > 0 {
        lemma_no_subchannels_count_stays((k - 1) as nat);
    }
}

/// The steady-state failure counter of pick-first.
#[derive(Debug, Clone, Copy)]
pub struct SteadyState {
    /// Connection failures seen, used to roughly approximate when a
    /// re-resolution is needed.
    failure_count: usize,
}

impl SteadyState {
    pub closed spec fn failures(&self) -> int {
        self.failure_count as int
    }

    pub fn new() -> (r: Self)
        ensures
            r.failures() == 0,
    {
        SteadyState { failure_count: 0 }
    }

    /// Counts one more failure and answers whether re-resolution is needed:
    /// it is once as many failures as there are subchannels were counted, and
    /// the count then starts again.
    pub fn record_failure(&mut self, subchannels_len: usize) -> (r: bool)
        ensures
            (r, final(self).failures()) == failure_step(old(self).failures(), subchannels_len as int),
    {
        if self.failure_count >= subchannels_len {
            self.failure_count = 0;
            return true;
        }
        self.failure_count = self.failure_count + 1;
        if self.failure_count >= subchannels_len {
            self.failure_count = 0;
            return true;
        }
        false
    }
}


pub open spec fn opt_str_view(o: Option<String>) -> Option<Seq<char>> {
    match o {
        Some(s) => Some(s@),
        None => None,
    }
}

/// The decisions of the pick-first policy.
pub struct PickFirstPolicy {
    connectivity_state: ConnectivityState,
    subchannels: Vec<Address>,
    subchannel_states: StateCache,
    selected: Option<Address>,
    frontier_index: usize,
    last_resolver_error: Option<String>,
    last_connection_error: Option<String>,
    steady_state: Option<SteadyState>,
}

impl View for PickFirstPolicy {
    type V = PfView;

    closed spec fn view(&self) -> PfView {
        PfView {
            cs: self.connectivity_state,
            subchannels: addr_views(self.subchannels@),
            states: self.subchannel_states@,
            selected: match self.selected {
                Some(a) => Some(a@),
                None => None,
            },
            frontier: self.frontier_index as int,
            resolver_error: opt_str_view(self.last_resolver_error),
            connection_error: opt_str_view(self.last_connection_error),
            steady: match self.steady_state {
                Some(s) => Some(s.failures()),
                None => None,
            },
        }
    }
}

/// The invariant of the abstract state: every subchannel has a known state,
/// and the frontier is an index.
pub open spec fn pf_inv(v: PfView) -> bool {
    &&& forall|i: int| 0 <= i < v.subchannels.len() ==> #[trigger] v.states.dom().contains(v.subchannels[i])
    &&& 0 <= v.frontier <= usize::MAX
    &&& v.steady matches Some(c) ==> 0 <= c <= usize::MAX
}

impl PickFirstPolicy {
    pub closed spec fn wf(&self) -> bool {
        &&& self.subchannel_states.wf()
        &&& pf_inv(self@)
    }

    /// A policy that has not received any update: connecting, with no
    /// subchannel.
    pub fn new() -> (r: Self)
        ensures
            r.wf(),
            r@.cs == ConnectivityState::Connecting,
            r@.subchannels == Seq::<(Seq<char>, Seq<char>)>::empty(),
            r@.states == Map::<(Seq<char>, Seq<char>), ConnectivityState>::empty(),
            r@.selected is None,
            r@.frontier == 0,
            r@.resolver_error is None,
            r@.connection_error is None,
            r@.steady is None,
    {
        let r = PickFirstPolicy {
            connectivity_state: ConnectivityState::Connecting,
            subchannels: Vec::new(),
            subchannel_states: StateCache::new(),
            selected: None,
            frontier_index: 0,
            last_resolver_error: None,
            last_connection_error: None,
            steady_state: None,
        };
        proof {
            assert(r@.subchannels =~= Seq::<(Seq<char>, Seq<char>)>::empty());
        }
        r
    }

    /// The connectivity state the policy reports.
    pub fn connectivity_state(&self) -> (r: ConnectivityState)
        ensures
            r == self@.cs,
    {
        self.connectivity_state
    }

    /// The addresses of the subchannels, in the order they are tried.
    pub fn subchannels(&self) -> (r: &Vec<Address>)
        ensures
            addr_views(r@) == self@.subchannels,
    {
        &self.subchannels
    }

    /// The address of the selected subchannel, if one is selected.
    pub fn selected(&self) -> (r: Option<&Address>)
        ensures
            match r {
                Some(a) => self@.selected == Some(a@),
                None => self@.selected is None,
            },
    {
        match &self.selected {
            Some(a) => Some(a),
            None => None,
        }
    }

    /// Whether the policy is in steady state: a pass failed on every address
    /// and it keeps retrying.
    pub fn in_steady_state(&self) -> (r: bool)
        ensures
            r == self@.steady is Some,
    {
        self.steady_state.is_some()
    }

    /// Moves the frontier to the next subchannel not known to be in transient
    /// failure, starting at the first one when `reset` is set and after the
    /// current one otherwise; returns its index, if there is one.
    fn advance_frontier(&mut self, reset: bool) -> (r: Option<usize>)
        requires
            old(self).wf(),
        ensures
            final(self).wf(),
            final(self)@ == (PfView {
                frontier: first_viable(
                    old(self)@.subchannels,
                    old(self)@.states,
                    if reset {
                        0
                    } else {
                        bump(old(self)@.frontier)
                    },
                ),
                ..old(self)@
            }),
            match r {
                Some(i) => i == final(self)@.frontier && i < final(self)@.subchannels.len(),
                None => final(self)@.frontier >= final(self)@.subchannels.len(),
            },
    {
        if reset {
            self.frontier_index = 0;
        } else if self.frontier_index < usize::MAX {
            self.frontier_index = self.frontier_index + 1;
        }
        let ghost start = self.frontier_index as int;
        while self.frontier_index < self.subchannels.len()
            invariant
                self.wf(),
                self@.subchannels == old(self)@.subchannels,
                self@.states == old(self)@.states,
                start <= self@.frontier,
                start == if reset {
                    0
                } else {
                    bump(old(self)@.frontier)
                },
                first_viable(self@.subchannels, self@.states, self@.frontier) == first_viable(
                    old(self)@.subchannels,
                    old(self)@.states,
                    start,
                ),
                self@ == (PfView { frontier: self@.frontier, ..old(self)@ }),
            decreases self.subchannels@.len() - self.frontier_index,
        {
            let i = self.frontier_index;
            let state = self.subchannel_states.get(&self.subchannels[i]);
            proof {
                assert(self@.subchannels[i as int] == self.subchannels@[i as int]@);
            }
            match state {
                Some(ConnectivityState::TransientFailure) => {
                    self.frontier_index = i + 1;
                },
                _ => {
                    proof {
                        assert(first_viable(self@.subchannels, self@.states, i as int) == i as int);
                        assert(self@ =~= (PfView {
                            frontier: first_viable(old(self)@.subchannels, old(self)@.states, start),
                            ..old(self)@
                        }));
                    }
                    return Some(i);
                },
            }
        }
        proof {
            assert(self@ =~= (PfView {
                frontier: first_viable(old(self)@.subchannels, old(self)@.states, start),
                ..old(self)@
            }));
        }
        None
    }

    /// Goes to transient failure: publishes a picker that fails every RPC
    /// with `error` and asks for re-resolution.
    fn set_transient_failure(&mut self, error: String, actions: &mut Vec<PickFirstAction>)
        requires
            old(self).wf(),
        ensures
            final(self).wf(),
            final(self)@ == spec_set_failure(old(self)@, error@).0,
            actions_view(final(actions)@) == actions_view(old(actions)@) + spec_set_failure(
                old(self)@,
                error@,
            ).1,
    {
        let ghost a0 = actions@;
        let ghost e = error@;
        self.connectivity_state = ConnectivityState::TransientFailure;
        actions.push(PickFirstAction::UpdatePicker(PickerUpdate::Failing(error)));
        actions.push(PickFirstAction::RequestResolution);
        proof {
            assert(actions_view(actions@) =~= actions_view(a0) + seq![
                ActionView::PickFailing(e),
                ActionView::RequestResolution,
            ]);
            assert(self@ =~= spec_set_failure(old(self)@, e).0);
        }
    }

    /// Connects the subchannel at the frontier and starts the
    /// connection-attempt timer.
    fn trigger_subchannel_connection(&mut self, actions: &mut Vec<PickFirstAction>)
        requires
            old(self).wf(),
            0 <= old(self)@.frontier < old(self)@.subchannels.len(),
        ensures
            final(self).wf(),
            final(self)@ == spec_trigger(old(self)@).0,
            actions_view(final(actions)@) == actions_view(old(actions)@) + spec_trigger(old(self)@).1,
    {
        let ghost a0 = actions@;
        self.connectivity_state = ConnectivityState::Connecting;
        let a = self.subchannels[self.frontier_index].clone();
        let ghost av = a@;
        proof {
            assert(av == old(self)@.subchannels[old(self)@.frontier]);
        }
        actions.push(PickFirstAction::Connect(a));
        actions.push(PickFirstAction::StartTimer);
        proof {
            assert(actions_view(actions@) =~= actions_view(a0) + seq![
                ActionView::Connect(av),
                ActionView::StartTimer,
            ]);
            assert(self@ =~= spec_trigger(old(self)@).0);
        }
    }

    /// Starts a connection pass through the address list from its first
    /// address; clears the selected subchannel.
    fn start_connection_pass(&mut self, actions: &mut Vec<PickFirstAction>)
        requires
            old(self).wf(),
        ensures
            final(self).wf(),
            final(self)@ == spec_start_pass(old(self)@).0,
            actions_view(final(actions)@) == actions_view(old(actions)@) + spec_start_pass(
                old(self)@,
            ).1,
    {
        let ghost a0 = actions@;
        self.selected = None;
        let ghost v1 = self@;
        proof {
            assert(v1 =~= (PfView { selected: None, ..old(self)@ }));
        }
        match self.advance_frontier(true) {
            Some(_) => {
                let ghost v2 = self@;
                self.trigger_subchannel_connection(actions);
                let ghost a3 = actions@;
                actions.push(PickFirstAction::UpdatePicker(PickerUpdate::Queuing));
                proof {
                    assert(actions_view(actions@) =~= actions_view(a3).push(ActionView::PickQueuing));
                    assert(actions_view(actions@) =~= actions_view(a0) + spec_trigger(v2).1.push(
                        ActionView::PickQueuing,
                    ));
                }
            },
            None => {
                let error = match &self.last_connection_error {
                    Some(e) => e.clone(),
                    None => String::from_str("all addresses in transient failure"),
                };
                self.set_transient_failure(error, actions);
            },
        }
    }

    /// Leaves `Idle`: starts a connection pass.
    pub fn exit_idle(&mut self) -> (r: Vec<PickFirstAction>)
        requires
            old(self).wf(),
        ensures
            final(self).wf(),
            (final(self)@, actions_view(r@)) == spec_start_pass(old(self)@),
    {
        let mut actions: Vec<PickFirstAction> = Vec::new();
        proof {
            assert(actions_view(actions@) =~= Seq::<ActionView>::empty());
        }
        self.start_connection_pass(&mut actions);
        proof {
            assert(actions_view(actions@) =~= spec_start_pass(old(self)@).1);
        }
        actions
    }

    /// The policy is asked to do work (a pick found it idle, or the
    /// connection-attempt timer fired). `timer_expired` tells whether the
    /// timer fired since it was last consumed; the second result tells
    /// whether this call consumed it.
    pub fn work(&mut self, timer_expired: bool) -> (r: (Vec<PickFirstAction>, bool))
        requires
            old(self).wf(),
        ensures
            final(self).wf(),
            (final(self)@, actions_view(r.0@)) == spec_work(old(self)@, timer_expired),
            r.1 == (old(self)@.cs == ConnectivityState::Connecting && timer_expired),
    {
        let mut actions: Vec<PickFirstAction> = Vec::new();
        proof {
            assert(actions_view(actions@) =~= Seq::<ActionView>::empty());
        }
        if self.connectivity_state == ConnectivityState::Idle {
            self.start_connection_pass(&mut actions);
            proof {
                assert(actions_view(actions@) =~= spec_start_pass(old(self)@).1);
            }
            (actions, false)
        } else if self.connectivity_state == ConnectivityState::Connecting {
            if timer_expired {
                match self.advance_frontier(false) {
                    Some(_) => {
                        let ghost v1 = self@;
                        self.trigger_subchannel_connection(&mut actions);
                        proof {
                            assert(actions_view(actions@) =~= spec_trigger(v1).1);
                        }
                    },
                    None => {},
                }
                (actions, true)
            } else {
                (actions, false)
            }
        } else {
            (actions, false)
        }
    }

    /// Whether the subchannel of `address` is among the first `frontier + 1`
    /// subchannels, those of the current pass.
    fn in_current_pass(&self, address: &Address) -> (r: bool)
        requires
            self.wf(),
        ensures
            r == in_pass(self@.subchannels, self@.frontier, address@),
    {
        let mut i: usize = 0;
        while i < self.subchannels.len() && i <= self.frontier_index
            invariant
                0 <= i <= self.subchannels@.len(),
                i <= self.frontier_index + 1,
                forall|j: int| 0 <= j < i ==> addr_views(self.subchannels@)[j] != address@,
            decreases self.subchannels@.len() - i,
        {
            if self.subchannels[i].same(address) {
                proof {
                    assert(addr_views(self.subchannels@)[i as int] == address@);
                }
                return true;
            }
            i = i + 1;
        }
        false
    }

    /// A subchannel reports a new state.
    pub fn subchannel_update(&mut self, address: &Address, state: &SubchannelState) -> (r: Vec<
        PickFirstAction,
    >)
        requires
            old(self).wf(),
        ensures
            final(self).wf(),
            (final(self)@, actions_view(r@)) == spec_subchannel_update(
                old(self)@,
                address@,
                state.connectivity_state,
                opt_str_view(state.last_connection_error),
            ),
    {
        let ghost v = old(self)@;
        let ghost a = address@;
        let ghost st = state.connectivity_state;
        let mut actions: Vec<PickFirstAction> = Vec::new();
        self.subchannel_states.insert(address.clone(), state.connectivity_state);
        let ghost v1 = self@;
        proof {
            assert(v1 =~= (PfView { states: v.states.insert(a, st), ..v }));
        }
        let is_selected = match &self.selected {
            Some(sel) => sel.same(address),
            None => false,
        };
        if is_selected {
            if state.connectivity_state != ConnectivityState::Ready {
                self.selected = None;
                self.connectivity_state = ConnectivityState::Idle;
                actions.push(PickFirstAction::UpdatePicker(PickerUpdate::Idle));
                proof {
                    assert(self@ =~= (PfView {
                        selected: None,
                        cs: ConnectivityState::Idle,
                        ..v1
                    }));
                    assert(actions_view(actions@) =~= seq![ActionView::PickIdle]);
                }
            } else {
                proof {
                    assert(actions_view(actions@) =~= Seq::<ActionView>::empty());
                }
            }
            return actions;
        }
        if self.steady_state.is_some() && state.connectivity_state == ConnectivityState::Idle {
            actions.push(PickFirstAction::Connect(address.clone()));
        }
        let ghost a1 = actions_view(actions@);
        proof {
            if v1.steady is Some && st == ConnectivityState::Idle {
                assert(a1 =~= seq![ActionView::Connect(a)]);
            } else {
                assert(a1 =~= Seq::<ActionView>::empty());
            }
        }
        match self.steady_state {
            Some(ss) => {
                if state.connectivity_state == ConnectivityState::TransientFailure {
                    let mut ss2 = ss;
                    let resolve = ss2.record_failure(self.subchannels.len());
                    self.steady_state = Some(ss2);
                    if resolve {
                        actions.push(PickFirstAction::RequestResolution);
                    }
                }
            },
            None => {},
        }
        let ghost v2 = self@;
        let ghost a2 = actions_view(actions@).skip(a1.len() as int);
        proof {
            assert(actions_view(actions@) =~= a1 + a2);
        }
        if state.connectivity_state == ConnectivityState::Ready && self.in_current_pass(address) {
            self.selected = Some(address.clone());
            self.connectivity_state = ConnectivityState::Ready;
            self.subchannels = vec![address.clone()];
            let ghost a12 = actions_view(actions@);
            actions.push(PickFirstAction::CancelTimer);
            actions.push(PickFirstAction::UpdatePicker(PickerUpdate::Ready(address.clone())));
            proof {
                assert(addr_views(self.subchannels@) =~= seq![a]);
                assert(self@ =~= (PfView {
                    selected: Some(a),
                    cs: ConnectivityState::Ready,
                    subchannels: seq![a],
                    ..v2
                }));
                assert(actions_view(actions@) =~= a12 + seq![
                    ActionView::CancelTimer,
                    ActionView::PickReady(a),
                ]);
            }
            return actions;
        }
        let at_frontier = self.frontier_index < self.subchannels.len()
            && self.subchannels[self.frontier_index].same(address);
        proof {
            if at_frontier {
                assert(v2.subchannels[v2.frontier] == self.subchannels@[self.frontier_index as int]@);
            }
        }
        if at_frontier && state.connectivity_state == ConnectivityState::TransientFailure {
            match self.advance_frontier(false) {
                Some(_) => {
                    let ghost v3 = self@;
                    let ghost a12 = actions_view(actions@);
                    self.trigger_subchannel_connection(&mut actions);
                    proof {
                        assert(actions_view(actions@) =~= a12 + spec_trigger(v3).1);
                    }
                },
                None => {
                    let error = match &state.last_connection_error {
                        Some(e) => e.clone(),
                        None => String::from_str("all addresses failed"),
                    };
                    self.last_connection_error = Some(error.clone());
                    let ghost a12 = actions_view(actions@);
                    self.set_transient_failure(error, &mut actions);
                    self.steady_state = Some(SteadyState::new());
                },
            }
        }
        actions
    }

    /// The addresses of `addresses` that have no subchannel yet, in order:
    /// those whose subchannels the channel must create before
    /// `apply_addresses`.
    pub fn missing_subchannels(&self, addresses: &Vec<Address>) -> (r: Vec<Address>)
        ensures
            addr_views(r@) == addr_views(addresses@).filter(
                |a: (Seq<char>, Seq<char>)| !self@.subchannels.contains(a),
            ),
    {
        let ghost subs = self@.subchannels;
        let ghost all = addr_views(addresses@);
        let mut out: Vec<Address> = Vec::new();
        let mut i: usize = 0;
        while i < addresses.len()
            invariant
                0 <= i <= addresses@.len(),
                subs == self@.subchannels,
                subs == addr_views(self.subchannels@),
                all == addr_views(addresses@),
                addr_views(out@) == all.take(i as int).filter(
                    |a: (Seq<char>, Seq<char>)| !subs.contains(a),
                ),
            decreases addresses@.len() - i,
        {
            let a = &addresses[i];
            proof {
                reveal(Seq::filter);
                assert(all.take(i + 1).drop_last() =~= all.take(i as int));
                assert(all.take(i + 1).last() == a@);
            }
            let ghost o = out@;
            if !contains_address(&self.subchannels, a) {
                out.push(a.clone());
                proof {
                    assert(addr_views(out@) =~= addr_views(o).push(a@));
                }
            }
            i = i + 1;
        }
        proof {
            assert(all.take(addresses@.len() as int) =~= all);
        }
        out
    }

    /// Replaces the subchannels by those of `new_addresses`, in that order: a
    /// subchannel whose address stays keeps its state, a new one takes the
    /// state it was created with, from `created`; the states of the other
    /// addresses are dropped. Unless the selected subchannel stays, a new
    /// connection pass starts.
    pub fn apply_addresses(&mut self, new_addresses: Vec<Address>, created: &StateCache) -> (r: Vec<
        PickFirstAction,
    >)
        requires
            old(self).wf(),
            created.wf(),
            forall|a: (Seq<char>, Seq<char>)|
                addr_views(new_addresses@).contains(a) && !old(self)@.subchannels.contains(a)
                    ==> #[trigger] created@.dom().contains(a),
        ensures
            final(self).wf(),
            (final(self)@, actions_view(r@)) == spec_apply_addresses(
                old(self)@,
                addr_views(new_addresses@),
                created@,
            ),
    {
        let ghost v = old(self)@;
        let ghost new = addr_views(new_addresses@);
        let sticky = match &self.selected {
            Some(sel) => contains_address(&new_addresses, sel),
            None => false,
        };
        let mut states = StateCache::new();
        let mut i: usize = 0;
        while i < new_addresses.len()
            invariant
                0 <= i <= new_addresses@.len(),
                self.wf(),
                self@ == v,
                new == addr_views(new_addresses@),
                created.wf(),
                forall|a: (Seq<char>, Seq<char>)|
                    new.contains(a) && !v.subchannels.contains(a) ==> #[trigger] created@.dom().contains(a),
                states.wf(),
                states@ == rebuilt_states(v, new.take(i as int), created@),
            decreases new_addresses@.len() - i,
        {
            let a = &new_addresses[i];
            proof {
                assert(new[i as int] == a@);
                assert(new.contains(a@));
            }
            let st = if contains_address(&self.subchannels, a) {
                match self.subchannel_states.get(a) {
                    Some(s) => s,
                    None => {
                        proof {
                            let k = choose|k: int| 0 <= k < v.subchannels.len() && v.subchannels[k] == a@;
                            assert(v.states.dom().contains(v.subchannels[k]));
                        }
                        ConnectivityState::Idle
                    },
                }
            } else {
                match created.get(a) {
                    Some(s) => s,
                    None => ConnectivityState::Idle,
                }
            };
            let ghost before = states@;
            states.insert(a.clone(), st);
            proof {
                let t0 = new.take(i as int);
                let t1 = new.take(i + 1);
                assert(t1 =~= t0.push(a@));
                assert(st == (if v.subchannels.contains(a@) {
                    v.states[a@]
                } else {
                    created@[a@]
                }));
                assert forall|k: (Seq<char>, Seq<char>)| t1.contains(k) <==> (t0.contains(k) || k == a@) by {
                    if t1.contains(k) {
                        let j = choose|j: int| 0 <= j < t1.len() && t1[j] == k;
                        if j < t0.len() {
                            assert(t0[j] == k);
                        }
                    }
                    if t0.contains(k) {
                        let j = choose|j: int| 0 <= j < t0.len() && t0[j] == k;
                        assert(t1[j] == k);
                    }
                    if k == a@ {
                        assert(t1[i as int] == k);
                    }
                }
                assert(states@ =~= rebuilt_states(v, t1, created@));
            }
            i = i + 1;
        }
        proof {
            assert(new.take(new_addresses@.len() as int) =~= new);
        }
        self.subchannels = new_addresses;
        self.subchannel_states = states;
        let ghost v1 = self@;
        proof {
            assert(v1 =~= (PfView { subchannels: new, states: rebuilt_states(v, new, created@), ..v }));
            assert forall|k: int| 0 <= k < v1.subchannels.len() implies #[trigger] v1.states.dom().contains(
                v1.subchannels[k],
            ) by {
                assert(new.contains(new[k]));
            }
        }
        let mut actions: Vec<PickFirstAction> = Vec::new();
        proof {
            assert(actions_view(actions@) =~= Seq::<ActionView>::empty());
        }
        if !sticky {
            self.start_connection_pass(&mut actions);
            proof {
                assert(actions_view(actions@) =~= spec_start_pass(v1).1);
            }
        }
        actions
    }

    /// A resolver update with endpoints, in the order in which their
    /// addresses are to be tried. With no address at all, the policy goes to
    /// transient failure and the update is refused; otherwise the channel
    /// must provide subchannels for the addresses returned, then call
    /// `apply_addresses`.
    pub fn update_endpoints(&mut self, endpoints: &Vec<Vec<Address>>) -> (r: ResolverUpdateStep)
        requires
            old(self).wf(),
        ensures
            final(self).wf(),
            (final(self)@, step_view(r)) == spec_update_endpoints(old(self)@, endpoint_views(endpoints@)),
    {
        let ghost v = old(self)@;
        self.steady_state = None;
        let addresses = compile_addresses(endpoints);
        if addresses.len() == 0 {
            self.subchannels = Vec::new();
            self.selected = None;
            let error = match &self.last_resolver_error {
                Some(e) => e.clone(),
                None => String::from_str("empty address list"),
            };
            let ghost e = error@;
            let ghost v1 = self@;
            proof {
                assert(addr_views(self.subchannels@) =~= Seq::<(Seq<char>, Seq<char>)>::empty());
                assert(v1 =~= (PfView {
                    subchannels: Seq::empty(),
                    selected: None,
                    steady: None,
                    ..v
                }));
            }
            let mut actions: Vec<PickFirstAction> = Vec::new();
            proof {
                assert(actions_view(actions@) =~= Seq::<ActionView>::empty());
            }
            self.set_transient_failure(error.clone(), &mut actions);
            proof {
                assert(actions_view(actions@) =~= spec_set_failure(v1, e).1);
            }
            ResolverUpdateStep::Done(actions, Err(error))
        } else {
            proof {
                assert(self@ =~= (PfView { steady: None, ..v }));
            }
            ResolverUpdateStep::Addresses(addresses)
        }
    }

    /// A resolver update that carries an error instead of endpoints.
    pub fn resolver_error(&mut self, error: String) -> (r: ResolverUpdateStep)
        requires
            old(self).wf(),
        ensures
            final(self).wf(),
            (final(self)@, step_view(r)) == spec_resolver_error(old(self)@, error@),
    {
        let ghost v = old(self)@;
        let ghost e = error@;
        self.steady_state = None;
        self.last_resolver_error = Some(error.clone());
        let ghost v0 = self@;
        proof {
            assert(v0 =~= (PfView { steady: None, resolver_error: Some(e), ..v }));
        }
        let mut actions: Vec<PickFirstAction> = Vec::new();
        proof {
            assert(actions_view(actions@) =~= Seq::<ActionView>::empty());
        }
        if self.subchannels.len() == 0 || self.connectivity_state == ConnectivityState::TransientFailure {
            self.set_transient_failure(error.clone(), &mut actions);
            proof {
                assert(actions_view(actions@) =~= spec_set_failure(v0, e).1);
            }
            ResolverUpdateStep::Done(actions, Err(error))
        } else {
            ResolverUpdateStep::Done(actions, Ok(()))
        }
    }

    /// A resolver update: either endpoints or an error. With endpoints, and
    /// `shuffle_address_list` set in `config`, the endpoints are shuffled
    /// first; the result is then that of `update_endpoints` on some
    /// reordering of them.
    pub fn resolver_update(
        &mut self,
        endpoints: Result<Vec<Vec<Address>>, String>,
        config: Option<&PickFirstConfig>,
    ) -> (r: ResolverUpdateStep)
        requires
            old(self).wf(),
        ensures
            final(self).wf(),
            match endpoints {
                Err(e) => (final(self)@, step_view(r)) == spec_resolver_error(old(self)@, e@),
                Ok(eps) => exists|order: Seq<Vec<Address>>|
                    {
                        &&& (if config matches Some(c) && c.shuffle_address_list {
                            order.to_multiset() == eps@.to_multiset()
                        } else {
                            order == eps@
                        })
                        &&& (final(self)@, step_view(r)) == spec_update_endpoints(
                            old(self)@,
                            endpoint_views(order),
                        )
                    },
            },
    {
        match endpoints {
            Err(e) => self.resolver_error(e),
            Ok(eps) => {
                let mut eps = eps;
                let shuffle = match config {
                    Some(c) => c.shuffle_address_list,
                    None => false,
                };
                if shuffle {
                    shuffle_endpoints(&mut eps);
                }
                let r = self.update_endpoints(&eps);
                proof {
                    let order = eps@;
                    assert((final(self)@, step_view(r)) == spec_update_endpoints(old(self)@, endpoint_views(order)));
                }
                r
            },
        }
    }
}

/// Shuffles `endpoints` in place with the thread-local random generator.
/// The contract states that the result is a reordering of the input, which
/// is what `rand::seq::SliceRandom::shuffle` does (it only swaps elements);
/// which reordering comes out is left open.
#[verifier::external_body]
fn shuffle_endpoints(endpoints: &mut Vec<Vec<Address>>)
    ensures
        final(endpoints)@.to_multiset() == old(endpoints)@.to_multiset(),
{
    let mut rng = rand::rng();
    endpoints.as_mut_slice().shuffle(&mut rng);
}

} // verus!
