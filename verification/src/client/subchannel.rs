//! The lifecycle of a channel's internal subchannel: one connection to one
//! address. Its phases go
//!
//! Idle -> Connecting -> Ready -> Idle (after a disconnection), or
//! Idle -> Connecting -> TransientFailure -> Idle (after the backoff).
//!
//! The connection attempt, the backoff wait and the watchers' notification
//! are run by the channel; here are the transitions and what each asks for.

use crate::client::load_balancing::subchannel::SubchannelState;
use crate::client::ConnectivityState;
use std::time::Duration;
use std::time::Instant;
use vstd::prelude::*;
use vstd::std_specs::cmp::PartialEqSpecImpl;

verus! {

/// How long a subchannel waits before it connects again, and how long a
/// connection attempt may take.
pub trait Backoff {
    /// The time until which to wait before the next connection attempt.
    fn backoff_until(&self) -> Instant;

    /// Starts the backoff over, after a successful connection.
    fn reset(&self);

    /// How long a connection attempt may take.
    fn min_connect_timeout(&self) -> Duration;
}

/// The phase of an internal subchannel.
#[derive(Debug, Clone)]
pub enum SubchannelPhase {
    Idle,
    Connecting,
    Ready,
    /// The connection attempt failed with this error.
    TransientFailure(String),
}

/// Whether two phases are the same phase (the errors of two failures are
/// not compared).
pub open spec fn same_phase(a: SubchannelPhase, b: SubchannelPhase) -> bool {
    match (a, b) {
        (SubchannelPhase::Idle, SubchannelPhase::Idle) => true,
        (SubchannelPhase::Connecting, SubchannelPhase::Connecting) => true,
        (SubchannelPhase::Ready, SubchannelPhase::Ready) => true,
        (SubchannelPhase::TransientFailure(_), SubchannelPhase::TransientFailure(_)) => true,
        _ => false,
    }
}

impl PartialEq for SubchannelPhase {
    fn eq(&self, other: &Self) -> (r: bool) {
        match (self, other) {
            (SubchannelPhase::Idle, SubchannelPhase::Idle) => true,
            (SubchannelPhase::Connecting, SubchannelPhase::Connecting) => true,
            (SubchannelPhase::Ready, SubchannelPhase::Ready) => true,
            (SubchannelPhase::TransientFailure(_), SubchannelPhase::TransientFailure(_)) => true,
            _ => false,
        }
    }
}

impl PartialEqSpecImpl for SubchannelPhase {
    open spec fn obeys_eq_spec() -> bool {
        true
    }

    open spec fn eq_spec(&self, other: &Self) -> bool {
        same_phase(*self, *other)
    }
}

pub enum PhaseView {
    Idle,
    Connecting,
    Ready,
    TransientFailure(Seq<char>),
}

pub open spec fn phase_view(p: SubchannelPhase) -> PhaseView {
    match p {
        SubchannelPhase::Idle => PhaseView::Idle,
        SubchannelPhase::Connecting => PhaseView::Connecting,
        SubchannelPhase::Ready => PhaseView::Ready,
        SubchannelPhase::TransientFailure(e) => PhaseView::TransientFailure(e@),
    }
}

/// The state watchers of a subchannel in phase `p` are told.
pub open spec fn watched_state(p: PhaseView) -> (ConnectivityState, Option<Seq<char>>) {
    match p {
        PhaseView::Idle => (ConnectivityState::Idle, None),
        PhaseView::Connecting => (ConnectivityState::Connecting, None),
        PhaseView::Ready => (ConnectivityState::Ready, None),
        PhaseView::TransientFailure(e) => (ConnectivityState::TransientFailure, Some(e)),
    }
}

pub open spec fn state_view(s: SubchannelState) -> (ConnectivityState, Option<Seq<char>>) {
    (
        s.connectivity_state,
        match s.last_connection_error {
            Some(e) => Some(e@),
            None => None,
        },
    )
}

/// The state watchers are told of a subchannel in phase `p`.
pub fn state_of_phase(p: &SubchannelPhase) -> (r: SubchannelState)
    ensures
        state_view(r) == watched_state(phase_view(*p)),
{
    match p {
        SubchannelPhase::Idle => SubchannelState::idle(),
        SubchannelPhase::Connecting => SubchannelState::connecting(),
        SubchannelPhase::Ready => SubchannelState::ready(),
        SubchannelPhase::TransientFailure(e) => SubchannelState::transient_failure(e.clone()),
    }
}

/// An event in the life of a subchannel.
pub enum SubchannelEvent {
    /// A policy asked the subchannel to connect.
    Connect,
    /// The transport connected.
    Connected,
    /// The transport failed to connect, with this error.
    ConnectFailed(String),
    /// The connection attempt took longer than the minimum connect timeout.
    ConnectTimeout,
    /// The connection was lost.
    Disconnected,
    /// The backoff after a failure is over.
    BackoffExpired,
}

/// What the channel does for a subchannel after an event.
#[derive(Debug)]
pub enum SubchannelAction {
    /// Start connecting, with the minimum connect timeout.
    StartConnecting,
    /// Reset the backoff.
    ResetBackoff,
    /// Wait until the backoff is over.
    WaitBackoff,
    /// Tell the watchers of the new state.
    Notify(SubchannelState),
}

pub enum SubchannelActionView {
    StartConnecting,
    ResetBackoff,
    WaitBackoff,
    Notify((ConnectivityState, Option<Seq<char>>)),
}

pub open spec fn sub_actions_view(s: Seq<SubchannelAction>) -> Seq<SubchannelActionView> {
    s.map_values(
        |a: SubchannelAction|
            match a {
                SubchannelAction::StartConnecting => SubchannelActionView::StartConnecting,
                SubchannelAction::ResetBackoff => SubchannelActionView::ResetBackoff,
                SubchannelAction::WaitBackoff => SubchannelActionView::WaitBackoff,
                SubchannelAction::Notify(st) => SubchannelActionView::Notify(state_view(st)),
            },
    )
}

pub enum EventView {
    Connect,
    Connected,
    ConnectFailed(Seq<char>),
    ConnectTimeout,
    Disconnected,
    BackoffExpired,
}

pub open spec fn event_view(e: SubchannelEvent) -> EventView {
    match e {
        SubchannelEvent::Connect => EventView::Connect,
        SubchannelEvent::Connected => EventView::Connected,
        SubchannelEvent::ConnectFailed(s) => EventView::ConnectFailed(s@),
        SubchannelEvent::ConnectTimeout => EventView::ConnectTimeout,
        SubchannelEvent::Disconnected => EventView::Disconnected,
        SubchannelEvent::BackoffExpired => EventView::BackoffExpired,
    }
}

/// One transition: a connect request starts an attempt from `Idle` only; a
/// connection makes the subchannel ready (the backoff starts over); a
/// failure or a timeout puts it in transient failure until the backoff is
/// over; a lost connection or the end of the backoff makes it idle. Every
/// change of phase is told to the watchers.
pub open spec fn subchannel_step(p: PhaseView, e: EventView) -> (PhaseView, Seq<SubchannelActionView>) {
    match e {
        EventView::Connect => if p is Idle {
            (
                PhaseView::Connecting,
                seq![
                    SubchannelActionView::Notify(watched_state(PhaseView::Connecting)),
                    SubchannelActionView::StartConnecting,
                ],
            )
        } else {
            (p, Seq::empty())
        },
        EventView::Connected => (
            PhaseView::Ready,
            seq![
                SubchannelActionView::ResetBackoff,
                SubchannelActionView::Notify(watched_state(PhaseView::Ready)),
            ],
        ),
        EventView::ConnectFailed(err) => (
            PhaseView::TransientFailure(err),
            seq![
                SubchannelActionView::Notify(watched_state(PhaseView::TransientFailure(err))),
                SubchannelActionView::WaitBackoff,
            ],
        ),
        EventView::ConnectTimeout => (
            PhaseView::TransientFailure("connect timeout expired"@),
            seq![
                SubchannelActionView::Notify(
                    watched_state(PhaseView::TransientFailure("connect timeout expired"@)),
                ),
                SubchannelActionView::WaitBackoff,
            ],
        ),
        EventView::Disconnected | EventView::BackoffExpired => (
            PhaseView::Idle,
            seq![SubchannelActionView::Notify(watched_state(PhaseView::Idle))],
        ),
    }
}

/// The phase of an internal subchannel, which starts idle.
#[derive(Debug)]
pub struct SubchannelLifecycle {
    phase: SubchannelPhase,
}

impl SubchannelLifecycle {
    pub closed spec fn phase(&self) -> PhaseView {
        phase_view(self.phase)
    }

    pub fn new() -> (r: Self)
        ensures
            r.phase() == PhaseView::Idle,
    {
        SubchannelLifecycle { phase: SubchannelPhase::Idle }
    }

    /// The state the watchers are told, such as one that registers now.
    pub fn state(&self) -> (r: SubchannelState)
        ensures
            state_view(r) == watched_state(self.phase()),
    {
        state_of_phase(&self.phase)
    }

    fn move_to(&mut self, p: SubchannelPhase, actions: &mut Vec<SubchannelAction>)
        ensures
            final(self).phase() == phase_view(p),
            sub_actions_view(final(actions)@) == sub_actions_view(old(actions)@).push(
                SubchannelActionView::Notify(watched_state(phase_view(p))),
            ),
    {
        let ghost a0 = actions@;
        self.phase = p;
        let st = state_of_phase(&self.phase);
        actions.push(SubchannelAction::Notify(st));
        proof {
            assert(sub_actions_view(actions@) =~= sub_actions_view(a0).push(
                SubchannelActionView::Notify(watched_state(phase_view(p))),
            ));
        }
    }

    /// Handles an event; see `subchannel_step`.
    pub fn handle(&mut self, event: SubchannelEvent) -> (r: Vec<SubchannelAction>)
        ensures
            (final(self).phase(), sub_actions_view(r@)) == subchannel_step(old(self).phase(), event_view(event)),
    {
        let ghost p0 = self.phase();
        let ghost ev = event_view(event);
        let mut actions: Vec<SubchannelAction> = Vec::new();
        proof {
            assert(sub_actions_view(actions@) =~= Seq::<SubchannelActionView>::empty());
        }
        match event {
            SubchannelEvent::Connect => {
                let idle = match self.phase {
                    SubchannelPhase::Idle => true,
                    _ => false,
                };
                if idle {
                    self.move_to(SubchannelPhase::Connecting, &mut actions);
                    let ghost a1 = actions@;
                    actions.push(SubchannelAction::StartConnecting);
                    proof {
                        assert(sub_actions_view(actions@) =~= sub_actions_view(a1).push(
                            SubchannelActionView::StartConnecting,
                        ));
                    }
                }
            },
            SubchannelEvent::Connected => {
                actions.push(SubchannelAction::ResetBackoff);
                let ghost a1 = actions@;
                proof {
                    assert(sub_actions_view(a1) =~= seq![SubchannelActionView::ResetBackoff]);
                }
                self.move_to(SubchannelPhase::Ready, &mut actions);
            },
            SubchannelEvent::ConnectFailed(err) => {
                self.move_to(SubchannelPhase::TransientFailure(err), &mut actions);
                let ghost a1 = actions@;
                actions.push(SubchannelAction::WaitBackoff);
                proof {
                    assert(sub_actions_view(actions@) =~= sub_actions_view(a1).push(SubchannelActionView::WaitBackoff));
                }
            },
            SubchannelEvent::ConnectTimeout => {
                let err = String::from_str("connect timeout expired");
                self.move_to(SubchannelPhase::TransientFailure(err), &mut actions);
                let ghost a1 = actions@;
                actions.push(SubchannelAction::WaitBackoff);
                proof {
                    assert(sub_actions_view(actions@) =~= sub_actions_view(a1).push(SubchannelActionView::WaitBackoff));
                }
            },
            SubchannelEvent::Disconnected => {
                self.move_to(SubchannelPhase::Idle, &mut actions);
            },
            SubchannelEvent::BackoffExpired => {
                self.move_to(SubchannelPhase::Idle, &mut actions);
            },
        }
        proof {
            assert((self.phase(), sub_actions_view(actions@)) == subchannel_step(p0, ev));
        }
        actions
    }
}

/// Watchers always learn the subchannel's new phase: after every event that
/// changes the phase, the last action tells the watchers the state of the
/// new phase; and a connection attempt only ever starts from `Idle`.
pub proof fn lemma_watchers_follow_phase(p: PhaseView, e: EventView)
    ensures
        subchannel_step(p, e).0 != p ==> {
            let acts = subchannel_step(p, e).1;
            exists|i: int|
                0 <= i < acts.len() && acts[i] == SubchannelActionView::Notify(watched_state(subchannel_step(p, e).0))
        },
        subchannel_step(p, e).1.contains(SubchannelActionView::StartConnecting) ==> p is Idle,
{
    let (q, acts) = subchannel_step(p, e);
    if q != p {
        match e {
            EventView::Connect => assert(acts[0] == SubchannelActionView::Notify(watched_state(q))),
            EventView::Connected => assert(acts[1] == SubchannelActionView::Notify(watched_state(q))),
            _ => assert(acts[0] == SubchannelActionView::Notify(watched_state(q))),
        }
    }
    if acts.contains(SubchannelActionView::StartConnecting) {
        let i = choose|i: int| 0 <= i < acts.len() && acts[i] == SubchannelActionView::StartConnecting;
        match e {
            EventView::Connect => {},
            EventView::Connected => assert(acts[i] != SubchannelActionView::StartConnecting),
            EventView::ConnectFailed(_) => assert(acts[i] != SubchannelActionView::StartConnecting),
            EventView::ConnectTimeout => assert(acts[i] != SubchannelActionView::StartConnecting),
            _ => assert(acts[i] != SubchannelActionView::StartConnecting),
        }
    }
}

/// A subchannel never stays stuck in transient failure: every step that
/// leaves it in transient failure either waits out the backoff (whose end
/// brings it back to idle) or changes nothing at all; and the end of the
/// backoff always makes it idle.
pub proof fn lemma_failure_waits_for_backoff(p: PhaseView, e: EventView)
    ensures
        subchannel_step(p, e).0 is TransientFailure ==> subchannel_step(p, e).1.contains(
            SubchannelActionView::WaitBackoff,
        ) || (subchannel_step(p, e).0 == p && subchannel_step(p, e).1.len() == 0),
        e is BackoffExpired ==> subchannel_step(p, e).0 is Idle,
{
    let (q, acts) = subchannel_step(p, e);
    if q is TransientFailure {
        match e {
            EventView::ConnectFailed(_) => assert(acts[1] == SubchannelActionView::WaitBackoff),
            EventView::ConnectTimeout => assert(acts[1] == SubchannelActionView::WaitBackoff),
            _ => {},
        }
    }
}

/// What each outcome of a connection attempt does: a connection makes the
/// subchannel ready and starts the backoff over; a failure puts it in
/// transient failure with the failure's error, and a lost connection makes
/// it idle; the watchers are told of each.
pub proof fn lemma_attempt_outcomes(p: PhaseView, e: EventView)
    ensures
        e is Connected ==> subchannel_step(p, e).0 is Ready && subchannel_step(p, e).1.contains(
            SubchannelActionView::ResetBackoff,
        ),
        e matches EventView::ConnectFailed(err) ==> subchannel_step(p, e).0 == PhaseView::TransientFailure(err),
        e is Disconnected ==> subchannel_step(p, e).0 is Idle,
        subchannel_step(p, e).0 != p ==> subchannel_step(p, e).1.contains(
            SubchannelActionView::Notify(watched_state(subchannel_step(p, e).0)),
        ),
{
    let (q, acts) = subchannel_step(p, e);
    if e is Connected {
        assert(acts[0] == SubchannelActionView::ResetBackoff);
    }
    lemma_watchers_follow_phase(p, e);
}

} // verus!
