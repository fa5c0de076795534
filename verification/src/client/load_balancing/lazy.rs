//! A policy wrapper that builds its delegate policy only when it is first
//! asked to leave `Idle` (a pick woke it up, or the channel asked it to
//! connect). Until then it publishes an idle picker that wakes it, and it
//! keeps the latest resolver update for the delegate.

use crate::client::name_resolution::WorkScheduler;
use std::sync::Arc;
use vstd::prelude::*;

verus! {

/// What the channel does after an event of the lazy wrapper.
#[derive(Debug)]
pub enum LazyAction<U> {
    /// Nothing: the event was kept or dropped.
    Nothing,
    /// Hand the event to the built delegate.
    Forward,
    /// Build the delegate, then hand it this update (asking for
    /// re-resolution if it refuses it).
    BuildAndUpdate(U),
    /// Build the delegate, then ask it to leave `Idle`.
    BuildAndExitIdle,
}

/// An event of the lazy wrapper.
pub enum LazyEvent<U> {
    ResolverUpdate(U),
    SubchannelUpdate,
    Work,
    ExitIdle,
}

/// The state of the lazy wrapper: whether the delegate is built, and the
/// latest update kept for it meanwhile.
pub struct Lazy<U> {
    built: bool,
    latest: Option<U>,
}

/// One step of the wrapper: its next state, and what the channel does.
pub open spec fn lazy_step<U>(s: (bool, Option<U>), e: LazyEvent<U>) -> ((bool, Option<U>), LazyAction<U>) {
    match e {
        LazyEvent::ResolverUpdate(u) => if s.0 {
            (s, LazyAction::Forward)
        } else {
            ((false, Some(u)), LazyAction::Nothing)
        },
        LazyEvent::SubchannelUpdate => if s.0 {
            (s, LazyAction::Forward)
        } else {
            (s, LazyAction::Nothing)
        },
        LazyEvent::Work | LazyEvent::ExitIdle => if s.0 {
            (s, LazyAction::Forward)
        } else {
            (
                (true, None),
                match s.1 {
                    Some(u) => LazyAction::BuildAndUpdate(u),
                    None => LazyAction::BuildAndExitIdle,
                },
            )
        },
    }
}

/// The state after a sequence of events.
pub open spec fn lazy_run<U>(s: (bool, Option<U>), es: Seq<LazyEvent<U>>) -> (bool, Option<U>)
    decreases es.len(),
{
    if es.len() == 0 {
        s
    } else {
        lazy_step(lazy_run(s, es.drop_last()), es.last()).0
    }
}

/// The update of the last resolver-update event of `es`, if any.
pub open spec fn last_update<U>(es: Seq<LazyEvent<U>>) -> Option<U>
    decreases es.len(),
{
    if es.len() == 0 {
        None
    } else if es.last() is ResolverUpdate {
        Some(es.last()->ResolverUpdate_0)
    } else {
        last_update(es.drop_last())
    }
}

impl<U> Lazy<U> {
    pub closed spec fn state(&self) -> (bool, Option<U>) {
        (self.built, self.latest)
    }

    /// A wrapper whose delegate is not built yet, with no update kept. The
    /// channel publishes an idle picker that wakes it.
    pub fn new() -> (r: Self)
        ensures
            r.state() == (false, Option::<U>::None),
    {
        Lazy { built: false, latest: None }
    }

    /// Whether the delegate is built.
    pub fn is_built(&self) -> (r: bool)
        ensures
            r == self.state().0,
    {
        self.built
    }

    /// A resolver update: kept (replacing any kept before) until the
    /// delegate is built, then forwarded, in which case it comes back.
    pub fn resolver_update(&mut self, update: U) -> (r: Option<U>)
        ensures
            final(self).state() == lazy_step(old(self).state(), LazyEvent::ResolverUpdate(update)).0,
            match r {
                Some(u) => old(self).state().0 && u == update,
                None => !old(self).state().0,
            },
    {
        if self.built {
            Some(update)
        } else {
            self.latest = Some(update);
            None
        }
    }

    /// A subchannel update: forwarded once the delegate is built, dropped
    /// before.
    pub fn subchannel_update(&mut self) -> (r: LazyAction<U>)
        ensures
            (final(self).state(), r) == lazy_step(old(self).state(), LazyEvent::SubchannelUpdate),
    {
        if self.built {
            LazyAction::Forward
        } else {
            LazyAction::Nothing
        }
    }

    /// The delegate is asked to leave `Idle`: it is built now if it was
    /// not, and gets the kept update, if any.
    pub fn exit_idle(&mut self) -> (r: LazyAction<U>)
        ensures
            (final(self).state(), r) == lazy_step(old(self).state(), LazyEvent::ExitIdle),
    {
        if self.built {
            return LazyAction::Forward;
        }
        self.built = true;
        let mut latest: Option<U> = None;
        std::mem::swap(&mut latest, &mut self.latest);
        match latest {
            Some(u) => LazyAction::BuildAndUpdate(u),
            None => LazyAction::BuildAndExitIdle,
        }
    }

    /// The wrapper is asked to do work; before the delegate is built this
    /// only happens because its idle picker woke it, so it leaves `Idle`.
    pub fn work(&mut self) -> (r: LazyAction<U>)
        ensures
            (final(self).state(), r) == lazy_step(old(self).state(), LazyEvent::Work),
    {
        self.exit_idle()
    }
}

/// A picker that wakes the wrapped policy up (by scheduling work for it) and
/// queues every RPC.
pub struct WakeUpPicker<W: ?Sized> {
    work_scheduler: Arc<W>,
}

impl<W: WorkScheduler + ?Sized> WakeUpPicker<W> {
    /// The work scheduler a pick schedules work on.
    pub closed spec fn work_scheduler_of(&self) -> Arc<W> {
        self.work_scheduler
    }

    /// A picker that schedules work on `work_scheduler`.
    pub fn new(work_scheduler: Arc<W>) -> (r: Self)
        ensures
            r.work_scheduler_of() == work_scheduler,
    {
        WakeUpPicker { work_scheduler }
    }

    /// A pick: schedules work for the wrapped policy; the RPC is queued.
    pub fn wake(&self) {
        self.work_scheduler.schedule_work();
    }
}

/// Updates are not lost: until the delegate is built, the wrapper keeps the
/// latest resolver update it received; and the delegate is built exactly
/// once some work or exit-idle event came. When it is built, it is handed
/// that latest update (or asked to leave `Idle` when there was none).
pub proof fn lemma_lazy_keeps_latest_update<U>(es: Seq<LazyEvent<U>>, e: LazyEvent<U>)
    ensures
        lazy_run((false, None), es).0 <==> exists|i: int| 0 <= i < es.len() && (es[i] is Work || es[i] is ExitIdle),
        !lazy_run((false, None), es).0 ==> lazy_run((false, None), es).1 == last_update(es),
        lazy_run((false, None), es).0 ==> lazy_run((false, None), es).1 is None,
        !lazy_run((false, None), es).0 && (e is Work || e is ExitIdle) ==> lazy_step(lazy_run((false, None), es), e).1
            == match last_update(es) {
            Some(u) => LazyAction::BuildAndUpdate(u),
            None => LazyAction::<U>::BuildAndExitIdle,
        },
    decreases es.len(),
{
    if es.len() > 0 {
        let p = es.drop_last();
        lemma_lazy_keeps_latest_update(p, e);
        assert((exists|i: int| 0 <= i < es.len() && (es[i] is Work || es[i] is ExitIdle)) <==> ((exists|i: int|
            0 <= i < p.len() && (p[i] is Work || p[i] is ExitIdle)) || es.last() is Work || es.last() is ExitIdle)) by {
            if exists|i: int| 0 <= i < es.len() && (es[i] is Work || es[i] is ExitIdle) {
                let i = choose|i: int| 0 <= i < es.len() && (es[i] is Work || es[i] is ExitIdle);
                if i < p.len() {
                    assert(p[i] == es[i]);
                }
            }
            if exists|i: int| 0 <= i < p.len() && (p[i] is Work || p[i] is ExitIdle) {
                let i = choose|i: int| 0 <= i < p.len() && (p[i] is Work || p[i] is ExitIdle);
                assert(es[i] == p[i]);
            }
        }
    }
}

} // verus!
