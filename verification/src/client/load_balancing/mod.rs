//! Load-balancing policies: the decisions they take on resolver and
//! subchannel updates.

use crate::client::ConnectivityState;
use vstd::prelude::*;

pub mod child_manager;
pub mod graceful_switch;
pub mod lazy;
pub mod pick_first;
pub mod pick_first_properties;
pub mod round_robin;
pub mod state_cache;
pub mod subchannel;
pub mod utils;

verus! {

/// The state a set of children reports together: `Ready` if any child is
/// ready, otherwise `Connecting` if any is connecting, otherwise `Idle` if any
/// is idle, otherwise `TransientFailure`.
pub open spec fn aggregate_spec(s: Seq<ConnectivityState>) -> ConnectivityState {
    if s.contains(ConnectivityState::Ready) {
        ConnectivityState::Ready
    } else if s.contains(ConnectivityState::Connecting) {
        ConnectivityState::Connecting
    } else if s.contains(ConnectivityState::Idle) {
        ConnectivityState::Idle
    } else {
        ConnectivityState::TransientFailure
    }
}

/// Aggregates the connectivity states of child policies.
pub fn aggregate_states(states: &Vec<ConnectivityState>) -> (r: ConnectivityState)
    ensures
        r == aggregate_spec(states@),
{
    let mut is_connecting = false;
    let mut is_idle = false;
    let mut i: usize = 0;
    while i < states.len()
        invariant
            0 <= i <= states@.len(),
            !states@.take(i as int).contains(ConnectivityState::Ready),
            is_connecting == states@.take(i as int).contains(ConnectivityState::Connecting),
            is_idle == states@.take(i as int).contains(ConnectivityState::Idle),
        decreases states@.len() - i,
    {
        let s = states[i];
        proof {
            assert(states@.take(i + 1) =~= states@.take(i as int).push(s));
            assert(states@.take(i + 1)[i as int] == s);
        }
        match s {
            ConnectivityState::Ready => {
                return ConnectivityState::Ready;
            },
            ConnectivityState::Connecting => {
                is_connecting = true;
            },
            ConnectivityState::Idle => {
                is_idle = true;
            },
            ConnectivityState::TransientFailure => {},
        }
        i = i + 1;
    }
    proof {
        assert(states@.take(states@.len() as int) =~= states@);
    }
    if is_connecting {
        ConnectivityState::Connecting
    } else if is_idle {
        ConnectivityState::Idle
    } else {
        ConnectivityState::TransientFailure
    }
}

} // verus!
