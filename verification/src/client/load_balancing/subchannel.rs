//! Subchannels: the connections a load-balancing policy manages.

use crate::client::ConnectivityState;
use vstd::prelude::*;

verus! {

/// The state of a subchannel.
#[derive(Debug, Clone)]
pub struct SubchannelState {
    /// The connectivity state of the subchannel.
    pub connectivity_state: ConnectivityState,
    /// In `TransientFailure`, the most recent connection error; `None` in any
    /// other state.
    pub last_connection_error: Option<String>,
}

impl SubchannelState {
    pub fn idle() -> (r: Self)
        ensures
            r.connectivity_state == ConnectivityState::Idle,
            r.last_connection_error is None,
    {
        SubchannelState { connectivity_state: ConnectivityState::Idle, last_connection_error: None }
    }

    pub fn ready() -> (r: Self)
        ensures
            r.connectivity_state == ConnectivityState::Ready,
            r.last_connection_error is None,
    {
        SubchannelState { connectivity_state: ConnectivityState::Ready, last_connection_error: None }
    }

    pub fn connecting() -> (r: Self)
        ensures
            r.connectivity_state == ConnectivityState::Connecting,
            r.last_connection_error is None,
    {
        SubchannelState { connectivity_state: ConnectivityState::Connecting, last_connection_error: None }
    }

    pub fn transient_failure(last_connection_error: String) -> (r: Self)
        ensures
            r.connectivity_state == ConnectivityState::TransientFailure,
            r.last_connection_error == Some(last_connection_error),
    {
        SubchannelState {
            connectivity_state: ConnectivityState::TransientFailure,
            last_connection_error: Some(last_connection_error),
        }
    }
}

/// Marks the subchannel implementations that the channel provides.
pub trait Sealed {

}

} // verus!
