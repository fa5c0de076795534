//! Client-side types: call and send options, connectivity states, the items
//! of a response stream, stream validation and load-balancing decisions.

use crate::core_types::ResponseHeaders;
use crate::core_types::Trailers;
use std::time::Instant;
use vstd::prelude::*;

pub mod channel;
pub mod interceptor;
pub mod load_balancing;
pub mod metadata_utils;
pub mod name_resolution;
pub mod stream_util;
pub mod subchannel;
pub mod transport;

verus! {

#[verifier::external_type_specification]
#[verifier::external_body]
pub struct ExInstant(Instant);

/// The state of a channel, also used for the state of subchannels.
///
/// A channel begins `Idle`; it becomes `Connecting` when an RPC is attempted,
/// `Ready` when a connection to a backend is available, and
/// `TransientFailure` when RPCs would fail for lack of connections.
#[derive(Copy, Clone, PartialEq, Eq, Debug, Structural)]
pub enum ConnectivityState {
    /// Not currently connected to any backend.
    Idle,
    /// Actively connecting to one or more backends, none connected yet.
    Connecting,
    /// Connected to at least one backend.
    Ready,
    /// Failed to connect to its backends.
    TransientFailure,
}

impl Default for ConnectivityState {
    fn default() -> (r: Self)
        ensures
            r == ConnectivityState::Idle,
    {
        ConnectivityState::Idle
    }
}

impl ConnectivityState {
    /// The name of the state, as it is displayed.
    pub fn name(&self) -> (r: &'static str)
        ensures
            r@ == match self {
                ConnectivityState::Idle => "Idle"@,
                ConnectivityState::Connecting => "Connecting"@,
                ConnectivityState::Ready => "Ready"@,
                ConnectivityState::TransientFailure => "TransientFailure"@,
            },
    {
        match self {
            ConnectivityState::Idle => "Idle",
            ConnectivityState::Connecting => "Connecting",
            ConnectivityState::Ready => "Ready",
            ConnectivityState::TransientFailure => "TransientFailure",
        }
    }
}

/// Settings of an RPC.
#[derive(Clone, Copy)]
#[non_exhaustive]
pub struct CallOptions {
    /// The deadline of the call.  If unset, the call may run indefinitely.
    deadline: Option<Instant>,
}

impl Default for CallOptions {
    fn default() -> (r: Self)
        ensures
            r.deadline_of() is None,
    {
        CallOptions { deadline: None }
    }
}

impl CallOptions {
    pub closed spec fn deadline_of(&self) -> Option<Instant> {
        self.deadline
    }

    /// Options with the default settings: no deadline.
    pub fn new() -> (r: Self)
        ensures
            r.deadline_of() is None,
    {
        Self::default()
    }

    /// Applies a deadline to the call; when it is reached, the call is
    /// cancelled.
    pub fn set_deadline(&mut self, deadline: Instant)
        ensures
            final(self).deadline_of() == Some(deadline),
    {
        self.deadline = Some(deadline);
    }

    /// The deadline currently set.
    pub fn deadline(&self) -> (r: Option<Instant>)
        ensures
            r == self.deadline_of(),
    {
        self.deadline
    }
}

/// Settings for sending one request message on a client send stream.
#[derive(Clone, Copy)]
#[non_exhaustive]
pub struct SendOptions {
    /// Closes the stream immediately after sending this message.
    pub final_msg: bool,
    /// If set, compression is disabled for this message.
    pub disable_compression: bool,
}

impl Default for SendOptions {
    fn default() -> (r: Self)
        ensures
            !r.final_msg,
            !r.disable_compression,
    {
        SendOptions { final_msg: false, disable_compression: false }
    }
}

impl SendOptions {
    /// Options with the default settings: neither flag set.
    pub fn new() -> (r: Self)
        ensures
            !r.final_msg,
            !r.disable_compression,
    {
        Self::default()
    }

    /// Sets the "final message" flag: the message sent with these options is
    /// the last request message of the stream.
    pub fn with_final_msg(self, final_msg: bool) -> (r: Self)
        ensures
            r.final_msg == final_msg,
            r.disable_compression == self.disable_compression,
    {
        SendOptions { final_msg, ..self }
    }

    /// Sets the "disable compression" flag.  If compression is not enabled on
    /// the stream, this has no effect.
    pub fn with_disable_compression(self, disable_compression: bool) -> (r: Self)
        ensures
            r.final_msg == self.final_msg,
            r.disable_compression == disable_compression,
    {
        SendOptions { disable_compression, ..self }
    }
}

/// An item of a response stream as the client sees it.
///
/// A response stream contains items exactly as follows: optionally Headers
/// and any number of Messages, then Trailers, then any number of
/// StreamClosed.
#[derive(Debug)]
pub enum ResponseStreamItem {
    /// The headers of the stream.
    Headers(ResponseHeaders),
    /// A message on the stream.
    Message,
    /// The trailers of the stream.
    Trailers(Trailers),
    /// The stream was closed; trailers came before.
    StreamClosed,
}

} // verus!
