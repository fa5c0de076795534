//! Name resolution: the addresses a channel's target resolves to.

use vstd::prelude::*;

verus! {

/// How to connect to a server: a network type, which selects the transport
/// (typically `tcp`), and the address passed to it.
#[derive(Debug)]
pub struct Address {
    pub network_type: String,
    pub address: String,
}

impl View for Address {
    type V = (Seq<char>, Seq<char>);

    open spec fn view(&self) -> (Seq<char>, Seq<char>) {
        (self.network_type@, self.address@)
    }
}

impl Clone for Address {
    fn clone(&self) -> (r: Self)
        ensures
            r@ == self@,
    {
        Address { network_type: self.network_type.clone(), address: self.address.clone() }
    }
}

impl Address {
    /// An address of the given network type.
    pub fn new(network_type: &str, address: &str) -> (r: Self)
        ensures
            r@ == (network_type@, address@),
    {
        Address { network_type: String::from_str(network_type), address: String::from_str(address) }
    }

    /// Whether two addresses are equal: same network type, same address.
    pub fn same(&self, other: &Address) -> (r: bool)
        ensures
            r == (self@ == other@),
    {
        self.network_type == other.network_type && self.address == other.address
    }
}

/// The network type of addresses connected to over TCP/IP.
pub fn tcp_ip_network_type() -> (r: &'static str)
    ensures
        r@ == "tcp"@,
{
    "tcp"
}

/// Used to ask, asynchronously, for a call into the `work` method of a
/// resolver or a policy.
pub trait WorkScheduler: Send + Sync {
    /// Schedules a call into `work`. If a call is already pending and has
    /// not started yet, this may not schedule another one.
    fn schedule_work(&self);
}

} // verus!

pub mod dns;
pub mod target;
pub mod unix;
