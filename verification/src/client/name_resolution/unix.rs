//! The resolvers of Unix domain sockets: `unix:path`, `unix:///absolute_path`
//! and (on Linux) `unix-abstract:name`. They resolve without any lookup:
//! the address is the path of the target.

use crate::client::name_resolution::target::{host_port_string, Target};
use crate::client::name_resolution::Address;
use vstd::prelude::*;

verus! {

/// The network type of Unix domain sockets.
pub fn unix_network_type() -> (r: &'static str)
    ensures
        r@ == "unix"@,
{
    "unix"
}

/// The authority a channel to a Unix socket uses by default.
pub fn unix_default_authority() -> (r: String)
    ensures
        r@ == "localhost"@,
{
    String::from_str("localhost")
}

/// The error for a Unix target that has an authority.
pub open spec fn authority_error(host_port: Seq<char>) -> Seq<char> {
    "invalid (non-empty) authority: "@ + host_port
}

fn authority_refusal(host_port: &String) -> (r: String)
    ensures
        r@ == authority_error(host_port@),
{
    let mut msg = String::from_str("invalid (non-empty) authority: ");
    msg.append(host_port.as_str());
    msg
}

/// The socket address of a `unix` target: its path, as it is (relative or
/// absolute); a target with an authority is refused.
pub fn parse_unix_target(target: &Target) -> (r: Result<Address, String>)
    ensures
        match r {
            Ok(a) => host_port_string(target.view()).len() == 0 && a@ == ("unix"@, target.view().path),
            Err(e) => host_port_string(target.view()).len() > 0 && e@ == authority_error(
                host_port_string(target.view()),
            ),
        },
{
    let host_port = target.authority_host_port();
    if host_port.unicode_len() > 0 {
        return Err(authority_refusal(&host_port));
    }
    Ok(Address::new(unix_network_type(), target.path()))
}

/// The socket address of a `unix-abstract` target: its path, behind the
/// NUL byte that puts it in the abstract namespace; a target with an
/// authority is refused.
pub fn parse_unix_abstract_target(target: &Target) -> (r: Result<Address, String>)
    ensures
        match r {
            Ok(a) => host_port_string(target.view()).len() == 0 && a@ == (
                "unix"@,
                seq!['\0'] + target.view().path,
            ),
            Err(e) => host_port_string(target.view()).len() > 0 && e@ == authority_error(
                host_port_string(target.view()),
            ),
        },
{
    let host_port = target.authority_host_port();
    if host_port.unicode_len() > 0 {
        return Err(authority_refusal(&host_port));
    }
    let mut name = String::from_str("\0");
    proof {
        reveal_strlit("\0");
    }
    name.append(target.path());
    Ok(Address { network_type: String::from_str(unix_network_type()), address: name })
}

} // verus!
