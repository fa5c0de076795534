//! The DNS resolver's reading of its target: `dns:[//authority/]host[:port]`,
//! where the authority, if any, is the IP address of the DNS server to ask.

use crate::client::name_resolution::target::{
    host_port_string, host_view, parse_url, strip_slash, target_string, url_parsed, Host,
    HostView, Target, TargetView,
};
use vstd::prelude::*;

verus! {

/// The port of an endpoint that does not give one.
pub const DEFAULT_PORT: u16 = 443;

/// The port of a DNS server that does not give one.
pub const DEFAULT_DNS_PORT: u16 = 53;

/// A host and a port.
#[derive(Debug, Clone, PartialEq, Eq)]
pub struct HostPort {
    pub host: Host,
    pub port: u16,
}

/// An IP address.
#[derive(Debug, Clone, Copy, PartialEq, Eq)]
pub enum IpAddress {
    V4(u32),
    V6(u128),
}

/// An IP address and a port.
#[derive(Debug, Clone, Copy, PartialEq, Eq)]
pub struct SocketAddress {
    pub ip: IpAddress,
    pub port: u16,
}

/// The endpoint to resolve, and the DNS server to ask, if the target names
/// one.
#[derive(Debug, Clone, PartialEq, Eq)]
pub struct ParseResult {
    pub endpoint: HostPort,
    pub authority: Option<SocketAddress>,
}

pub open spec fn parse_result_view(r: ParseResult) -> ((HostView, u16), Option<(IpAddress, u16)>) {
    (
        (host_view(r.endpoint.host), r.endpoint.port),
        match r.authority {
            Some(a) => Some((a.ip, a.port)),
            None => None,
        },
    )
}

/// What `host:port` gives, read as the authority of an `https` URL: the
/// host and the port (`default_port` when it gives none), no host at all,
/// or the URL parser's error.
pub open spec fn host_port_spec(s: Seq<char>, default_port: u16) -> Result<Option<(HostView, u16)>, Seq<char>> {
    match url_parsed("https://"@ + s) {
        Err(e) => Err(e),
        Ok(u) => match u.2 {
            None => Ok(None),
            Some(h) => Ok(
                Some(
                    (
                        h,
                        match u.3 {
                            Some(p) => p,
                            None => default_port,
                        },
                    ),
                ),
            ),
        },
    }
}

/// Reads `host_and_port` as `host:port`; see `host_port_spec`.
pub fn parse_host_port(host_and_port: &str, default_port: u16) -> (r: Result<Option<HostPort>, String>)
    ensures
        match r {
            Ok(Some(hp)) => host_port_spec(host_and_port@, default_port) == Ok::<_, Seq<char>>(
                Some((host_view(hp.host), hp.port)),
            ),
            Ok(None) => host_port_spec(host_and_port@, default_port) == Ok::<_, Seq<char>>(
                Option::<(HostView, u16)>::None,
            ),
            Err(e) => host_port_spec(host_and_port@, default_port) == Err::<Option<(HostView, u16)>, _>(e@),
        },
{
    let mut url = String::from_str("https://");
    url.append(host_and_port);
    match parse_url(url.as_str()) {
        Err(e) => Err(e),
        Ok(u) => {
            let port = match u.port {
                Some(p) => p,
                None => default_port,
            };
            match u.host {
                None => Ok(None),
                Some(host) => Ok(Some(HostPort { host, port })),
            }
        },
    }
}

/// What the DNS resolver reads from a target: the endpoint, from the path
/// (without its leading `/`), with port 443 by default; and the DNS server,
/// from the authority, with port 53 by default, which must be an IP
/// address. Each failure is answered with its message.
pub open spec fn endpoint_and_authority_spec(t: TargetView) -> Result<
    ((HostView, u16), Option<(IpAddress, u16)>),
    Seq<char>,
> {
    match host_port_spec(strip_slash(t.path), DEFAULT_PORT) {
        Err(err) => Err("Failed to parse target "@ + target_string(t) + ": "@ + err),
        Ok(None) => Err("Received empty endpoint host."@),
        Ok(Some(ep)) => {
            let auth = host_port_string(t);
            if auth.len() == 0 {
                Ok((ep, None))
            } else {
                match host_port_spec(auth, DEFAULT_DNS_PORT) {
                    Err(err) => Err("Failed to parse DNS authority "@ + target_string(t) + ": "@ + err),
                    Ok(None) => Ok((ep, None)),
                    Ok(Some(a)) => match a.0 {
                        HostView::Ipv4(x) => Ok((ep, Some((IpAddress::V4(x), a.1)))),
                        HostView::Ipv6(x) => Ok((ep, Some((IpAddress::V6(x), a.1)))),
                        HostView::Domain(d) => Err("Received non-IP DNS authority "@ + d),
                    },
                }
            }
        },
    }
}

/// Reads the endpoint and the DNS server from a `dns` target; see
/// `endpoint_and_authority_spec`.
pub fn parse_endpoint_and_authority(target: &Target) -> (r: Result<ParseResult, String>)
    ensures
        match r {
            Ok(p) => endpoint_and_authority_spec(target.view()) == Ok::<_, Seq<char>>(parse_result_view(p)),
            Err(e) => endpoint_and_authority_spec(target.view()) == Err::<
                ((HostView, u16), Option<(IpAddress, u16)>),
                _,
            >(e@),
        },
{
    let path = target.path();
    let n = path.unicode_len();
    let endpoint_str = if n > 0 && path.get_char(0) == '/' {
        let rest = path.substring_char(1, n);
        proof {
            assert(rest@ =~= path@.drop_first());
        }
        rest
    } else {
        path
    };
    let endpoint = match parse_host_port(endpoint_str, DEFAULT_PORT) {
        Err(err) => {
            let mut msg = String::from_str("Failed to parse target ");
            let ts = target.to_string();
            msg.append(ts.as_str());
            msg.append(": ");
            msg.append(err.as_str());
            return Err(msg);
        },
        Ok(None) => {
            return Err(String::from_str("Received empty endpoint host."));
        },
        Ok(Some(hp)) => hp,
    };
    let authority = target.authority_host_port();
    if authority.unicode_len() == 0 {
        return Ok(ParseResult { endpoint, authority: None });
    }
    match parse_host_port(authority.as_str(), DEFAULT_DNS_PORT) {
        Err(err) => {
            let mut msg = String::from_str("Failed to parse DNS authority ");
            let ts = target.to_string();
            msg.append(ts.as_str());
            msg.append(": ");
            msg.append(err.as_str());
            Err(msg)
        },
        Ok(None) => Ok(ParseResult { endpoint, authority: None }),
        Ok(Some(a)) => match a.host {
            Host::Ipv4(x) => Ok(
                ParseResult { endpoint, authority: Some(SocketAddress { ip: IpAddress::V4(x), port: a.port }) },
            ),
            Host::Ipv6(x) => Ok(
                ParseResult { endpoint, authority: Some(SocketAddress { ip: IpAddress::V6(x), port: a.port }) },
            ),
            Host::Domain(d) => {
                let mut msg = String::from_str("Received non-IP DNS authority ");
                msg.append(d.as_str());
                Err(msg)
            },
        },
    }
}

/// The port the URL parser reads, or `default` when it reads none.
pub open spec fn port_or(port: Option<u16>, default: u16) -> u16 {
    match port {
        Some(p) => p,
        None => default,
    }
}

/// What the DNS resolver reads from a target is what the URL parser reads
/// there, whatever kind of host it is: the endpoint is the host and port of
/// the path (port 443 when none is written), and the DNS server, if any, is
/// the IP address and port of the authority (port 53 when none is
/// written).
pub proof fn lemma_endpoint_and_server_as_written(t: TargetView)
    ensures
        match endpoint_and_authority_spec(t) {
            Ok(((host, port), server)) => {
                &&& url_parsed("https://"@ + strip_slash(t.path)) is Ok
                &&& url_parsed("https://"@ + strip_slash(t.path))->Ok_0.2 == Some(host)
                &&& port == port_or(url_parsed("https://"@ + strip_slash(t.path))->Ok_0.3, DEFAULT_PORT)
                &&& match server {
                    Some((ip, server_port)) => {
                        &&& url_parsed("https://"@ + host_port_string(t)) is Ok
                        &&& url_parsed("https://"@ + host_port_string(t))->Ok_0.2 == Some(
                            match ip {
                                IpAddress::V4(x) => HostView::Ipv4(x),
                                IpAddress::V6(x) => HostView::Ipv6(x),
                            },
                        )
                        &&& server_port == port_or(
                            url_parsed("https://"@ + host_port_string(t))->Ok_0.3,
                            DEFAULT_DNS_PORT,
                        )
                    },
                    None => true,
                }
            },
            Err(_) => true,
        },
{
}

/// Whether the DNS resolver accepts `target`: whether its endpoint and DNS
/// server can be read.
pub fn is_valid_uri(target: &Target) -> (r: bool)
    ensures
        r == endpoint_and_authority_spec(target.view()) is Ok,
{
    parse_endpoint_and_authority(target).is_ok()
}

/// How the DNS resolver of a target works.
#[derive(Debug)]
pub enum DnsBuildPlan {
    /// The target cannot be read: the resolver only reports this error.
    Fail(String),
    /// The endpoint is an IP address: the resolver reports it as it is,
    /// without any lookup.
    Fixed(IpAddress, u16),
    /// The host is a domain to look up (at the DNS server given, if any);
    /// each address found is reported with the port.
    Resolve { host: String, port: u16, server: Option<SocketAddress> },
}

/// Decides how the DNS resolver of `target` works: it fails with the
/// parse error, reports an IP endpoint as it is, or looks a domain up.
pub fn build_plan(target: &Target) -> (r: DnsBuildPlan)
    ensures
        match r {
            DnsBuildPlan::Fail(e) => endpoint_and_authority_spec(target.view()) == Err::<
                ((HostView, u16), Option<(IpAddress, u16)>),
                _,
            >(e@),
            DnsBuildPlan::Fixed(ip, port) => endpoint_and_authority_spec(target.view()) is Ok && ({
                let p = endpoint_and_authority_spec(target.view())->Ok_0;
                &&& p.0.1 == port
                &&& match ip {
                    IpAddress::V4(x) => p.0.0 == HostView::Ipv4(x),
                    IpAddress::V6(x) => p.0.0 == HostView::Ipv6(x),
                }
            }),
            DnsBuildPlan::Resolve { host, port, server } => endpoint_and_authority_spec(target.view()) is Ok && ({
                let p = endpoint_and_authority_spec(target.view())->Ok_0;
                &&& p.0 == (HostView::Domain(host@), port)
                &&& p.1 == match server {
                    Some(a) => Some((a.ip, a.port)),
                    None => None,
                }
            }),
        },
{
    match parse_endpoint_and_authority(target) {
        Err(e) => DnsBuildPlan::Fail(e),
        Ok(p) => {
            let port = p.endpoint.port;
            match p.endpoint.host {
                Host::Ipv4(x) => DnsBuildPlan::Fixed(IpAddress::V4(x), port),
                Host::Ipv6(x) => DnsBuildPlan::Fixed(IpAddress::V6(x), port),
                Host::Domain(d) => DnsBuildPlan::Resolve { host: d, port, server: p.authority },
            }
        },
    }
}

/// What a lookup of the resolver's host gives: the addresses found, each
/// with the endpoint's port; the lookup's error; or, when it took longer
/// than the resolving timeout (`None`), a timeout error.
pub fn lookup_outcome(result: Option<Result<Vec<IpAddress>, String>>, port: u16) -> (r: Result<
    Vec<SocketAddress>,
    String,
>)
    ensures
        match result {
            None => r matches Err(e) && e@ == "Timed out waiting for DNS resolution"@,
            Some(Err(e)) => r matches Err(x) && x@ == e@,
            Some(Ok(ips)) => r matches Ok(addrs) && addrs@.len() == ips@.len() && forall|i: int|
                0 <= i < ips@.len() ==> #[trigger] addrs@[i] == (SocketAddress { ip: ips@[i], port }),
        },
{
    match result {
        None => Err(String::from_str("Timed out waiting for DNS resolution")),
        Some(Err(e)) => Err(e),
        Some(Ok(ips)) => {
            let mut out: Vec<SocketAddress> = Vec::new();
            let mut i: usize = 0;
            while i < ips.len()
                invariant
                    0 <= i <= ips@.len(),
                    out@.len() == i,
                    forall|j: int| 0 <= j < i ==> #[trigger] out@[j] == (SocketAddress { ip: ips@[j], port }),
                decreases ips@.len() - i,
            {
                out.push(SocketAddress { ip: ips[i], port });
                i = i + 1;
            }
            Ok(out)
        },
    }
}

/// When the resolver looks its host up again, once the channel took its
/// last update.
#[derive(Debug, Clone, Copy, PartialEq, Eq, Structural)]
pub enum NextLookup {
    /// The channel refused the update: after the backoff.
    AfterBackoff,
    /// The channel took the update: the backoff starts over, and the next
    /// lookup waits for a request to resolve now, and for the minimum
    /// resolution interval.
    AfterResolveNow,
}

/// Decides when the next lookup happens from the channel's answer to the
/// last update (its error, if it refused it).
pub fn next_lookup(channel_response: &Option<String>) -> (r: NextLookup)
    ensures
        r == (if channel_response is Some {
            NextLookup::AfterBackoff
        } else {
            NextLookup::AfterResolveNow
        }),
{
    match channel_response {
        Some(_) => NextLookup::AfterBackoff,
        None => NextLookup::AfterResolveNow,
    }
}

} // verus!
