//! The target of a channel: a URI such as `dns:///grpc.io` or
//! `dns://8.8.8.8:53/grpc.io:443`, parsed by the `url` crate into scheme,
//! authority and path.

use vstd::prelude::*;

verus! {

/// The host of a URL, as `url::Host` gives it.
#[derive(Debug, Clone, PartialEq, Eq)]
pub enum Host {
    /// A domain name.
    Domain(String),
    /// An IPv4 address, its octets in big-endian order.
    Ipv4(u32),
    /// An IPv6 address, its segments in big-endian order.
    Ipv6(u128),
}

pub enum HostView {
    Domain(Seq<char>),
    Ipv4(u32),
    Ipv6(u128),
}

pub open spec fn host_view(h: Host) -> HostView {
    match h {
        Host::Domain(d) => HostView::Domain(d@),
        Host::Ipv4(a) => HostView::Ipv4(a),
        Host::Ipv6(a) => HostView::Ipv6(a),
    }
}

/// What the `url` crate makes of a URL: scheme, host as text (`host_str`),
/// host, port and path.
pub struct UrlParts {
    pub scheme: String,
    pub host_str: Option<String>,
    pub host: Option<Host>,
    pub port: Option<u16>,
    pub path: String,
}

pub open spec fn opt_string_view(o: Option<String>) -> Option<Seq<char>> {
    match o {
        Some(s) => Some(s@),
        None => None,
    }
}

pub open spec fn url_parts_view(u: UrlParts) -> (Seq<char>, Option<Seq<char>>, Option<HostView>, Option<u16>, Seq<char>) {
    (
        u.scheme@,
        opt_string_view(u.host_str),
        match u.host {
            Some(h) => Some(host_view(h)),
            None => None,
        },
        u.port,
        u.path@,
    )
}

/// What `url::Url::parse` makes of `s`: its parts, or its error message.
pub uninterp spec fn url_parsed(s: Seq<char>) -> Result<
    (Seq<char>, Option<Seq<char>>, Option<HostView>, Option<u16>, Seq<char>),
    Seq<char>,
>;

/// Parses `s` with `url::Url::parse` (through `str::parse`) and takes the
/// parts the library reads. Claimed: the result (parts or the error's
/// message) is a function of `s`.
#[verifier::external_body]
pub(crate) fn parse_url(s: &str) -> (r: Result<UrlParts, String>)
    ensures
        match r {
            Ok(u) => url_parsed(s@) == Ok::<_, Seq<char>>(url_parts_view(u)),
            Err(e) => url_parsed(s@) == Err::<(Seq<char>, Option<Seq<char>>, Option<HostView>, Option<u16>, Seq<char>), _>(e@),
        },
{
    match s.parse::<url::Url>() {
        Ok(u) => {
            let host = match u.host() {
                Some(url::Host::Domain(d)) => Some(Host::Domain(d.to_string())),
                Some(url::Host::Ipv4(a)) => Some(Host::Ipv4(u32::from(a))),
                Some(url::Host::Ipv6(a)) => Some(Host::Ipv6(u128::from(a))),
                None => None,
            };
            let host_str = u.host_str().map(|h| h.to_string());
            Ok(UrlParts { scheme: u.scheme().to_string(), host_str, host, port: u.port(), path: u.path().to_string() })
        },
        Err(e) => Err(e.to_string()),
    }
}

/// The decimal digit `d`.
pub open spec fn digit_char(d: nat) -> char {
    (48 + d) as char
}

/// The decimal representation of `n`, without leading zeros.
pub open spec fn decimal(n: nat) -> Seq<char>
    decreases n,
{
    if n < 10 {
        seq![digit_char(n)]
    } else {
        decimal(n / 10).push(digit_char(n % 10))
    }
}

fn digit_str(d: u16) -> (r: &'static str)
    requires
        d < 10,
    ensures
        r@ == seq![digit_char(d as nat)],
{
    proof {
        reveal_strlit("0");
        reveal_strlit("1");
        reveal_strlit("2");
        reveal_strlit("3");
        reveal_strlit("4");
        reveal_strlit("5");
        reveal_strlit("6");
        reveal_strlit("7");
        reveal_strlit("8");
        reveal_strlit("9");
    }
    match d {
        0 => "0",
        1 => "1",
        2 => "2",
        3 => "3",
        4 => "4",
        5 => "5",
        6 => "6",
        7 => "7",
        8 => "8",
        _ => "9",
    }
}

/// Appends the decimal representation of `n` to `out`.
pub fn push_decimal(n: u16, out: &mut String)
    ensures
        final(out)@ == old(out)@ + decimal(n as nat),
    decreases n,
{
    if n >= 10 {
        push_decimal(n / 10, out);
    }
    let d = digit_str(n % 10);
    out.append(d);
    proof {
        if n >= 10 {
            assert(decimal(n as nat) == decimal((n / 10) as nat).push(digit_char((n % 10) as nat)));
        }
    }
}

/// A target for gRPC, as specified in gRPC's naming document: the URI the
/// channel was created with.
#[derive(Debug, Clone)]
pub struct Target {
    scheme: String,
    host: Option<String>,
    port: Option<u16>,
    path: String,
}

/// The view of a target: scheme, host (empty when there is none), port and
/// path.
pub struct TargetView {
    pub scheme: Seq<char>,
    pub host: Seq<char>,
    pub port: Option<u16>,
    pub path: Seq<char>,
}

/// The authority of a target: `host:port`, or `host` when there is no port.
pub open spec fn host_port_string(t: TargetView) -> Seq<char> {
    match t.port {
        Some(p) => t.host + ":"@ + decimal(p as nat),
        None => t.host,
    }
}

/// The text of a target: `scheme://authority` followed by the path.
pub open spec fn target_string(t: TargetView) -> Seq<char> {
    t.scheme + "://"@ + host_port_string(t) + t.path
}

/// The target a successful URL parse gives.
pub open spec fn target_of_url(u: (Seq<char>, Option<Seq<char>>, Option<HostView>, Option<u16>, Seq<char>)) -> TargetView {
    TargetView {
        scheme: u.0,
        host: match u.1 {
            Some(h) => h,
            None => Seq::empty(),
        },
        port: u.3,
        path: u.4,
    }
}

impl Target {
    pub closed spec fn view(&self) -> TargetView {
        TargetView {
            scheme: self.scheme@,
            host: match self.host {
                Some(h) => h@,
                None => Seq::empty(),
            },
            port: self.port,
            path: self.path@,
        }
    }

    /// Parses a target URI; the error is the URL parser's message.
    pub fn parse(s: &str) -> (r: Result<Target, String>)
        ensures
            match r {
                Ok(t) => url_parsed(s@) is Ok && t.view() == target_of_url(url_parsed(s@)->Ok_0),
                Err(e) => url_parsed(s@) == Err::<(Seq<char>, Option<Seq<char>>, Option<HostView>, Option<u16>, Seq<char>), _>(e@),
            },
    {
        match parse_url(s) {
            Ok(u) => Ok(Target { scheme: u.scheme, host: u.host_str, port: u.port, path: u.path }),
            Err(e) => Err(e),
        }
    }

    /// The scheme, such as `dns`.
    pub fn scheme(&self) -> (r: &str)
        ensures
            r@ == self.view().scheme,
    {
        self.scheme.as_str()
    }

    /// The host part of the authority; empty when there is none.
    pub fn authority_host(&self) -> (r: &str)
        ensures
            r@ == self.view().host,
    {
        match &self.host {
            Some(h) => h.as_str(),
            None => {
                proof {
                    reveal_strlit("");
                }
                ""
            },
        }
    }

    /// The port part of the authority.
    pub fn authority_port(&self) -> (r: Option<u16>)
        ensures
            r == self.view().port,
    {
        self.port
    }

    /// `host:port`, or `host` when the authority has no port.
    pub fn authority_host_port(&self) -> (r: String)
        ensures
            r@ == host_port_string(self.view()),
    {
        let mut out = String::from_str(self.authority_host());
        match self.port {
            Some(p) => {
                out.append(":");
                push_decimal(p, &mut out);
            },
            None => {},
        }
        out
    }

    /// The path.
    pub fn path(&self) -> (r: &str)
        ensures
            r@ == self.view().path,
    {
        self.path.as_str()
    }

    /// The target as text: `scheme://authority` followed by the path.
    pub fn to_string(&self) -> (r: String)
        ensures
            r@ == target_string(self.view()),
    {
        let mut out = String::from_str(self.scheme.as_str());
        out.append("://");
        let hp = self.authority_host_port();
        out.append(hp.as_str());
        out.append(self.path.as_str());
        proof {
            assert(out@ =~= target_string(self.view()));
        }
        out
    }
}

/// The path of a target without its leading `/`, if it has one.
pub open spec fn strip_slash(p: Seq<char>) -> Seq<char> {
    if p.len() > 0 && p[0] == '/' {
        p.drop_first()
    } else {
        p
    }
}

/// The authority a resolver gives a channel by default: the path of the
/// target without its leading `/`.
pub fn default_authority(target: &Target) -> (r: String)
    ensures
        r@ == strip_slash(target.view().path),
{
    let path = target.path();
    let n = path.unicode_len();
    if n > 0 && path.get_char(0) == '/' {
        let rest = path.substring_char(1, n);
        proof {
            assert(rest@ =~= path@.drop_first());
        }
        String::from_str(rest)
    } else {
        String::from_str(path)
    }
}

} // verus!
