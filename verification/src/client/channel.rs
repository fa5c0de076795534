//! Channel options, and the parsing of the channel's authority into a host
//! and a port.

use std::time::Duration;
use vstd::prelude::*;
use vstd::std_specs::cmp::PartialEqSpecImpl;

verus! {

/// A host and an optional port, as used for the `:authority` of a channel.
#[derive(Debug, Clone)]
pub struct Authority {
    host: String,
    port: Option<u16>,
}

impl Authority {
    pub closed spec fn host_of(&self) -> Seq<char> {
        self.host@
    }

    pub closed spec fn port_of(&self) -> Option<u16> {
        self.port
    }

    /// An authority with the given host and port.
    pub fn new(host: &str, port: Option<u16>) -> (r: Self)
        ensures
            r.host_of() == host@,
            r.port_of() == port,
    {
        Authority { host: String::from_str(host), port }
    }

    /// The host of this authority.
    pub fn host(&self) -> (r: &str)
        ensures
            r@ == self.host_of(),
    {
        self.host.as_str()
    }

    /// The port of this authority.
    pub fn port(&self) -> (r: Option<u16>)
        ensures
            r == self.port_of(),
    {
        self.port
    }
}

impl PartialEq for Authority {
    fn eq(&self, other: &Self) -> (r: bool) {
        let same_port = match (self.port, other.port) {
            (Some(a), Some(b)) => a == b,
            (None, None) => true,
            _ => false,
        };
        self.host == other.host && same_port
    }
}

impl PartialEqSpecImpl for Authority {
    open spec fn obeys_eq_spec() -> bool {
        true
    }

    open spec fn eq_spec(&self, other: &Self) -> bool {
        self.host_of() == other.host_of() && self.port_of() == other.port_of()
    }
}

impl Eq for Authority {

}

pub open spec fn is_digit(c: char) -> bool {
    '0' <= c && c <= '9'
}

/// The value of a string of decimal digits.
pub open spec fn decimal_value(s: Seq<char>) -> int
    decreases s.len(),
{
    if s.len() == 0 {
        0
    } else {
        decimal_value(s.drop_last()) * 10 + (s.last() as int - '0' as int)
    }
}

/// What `u16::from_str` answers: an optional `+` sign, then one or more
/// decimal digits whose value fits in 16 bits.
pub open spec fn parse_u16_spec(s: Seq<char>) -> Option<u16> {
    let d = unsigned_digits(s);
    if d.len() > 0 && all_digits(d) && decimal_value(d) <= 65535 {
        Some(decimal_value(d) as u16)
    } else {
        None
    }
}

/// `s` without its leading `+`, if it has one.
pub open spec fn unsigned_digits(s: Seq<char>) -> Seq<char> {
    if s.len() > 0 && s[0] == '+' {
        s.drop_first()
    } else {
        s
    }
}

pub open spec fn all_digits(d: Seq<char>) -> bool {
    forall|i: int| 0 <= i < d.len() ==> is_digit(#[trigger] d[i])
}

/// `s[i]` is `]` and `s[i + 1]` is `:`.
pub open spec fn close_colon_at(s: Seq<char>, i: int) -> bool {
    0 <= i && i + 1 < s.len() && s[i] == ']' && s[i + 1] == ':'
}

/// Where `s` is split by the first `]:`, if anywhere.
#[verifier::opaque]
pub open spec fn first_close_colon(s: Seq<char>) -> Option<int> {
    if exists|i: int| #[trigger] close_colon_at(s, i) {
        Some(
            choose|i: int|
                #[trigger] close_colon_at(s, i) && forall|j: int| 0 <= j < i ==> !close_colon_at(s, j),
        )
    } else {
        None
    }
}

/// The position of the last `:` of `s`, if any.
#[verifier::opaque]
pub open spec fn last_colon(s: Seq<char>) -> Option<int> {
    if exists|i: int| 0 <= i < s.len() && #[trigger] s[i] == ':' {
        Some(choose|i: int| 0 <= i < s.len() && #[trigger] s[i] == ':' && forall|j: int| i < j < s.len() ==> s[j] != ':')
    } else {
        None
    }
}

/// A bracketed host followed by `:` and a port, e.g. `[::1]:80`.
pub open spec fn bracketed_spec(s: Seq<char>) -> Option<(Seq<char>, u16)> {
    if s.len() > 0 && s[0] == '[' {
        let t = s.drop_first();
        match first_close_colon(t) {
            Some(i) => match parse_u16_spec(t.subrange(i + 2, t.len() as int)) {
                Some(p) => Some((t.subrange(0, i), p)),
                None => None,
            },
            None => None,
        }
    } else {
        None
    }
}

/// A host without `:` followed by `:` and a port, e.g. `localhost:80`.
pub open spec fn unbracketed_spec(s: Seq<char>) -> Option<(Seq<char>, u16)> {
    match last_colon(s) {
        Some(j) => {
            let host = s.subrange(0, j);
            match parse_u16_spec(s.subrange(j + 1, s.len() as int)) {
                Some(p) => if !host.contains(':') {
                    Some((host, p))
                } else {
                    None
                },
                None => None,
            }
        },
        None => None,
    }
}

/// The authority that `s` stands for: a bracketed host followed by `:` and a
/// port (`[::1]:80`), or a host without `:` followed by `:` and a port
/// (`localhost:80`); any other input is all host and no port.
pub open spec fn authority_spec(s: Seq<char>) -> (Seq<char>, Option<u16>) {
    match bracketed_spec(s) {
        Some((h, p)) => (h, Some(p)),
        None => match unbracketed_spec(s) {
            Some((h, p)) => (h, Some(p)),
            None => (s, None),
        },
    }
}

/// Parses a 16-bit unsigned integer the way `u16::from_str` does.
pub fn parse_u16(s: &str) -> (r: Option<u16>)
    ensures
        r == parse_u16_spec(s@),
{
    let n = s.unicode_len();
    let mut start: usize = 0;
    if n > 0 && s.get_char(0) == '+' {
        start = 1;
    }
    let ghost d = unsigned_digits(s@);
    proof {
        assert(d =~= s@.subrange(start as int, n as int));
    }
    if start >= n {
        return None;
    }
    let mut value: u32 = 0;
    let mut i: usize = start;
    while i < n
        invariant
            start <= i <= n,
            n == s@.len(),
            d == s@.subrange(start as int, n as int),
            d == unsigned_digits(s@),
            forall|k: int| start <= k < i ==> is_digit(s@[k]),
            value == decimal_value(s@.subrange(start as int, i as int)),
            value <= 65535,
        decreases n - i,
    {
        let c = s.get_char(i);
        proof {
            assert(s@.subrange(start as int, i + 1).drop_last() =~= s@.subrange(start as int, i as int));
        }
        if !('0' <= c && c <= '9') {
            proof {
                assert(d[i - start] == c);
                assert(!is_digit(d[i - start]));
                assert(!all_digits(d));
            }
            return None;
        }
        let digit = (c as u32) - ('0' as u32);
        let next = value * 10 + digit;
        proof {
            let x = s@.subrange(start as int, i + 1);
            assert(x.last() == c);
            assert(decimal_value(x) == decimal_value(x.drop_last()) * 10 + (c as int - '0' as int));
            assert(decimal_value(x) == next);
        }
        if next > 65535 {
            proof {
                assert(d.subrange(0, (i + 1 - start) as int) =~= s@.subrange(start as int, i + 1));
                if all_digits(d) {
                    lemma_decimal_monotone(d, (i + 1 - start) as int);
                }
            }
            return None;
        }
        value = next;
        i = i + 1;
    }
    proof {
        assert(s@.subrange(start as int, n as int) == d);
        assert forall|k: int| 0 <= k < d.len() implies is_digit(#[trigger] d[k]) by {
            assert(d[k] == s@[start + k]);
        }
        assert(all_digits(d));
    }
    Some(value as u16)
}

/// The value of a digit string is at least the value of any of its prefixes.
proof fn lemma_decimal_monotone(s: Seq<char>, k: int)
    requires
        0 <= k <= s.len(),
        forall|i: int| 0 <= i < s.len() ==> is_digit(#[trigger] s[i]),
    ensures
        decimal_value(s.subrange(0, k)) <= decimal_value(s),
        decimal_value(s) >= 0,
    decreases s.len(),
{
    if s.len() > 0 {
        let t = s.drop_last();
        assert forall|i: int| 0 <= i < t.len() implies is_digit(#[trigger] t[i]) by {
            assert(t[i] == s[i]);
        }
        if k == s.len() {
            assert(s.subrange(0, k) =~= s);
            lemma_decimal_monotone(t, 0);
        } else {
            lemma_decimal_monotone(t, k);
            assert(t.subrange(0, k) =~= s.subrange(0, k));
        }
    } else {
        assert(s.subrange(0, k) =~= s);
    }
}


/// The position of the first `]:` in `s`.
fn find_close_colon(s: &str) -> (r: Option<usize>)
    ensures
        match r {
            Some(i) => first_close_colon(s@) == Some(i as int) && i + 1 < s@.len(),
            None => first_close_colon(s@) is None,
        },
{
    reveal(first_close_colon);
    let n = s.unicode_len();
    let mut i: usize = 0;
    while i < n
        invariant
            n == s@.len(),
            forall|j: int| 0 <= j < i ==> !close_colon_at(s@, j),
        decreases n - i,
    {
        if i + 1 < n && s.get_char(i) == ']' && s.get_char(i + 1) == ':' {
            proof {
                reveal(first_close_colon);
                assert(close_colon_at(s@, i as int));
                let x = choose|x: int|
                    #[trigger] close_colon_at(s@, x) && forall|j: int| 0 <= j < x ==> !close_colon_at(s@, j);
                assert(x == i) by {
                    if x < i {
                        assert(!close_colon_at(s@, x));
                    } else if x > i {
                        assert(!close_colon_at(s@, i as int));
                    }
                }
                assert(first_close_colon(s@) == Some(x));
            }
            return Some(i);
        }
        i = i + 1;
    }
    proof {
        assert forall|j: int| !#[trigger] close_colon_at(s@, j) by {
            if 0 <= j < i {
            }
        }
    }
    None
}

/// The position of the last `:` in `s`.
fn find_last_colon(s: &str) -> (r: Option<usize>)
    ensures
        match r {
            Some(j) => last_colon(s@) == Some(j as int) && j < s@.len(),
            None => last_colon(s@) is None,
        },
{
    reveal(last_colon);
    let n = s.unicode_len();
    let mut i: usize = n;
    while i > 0
        invariant
            i <= n,
            n == s@.len(),
            forall|j: int| i <= j < n ==> s@[j] != ':',
        decreases i,
    {
        if s.get_char(i - 1) == ':' {
            proof {
                reveal(last_colon);
                let j = (i - 1) as int;
                assert(0 <= j < s@.len() && s@[j] == ':');
                let x = choose|x: int|
                    0 <= x < s@.len() && #[trigger] s@[x] == ':' && forall|k: int| x < k < s@.len() ==> s@[k] != ':';
                assert(x == j) by {
                    if x < j {
                        assert(s@[j] != ':');
                    } else if x > j {
                        assert(s@[x] != ':');
                    }
                }
                assert(last_colon(s@) == Some(x));
            }
            return Some(i - 1);
        }
        i = i - 1;
    }
    None
}

/// Whether `s` holds a `:`.
fn has_colon(s: &str) -> (r: bool)
    ensures
        r == s@.contains(':'),
{
    let n = s.unicode_len();
    let mut i: usize = 0;
    while i < n
        invariant
            n == s@.len(),
            forall|j: int| 0 <= j < i ==> s@[j] != ':',
        decreases n - i,
    {
        if s.get_char(i) == ':' {
            proof {
                assert(s@[i as int] == ':');
            }
            return true;
        }
        i = i + 1;
    }
    false
}

fn parse_bracketed(s: &str) -> (r: Option<Authority>)
    ensures
        match r {
            Some(a) => bracketed_spec(s@) == Some((a.host_of(), a.port_of()->0)) && a.port_of() is Some,
            None => bracketed_spec(s@) is None,
        },
{
    let n = s.unicode_len();
    if n > 0 && s.get_char(0) == '[' {
        let stripped = s.substring_char(1, n);
        proof {
            assert(stripped@ =~= s@.drop_first());
        }
        match find_close_colon(stripped) {
            Some(i) => {
                let m = stripped.unicode_len();
                let port_str = stripped.substring_char(i + 2, m);
                match parse_u16(port_str) {
                    Some(port) => Some(Authority::new(stripped.substring_char(0, i), Some(port))),
                    None => None,
                }
            },
            None => None,
        }
    } else {
        None
    }
}

fn parse_unbracketed(s: &str) -> (r: Option<Authority>)
    ensures
        match r {
            Some(a) => unbracketed_spec(s@) == Some((a.host_of(), a.port_of()->0)) && a.port_of() is Some,
            None => unbracketed_spec(s@) is None,
        },
{
    let n = s.unicode_len();
    match find_last_colon(s) {
        Some(j) => {
            let host = s.substring_char(0, j);
            let port_str = s.substring_char(j + 1, n);
            match parse_u16(port_str) {
                Some(port) => {
                    if !has_colon(host) {
                        Some(Authority::new(host, Some(port)))
                    } else {
                        None
                    }
                },
                None => None,
            }
        },
        None => None,
    }
}

/// Parses the host and port of an authority.  When the input cannot be read
/// as a (host, port) pair, all of it is the host.
pub fn parse_authority(host_and_port: &str) -> (r: Authority)
    ensures
        (r.host_of(), r.port_of()) == authority_spec(host_and_port@),
{
    // A bracketed IPv6 address, e.g. "[::1]:80".
    match parse_bracketed(host_and_port) {
        Some(a) => {
            return a;
        },
        None => {},
    }
    // An unbracketed address, e.g. "localhost:8080".
    match parse_unbracketed(host_and_port) {
        Some(a) => a,
        None => Authority::new(host_and_port, None),
    }
}


/// A `:` at `k` means there is a last `:`, at or after `k`.
proof fn lemma_last_colon_exists(s: Seq<char>, k: int)
    requires
        0 <= k < s.len(),
        s[k] == ':',
    ensures
        exists|x: int| 0 <= x < s.len() && #[trigger] s[x] == ':' && forall|j: int| x < j < s.len() ==> s[j] != ':',
    decreases s.len() - k,
{
    if exists|j: int| k < j < s.len() && s[j] == ':' {
        let j = choose|j: int| k < j < s.len() && s[j] == ':';
        lemma_last_colon_exists(s, j);
    } else {
        assert(s[k] == ':');
    }
}

/// A `]:` at `k` means there is a first `]:`, at or before `k`.
proof fn lemma_first_close_colon_exists(t: Seq<char>, k: int)
    requires
        close_colon_at(t, k),
    ensures
        exists|x: int| #[trigger] close_colon_at(t, x) && forall|j: int| 0 <= j < x ==> !close_colon_at(t, j),
    decreases k,
{
    if exists|j: int| 0 <= j < k && close_colon_at(t, j) {
        let j = choose|j: int| 0 <= j < k && close_colon_at(t, j);
        lemma_first_close_colon_exists(t, j);
    } else {
        assert(close_colon_at(t, k));
    }
}

/// Where a bracketed reading comes from: `s` is `[host]:t` with the port
/// read from `t`.
proof fn lemma_bracketed_form(s: Seq<char>)
    requires
        bracketed_spec(s) is Some,
    ensures
        exists|t: Seq<char>|
            #![trigger parse_u16_spec(t)]
            parse_u16_spec(t) == Some((bracketed_spec(s)->0).1) && s == seq!['['] + (bracketed_spec(s)->0).0 + seq![
                ']',
                ':',
            ] + t,
{
    let t0 = s.drop_first();
    reveal(first_close_colon);
    let k = choose|i: int| #[trigger] close_colon_at(t0, i);
    lemma_first_close_colon_exists(t0, k);
    let i = first_close_colon(t0)->0;
    assert(close_colon_at(t0, i));
    let h = t0.subrange(0, i);
    let tail = t0.subrange(i + 2, t0.len() as int);
    assert(s =~= seq!['['] + h + seq![']', ':'] + tail);
    assert(parse_u16_spec(tail) == Some((bracketed_spec(s)->0).1));
}

/// Where an unbracketed reading comes from: `s` is `host:t` with no `:` in
/// the host and the port read from `t`.
proof fn lemma_unbracketed_form(s: Seq<char>)
    requires
        unbracketed_spec(s) is Some,
    ensures
        !(unbracketed_spec(s)->0).0.contains(':'),
        exists|t: Seq<char>|
            #![trigger parse_u16_spec(t)]
            parse_u16_spec(t) == Some((unbracketed_spec(s)->0).1) && s == (unbracketed_spec(s)->0).0 + seq![':'] + t,
{
    reveal(last_colon);
    let k = choose|i: int| 0 <= i < s.len() && #[trigger] s[i] == ':';
    lemma_last_colon_exists(s, k);
    let j = last_colon(s)->0;
    assert(0 <= j < s.len() && s[j] == ':');
    let h = s.subrange(0, j);
    let tail = s.subrange(j + 1, s.len() as int);
    assert(s =~= h + seq![':'] + tail);
    assert(parse_u16_spec(tail) == Some((unbracketed_spec(s)->0).1));
}

/// Every reading of an authority: either no port and all of the input as
/// the host, or a port `p` read from some `t` with the input being
/// `[host]:t`, or `host:t` with no `:` in the host.
pub proof fn lemma_authority_cases(s: Seq<char>)
    ensures
        authority_spec(s).1 is None ==> authority_spec(s).0 == s,
        authority_spec(s).1 is Some ==> exists|t: Seq<char>|
            #![trigger parse_u16_spec(t)]
            parse_u16_spec(t) == authority_spec(s).1 && ((s == seq!['['] + authority_spec(s).0 + seq![']', ':']
                + t) || (s == authority_spec(s).0 + seq![':'] + t && !authority_spec(s).0.contains(':'))),
{
    if bracketed_spec(s) is Some {
        lemma_bracketed_form(s);
    } else if unbracketed_spec(s) is Some {
        lemma_unbracketed_form(s);
    }
}

/// Input with no `:` is all host and no port.
pub proof fn lemma_authority_without_colon(s: Seq<char>)
    requires
        !s.contains(':'),
    ensures
        authority_spec(s) == (s, None::<u16>),
{
    reveal(last_colon);
    reveal(first_close_colon);
    if s.len() > 0 {
        let t = s.drop_first();
        assert forall|i: int| !#[trigger] close_colon_at(t, i) by {
            if close_colon_at(t, i) {
                assert(t[i + 1] == s[i + 2]);
                assert(s[i + 2] == ':');
            }
        }
    }
    assert forall|i: int| !(0 <= i < s.len() && #[trigger] s[i] == ':') by {
        if 0 <= i < s.len() && s[i] == ':' {
            assert(s.contains(':'));
        }
    }
}

/// The first `]:` of `host` followed by `]:` is the one right after `host`,
/// when `host` holds none.
proof fn lemma_first_close_colon_after(host: Seq<char>, rest: Seq<char>)
    requires
        forall|i: int| !#[trigger] close_colon_at(host, i),
        rest.len() >= 2,
        rest[0] == ']',
        rest[1] == ':',
    ensures
        first_close_colon(host + rest) == Some(host.len() as int),
{
    let t = host + rest;
    let n = host.len() as int;
    assert(close_colon_at(t, n)) by {
        assert(t[n] == rest[0] && t[n + 1] == rest[1]);
    }
    assert forall|j: int| 0 <= j < n implies !#[trigger] close_colon_at(t, j) by {
        if j + 1 < n {
            assert(t[j] == host[j] && t[j + 1] == host[j + 1]);
            assert(!close_colon_at(host, j));
        } else {
            assert(t[j + 1] == rest[0]);
        }
    }
    reveal(first_close_colon);
    let p = |i: int| close_colon_at(t, i) && forall|j: int| 0 <= j < i ==> !close_colon_at(t, j);
    assert(p(n));
    let x = choose|i: int| #[trigger] close_colon_at(t, i) && forall|j: int| 0 <= j < i ==> !close_colon_at(t, j);
    assert(close_colon_at(t, x) && forall|j: int| 0 <= j < x ==> !close_colon_at(t, j));
    assert(x == n) by {
        if x < n {
            assert(!close_colon_at(t, x));
        } else if x > n {
            assert(!close_colon_at(t, n));
        }
    }
}

/// `host:port` reads back as that host and port, for a host without `:`
/// that does not open with `[`, and a port written in decimal digits.
pub proof fn lemma_authority_host_port(host: Seq<char>, digits: Seq<char>)
    requires
        !host.contains(':'),
        host.len() == 0 || host[0] != '[',
        digits.len() > 0,
        all_digits(digits),
        decimal_value(digits) <= 65535,
    ensures
        authority_spec(host + seq![':'] + digits) == (host, Some(decimal_value(digits) as u16)),
{
    let s = host + seq![':'] + digits;
    let n = host.len() as int;
    assert(s[n] == ':');
    assert(is_digit(digits[0]));
    reveal(last_colon);
    let x = choose|i: int| 0 <= i < s.len() && #[trigger] s[i] == ':' && forall|j: int| i < j < s.len() ==> s[j] != ':';
    assert forall|j: int| n < j < s.len() implies s[j] != ':' by {
        assert(s[j] == digits[j - n - 1]);
        assert(is_digit(digits[j - n - 1]));
    }
    assert(x == n) by {
        if x < n {
            assert(s[x] == host[x]);
            assert(host.contains(host[x]));
        } else if x > n {
            assert(s[n] == ':');
        }
    }
    assert(last_colon(s) == Some(n));
    assert(s.subrange(0, n) =~= host);
    assert(s.subrange(n + 1, s.len() as int) =~= digits);
    assert(unsigned_digits(digits) == digits);
    if n == 0 {
        assert(s[0] == ':');
    } else {
        assert(s[0] == host[0]);
    }
}

/// `[host]:port` reads back as that host and port, for a host holding no
/// `]:` and a port written in decimal digits.
pub proof fn lemma_authority_bracketed(host: Seq<char>, digits: Seq<char>)
    requires
        forall|i: int| !#[trigger] close_colon_at(host, i),
        digits.len() > 0,
        all_digits(digits),
        decimal_value(digits) <= 65535,
    ensures
        authority_spec(seq!['['] + host + seq![']', ':'] + digits) == (host, Some(decimal_value(digits) as u16)),
{
    let s = seq!['['] + host + seq![']', ':'] + digits;
    let rest = seq![']', ':'] + digits;
    let t = host + rest;
    let n = host.len() as int;
    assert(s.drop_first() =~= t);
    assert(s[0] == '[');
    assert(rest[0] == ']' && rest[1] == ':');
    lemma_first_close_colon_after(host, rest);
    assert(t.subrange(0, n) =~= host);
    assert(t.subrange(n + 2, t.len() as int) =~= digits);
    assert(is_digit(digits[0]));
    assert(unsigned_digits(digits) == digits);
}

/// A placeholder for settings that have no type yet.
pub struct TODO;

/// `std::time::Duration::from_secs(secs)`.
pub uninterp spec fn duration_of_secs(secs: u64) -> Duration;

/// Calls `std::time::Duration::from_secs`; claimed: the result depends on
/// `secs` alone.
#[verifier::external_body]
fn duration_from_secs(secs: u64) -> (r: Duration)
    ensures
        r == duration_of_secs(secs),
{
    Duration::from_secs(secs)
}

/// The options of a channel.
#[non_exhaustive]
pub struct ChannelOptions {
    pub channel_authority: Option<String>,
    pub connection_backoff: Option<TODO>,
    pub default_service_config: Option<String>,
    pub disable_proxy: bool,
    pub disable_service_config_lookup: bool,
    pub disable_health_checks: bool,
    pub max_retry_memory: u32,
    pub idle_timeout: Duration,
    pub default_request_extensions: Vec<Box<TODO>>,
}

impl Default for ChannelOptions {
    /// No authority override, no backoff or service config, proxy, service
    /// config lookup and health checks enabled, 8 MiB of retry memory and an
    /// idle timeout of 30 minutes.
    fn default() -> (r: Self)
        ensures
            r.channel_authority is None,
            r.connection_backoff is None,
            r.default_service_config is None,
            !r.disable_proxy,
            !r.disable_service_config_lookup,
            !r.disable_health_checks,
            r.max_retry_memory == 8 * 1024 * 1024,
            r.idle_timeout == duration_of_secs(1800),
            r.default_request_extensions@.len() == 0,
    {
        ChannelOptions {
            channel_authority: None,
            connection_backoff: None,
            default_service_config: None,
            disable_proxy: false,
            disable_service_config_lookup: false,
            disable_health_checks: false,
            max_retry_memory: 8 * 1024 * 1024,
            idle_timeout: duration_from_secs(1800),
            default_request_extensions: Vec::new(),
        }
    }
}

impl ChannelOptions {
    /// The same options, with the channel's authority set to `authority`.
    pub fn override_authority(self, authority: String) -> (r: Self)
        ensures
            r.channel_authority == Some(authority),
            r.connection_backoff == self.connection_backoff,
            r.default_service_config == self.default_service_config,
            r.disable_proxy == self.disable_proxy,
            r.disable_service_config_lookup == self.disable_service_config_lookup,
            r.disable_health_checks == self.disable_health_checks,
            r.max_retry_memory == self.max_retry_memory,
            r.idle_timeout == self.idle_timeout,
            r.default_request_extensions == self.default_request_extensions,
    {
        ChannelOptions { channel_authority: Some(authority), ..self }
    }
}

} // verus!
