use grpc::client::name_resolution::dns::{
    is_valid_uri, parse_endpoint_and_authority, parse_host_port, HostPort, IpAddress, ParseResult, SocketAddress,
};
use grpc::client::name_resolution::target::{default_authority, push_decimal, Host, Target};
use grpc::client::name_resolution::unix::{parse_unix_abstract_target, parse_unix_target};
use grpc::client::name_resolution::dns::{build_plan, lookup_outcome, next_lookup, DnsBuildPlan, NextLookup};

struct TestCase {
    input: &'static str,
    want_scheme: &'static str,
    want_host: &'static str,
    want_port: Option<u16>,
    want_host_port: &'static str,
    want_path: &'static str,
    want_str: &'static str,
}

#[test]
fn parse_target() {
    let test_cases = vec![
        TestCase {
            input: "dns:///grpc.io",
            want_scheme: "dns",
            want_host_port: "",
            want_host: "",
            want_port: None,
            want_path: "/grpc.io",
            want_str: "dns:///grpc.io",
        },
        TestCase {
            input: "dns://8.8.8.8:53/grpc.io/docs",
            want_scheme: "dns",
            want_host_port: "8.8.8.8:53",
            want_host: "8.8.8.8",
            want_port: Some(53),
            want_path: "/grpc.io/docs",
            want_str: "dns://8.8.8.8:53/grpc.io/docs",
        },
        TestCase {
            input: "unix:path/to/file",
            want_scheme: "unix",
            want_host_port: "",
            want_host: "",
            want_port: None,
            want_path: "path/to/file",
            want_str: "unix://path/to/file",
        },
        TestCase {
            input: "unix:///run/containerd/containerd.sock",
            want_scheme: "unix",
            want_host_port: "",
            want_host: "",
            want_port: None,
            want_path: "/run/containerd/containerd.sock",
            want_str: "unix:///run/containerd/containerd.sock",
        },
    ];

    for tc in test_cases {
        let target: Target = Target::parse(tc.input).unwrap();
        assert_eq!(target.scheme(), tc.want_scheme);
        assert_eq!(target.authority_host(), tc.want_host);
        assert_eq!(target.authority_port(), tc.want_port);
        assert_eq!(target.authority_host_port(), tc.want_host_port);
        assert_eq!(target.path(), tc.want_path);
        assert_eq!(&target.to_string(), tc.want_str);
    }
}

fn v4(a: u8, b: u8, c: u8, d: u8) -> u32 {
    u32::from_be_bytes([a, b, c, d])
}

fn domain(d: &str) -> Host {
    Host::Domain(d.to_string())
}

#[test]
fn target_parsing() {
    let ipv6_loopback: u128 = 1;
    let fe80_1: u128 = (0xfe80u128 << 112) | 1;
    let ok = |host: Host, port: u16, authority: Option<SocketAddress>| -> Result<ParseResult, String> {
        Ok(ParseResult { endpoint: HostPort { host, port }, authority })
    };
    let cases: Vec<(&str, Result<ParseResult, String>)> = vec![
        ("dns:///grpc.io", ok(domain("grpc.io"), 443, None)),
        ("dns:///grpc.io:1234", ok(domain("grpc.io"), 1234, None)),
        (
            "dns://8.8.8.8/grpc.io:1234",
            ok(domain("grpc.io"), 1234, Some(SocketAddress { ip: IpAddress::V4(v4(8, 8, 8, 8)), port: 53 })),
        ),
        (
            "dns://8.8.8.8:5678/grpc.io:1234/abc",
            ok(domain("grpc.io"), 1234, Some(SocketAddress { ip: IpAddress::V4(v4(8, 8, 8, 8)), port: 5678 })),
        ),
        (
            "dns://[::1]:5678/grpc.io:1234/abc",
            ok(domain("grpc.io"), 1234, Some(SocketAddress { ip: IpAddress::V6(ipv6_loopback), port: 5678 })),
        ),
        (
            "dns://[fe80::1]:5678/127.0.0.1:1234/abc",
            ok(Host::Ipv4(v4(127, 0, 0, 1)), 1234, Some(SocketAddress { ip: IpAddress::V6(fe80_1), port: 5678 })),
        ),
        ("dns:///[fe80::1%80]:5678/abc", Err("SocketAddr doesn't support IPv6 addresses with zones".to_string())),
        ("dns:///:5678/abc", Err("Empty host with port".to_string())),
        ("dns:///grpc.io:abc/abc", Err("Non numeric port".to_string())),
        ("dns:///grpc.io:/", ok(domain("grpc.io"), 443, None)),
        ("dns:///:", Err("No host and port".to_string())),
        ("dns:///[2001:db8:a0b:12f0::1", Err("Invalid address".to_string())),
    ];
    for (input, want) in cases {
        let target = Target::parse(input).unwrap();
        let got = parse_endpoint_and_authority(&target);
        if got.is_err() != want.is_err() {
            panic!("input {}: got {:?}, want {:?}", input, got, want);
        }
        assert_eq!(is_valid_uri(&target), got.is_ok());
        if got.is_err() {
            continue;
        }
        assert_eq!(got.unwrap(), want.unwrap(), "input {}", input);
    }
}

#[test]
fn non_ip_dns_authority_is_refused() {
    let target = Target::parse("dns://resolver.example/grpc.io").unwrap();
    assert_eq!(
        parse_endpoint_and_authority(&target),
        Err("Received non-IP DNS authority resolver.example".to_string())
    );
}

#[test]
fn endpoint_parse_error_names_the_target() {
    let target = Target::parse("dns:///grpc.io:abc").unwrap();
    let err = parse_endpoint_and_authority(&target).unwrap_err();
    assert!(err.starts_with("Failed to parse target dns:///grpc.io:abc: "), "{}", err);
}

#[test]
fn parse_host_port_defaults() {
    assert_eq!(
        parse_host_port("grpc.io", 443),
        Ok(Some(HostPort { host: domain("grpc.io"), port: 443 }))
    );
    assert_eq!(
        parse_host_port("10.0.0.1:99", 443),
        Ok(Some(HostPort { host: Host::Ipv4(v4(10, 0, 0, 1)), port: 99 }))
    );
    assert!(parse_host_port("grpc.io:99999", 443).is_err());
}

#[test]
fn default_authority_strips_leading_slash() {
    assert_eq!(default_authority(&Target::parse("dns:///grpc.io").unwrap()), "grpc.io");
    assert_eq!(default_authority(&Target::parse("unix:path/to/file").unwrap()), "path/to/file");
}

#[test]
fn decimal_formatting() {
    for n in [0u16, 7, 10, 53, 443, 1234, 65535] {
        let mut s = String::from("x");
        push_decimal(n, &mut s);
        assert_eq!(s, format!("x{}", n));
    }
}

#[test]
fn invalid_target_is_refused() {
    assert!(Target::parse("not a uri").is_err());
}

#[test]
fn unix_targets() {
    let cases = [
        ("unix:path/to/socket", Some("path/to/socket")),
        ("unix:/absolute/path", Some("/absolute/path")),
        ("unix:///absolute/path", Some("/absolute/path")),
        ("unix://authority/path", None),
    ];
    for (input, want) in cases {
        let target = Target::parse(input).unwrap();
        match (parse_unix_target(&target), want) {
            (Ok(a), Some(w)) => {
                assert_eq!(a.network_type, "unix");
                assert_eq!(a.address, w);
            }
            (Err(e), None) => assert!(e.contains("invalid (non-empty) authority"), "{}", e),
            (got, want) => panic!("input {}: got {:?}, want {:?}", input, got.map(|a| a.address), want),
        }
    }
    let target = Target::parse("unix-abstract:abstract_name").unwrap();
    let a = parse_unix_abstract_target(&target).unwrap();
    assert_eq!(a.network_type, "unix");
    assert_eq!(a.address, "\0abstract_name");
}

#[test]
fn dns_build_plans() {
    match build_plan(&Target::parse("dns:///grpc.io:50051").unwrap()) {
        DnsBuildPlan::Resolve { host, port, server } => {
            assert_eq!(host, "grpc.io");
            assert_eq!(port, 50051);
            assert!(server.is_none());
        }
        other => panic!("unexpected {:?}", other),
    }
    match build_plan(&Target::parse("dns:///10.1.2.3").unwrap()) {
        DnsBuildPlan::Fixed(IpAddress::V4(ip), port) => {
            assert_eq!(ip, v4(10, 1, 2, 3));
            assert_eq!(port, 443);
        }
        other => panic!("unexpected {:?}", other),
    }
    assert!(matches!(build_plan(&Target::parse("dns:///:").unwrap()), DnsBuildPlan::Fail(_)));
}

#[test]
fn dns_lookup_outcomes() {
    assert_eq!(lookup_outcome(None, 443), Err("Timed out waiting for DNS resolution".to_string()));
    assert_eq!(lookup_outcome(Some(Err("nx".to_string())), 443), Err("nx".to_string()));
    assert_eq!(
        lookup_outcome(Some(Ok(vec![IpAddress::V4(1), IpAddress::V6(2)])), 80),
        Ok(vec![
            SocketAddress { ip: IpAddress::V4(1), port: 80 },
            SocketAddress { ip: IpAddress::V6(2), port: 80 }
        ])
    );
    assert_eq!(next_lookup(&Some("refused".to_string())), NextLookup::AfterBackoff);
    assert_eq!(next_lookup(&None), NextLookup::AfterResolveNow);
}
