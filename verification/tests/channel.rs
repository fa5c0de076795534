use grpc::client::channel::parse_authority;
use grpc::client::channel::parse_u16;
use grpc::client::channel::Authority;
use grpc::client::channel::ChannelOptions;

#[test]
fn test_parse_authority() {
    struct TestCase {
        input: &'static str,
        expected: Authority,
    }

    let cases = [
        TestCase { input: "localhost:http", expected: Authority::new("localhost:http", None) },
        TestCase { input: "localhost:80", expected: Authority::new("localhost", Some(80)) },
        // host name with zone identifier.
        TestCase { input: "localhost%lo0:80", expected: Authority::new("localhost%lo0", Some(80)) },
        TestCase { input: "localhost%lo0:http", expected: Authority::new("localhost%lo0:http", None) },
        TestCase { input: "[localhost%lo0]:http", expected: Authority::new("[localhost%lo0]:http", None) },
        TestCase { input: "[localhost%lo0]:80", expected: Authority::new("localhost%lo0", Some(80)) },
        // IP literal
        TestCase { input: "127.0.0.1:http", expected: Authority::new("127.0.0.1:http", None) },
        TestCase { input: "127.0.0.1:80", expected: Authority::new("127.0.0.1", Some(80)) },
        TestCase { input: "[::1]:http", expected: Authority::new("[::1]:http", None) },
        TestCase { input: "[::1]:80", expected: Authority::new("::1", Some(80)) },
        // IP literal with zone identifier.
        TestCase { input: "[::1%lo0]:http", expected: Authority::new("[::1%lo0]:http", None) },
        TestCase { input: "[::1%lo0]:80", expected: Authority::new("::1%lo0", Some(80)) },
        TestCase { input: ":http", expected: Authority::new(":http", None) },
        TestCase { input: ":80", expected: Authority::new("", Some(80)) },
        TestCase { input: "grpc.io:", expected: Authority::new("grpc.io:", None) },
        TestCase { input: "127.0.0.1:", expected: Authority::new("127.0.0.1:", None) },
        TestCase { input: "[::1]:", expected: Authority::new("[::1]:", None) },
        TestCase { input: "grpc.io:https%foo", expected: Authority::new("grpc.io:https%foo", None) },
        TestCase { input: "grpc.io", expected: Authority::new("grpc.io", None) },
        TestCase { input: "127.0.0.1", expected: Authority::new("127.0.0.1", None) },
        TestCase { input: "[::1]", expected: Authority::new("[::1]", None) },
        TestCase { input: "[fe80::1%lo0]", expected: Authority::new("[fe80::1%lo0]", None) },
        TestCase { input: "[localhost%lo0]", expected: Authority::new("[localhost%lo0]", None) },
        TestCase { input: "localhost%lo0", expected: Authority::new("localhost%lo0", None) },
        TestCase { input: "::1", expected: Authority::new("::1", None) },
        TestCase { input: "fe80::1%lo0", expected: Authority::new("fe80::1%lo0", None) },
        TestCase { input: "fe80::1%lo0:80", expected: Authority::new("fe80::1%lo0:80", None) },
        TestCase { input: "[foo:bar]", expected: Authority::new("[foo:bar]", None) },
        TestCase { input: "[foo:bar]baz", expected: Authority::new("[foo:bar]baz", None) },
        TestCase { input: "[foo]bar:baz", expected: Authority::new("[foo]bar:baz", None) },
        TestCase { input: "[foo]:[bar]:baz", expected: Authority::new("[foo]:[bar]:baz", None) },
        TestCase { input: "[foo]:[bar]baz", expected: Authority::new("[foo]:[bar]baz", None) },
        TestCase { input: "foo[bar]:baz", expected: Authority::new("foo[bar]:baz", None) },
        TestCase { input: "foo]bar:baz", expected: Authority::new("foo]bar:baz", None) },
    ];

    for TestCase { input, expected } in cases {
        let auth = parse_authority(input);
        assert_eq!(auth, expected, "authority mismatch for {}", input);
    }
}

#[test]
fn parse_u16_matches_std() {
    for input in ["0", "80", "+80", "65535", "65536", "", "+", "-1", "8a", "00080", "99999999", "ü1"] {
        assert_eq!(parse_u16(input), input.parse::<u16>().ok(), "input {}", input);
    }
}

#[test]
fn parse_authority_port_bounds() {
    assert_eq!(parse_authority("host:65535").port(), Some(65535));
    assert_eq!(parse_authority("host:65536").port(), None);
    assert_eq!(parse_authority("host:65536").host(), "host:65536");
    assert_eq!(parse_authority("[::1]:+443").port(), Some(443));
    assert_eq!(parse_authority("[::1]:+443").host(), "::1");
}

#[test]
fn channel_options_defaults() {
    let o = ChannelOptions::default();
    assert_eq!(o.idle_timeout, std::time::Duration::from_secs(30 * 60));
    assert_eq!(o.max_retry_memory, 8 * 1024 * 1024);
    assert!(o.channel_authority.is_none());
    let o = o.override_authority("example.com".to_string());
    assert_eq!(o.channel_authority.as_deref(), Some("example.com"));
    assert_eq!(o.idle_timeout, std::time::Duration::from_secs(1800));
}
