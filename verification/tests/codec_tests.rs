use anysocket::IpAddress;
use anysocket::ParseError;
use anysocket::SocketAddr;
use anysocket::UnixAddr;

#[test]
fn parse_tcp_v4() {
    let a = SocketAddr::parse("tcp://127.0.0.1:8080", true).unwrap();
    assert!(a.is_tcp());
    assert!(!a.is_unix());
    assert_eq!(a, SocketAddr::tcp(IpAddress::V4(127, 0, 0, 1), 8080));
    assert_eq!(a.format(), "tcp://127.0.0.1:8080");
}

#[test]
fn parse_tcp_v4_edges() {
    let a = SocketAddr::parse("tcp://0.0.0.0:0", false).unwrap();
    assert_eq!(a, SocketAddr::tcp(IpAddress::V4(0, 0, 0, 0), 0));
    let b = SocketAddr::parse("tcp://255.255.255.255:65535", false).unwrap();
    assert_eq!(b, SocketAddr::tcp(IpAddress::V4(255, 255, 255, 255), 65535));
}

#[test]
fn parse_tcp_v6_full() {
    let a = SocketAddr::parse("tcp://[2001:db8:0:0:0:ff00:42:8329]:443", true).unwrap();
    assert_eq!(
        a,
        SocketAddr::tcp(
            IpAddress::V6(0x2001, 0xdb8, 0, 0, 0, 0xff00, 0x42, 0x8329),
            443
        )
    );
    assert_eq!(a.format(), "tcp://[2001:db8:0:0:0:ff00:42:8329]:443");
}

#[test]
fn parse_tcp_v6_compressed() {
    let a = SocketAddr::parse("tcp://[2001:db8::ff00:42:8329]:443", true).unwrap();
    assert_eq!(
        a,
        SocketAddr::tcp(
            IpAddress::V6(0x2001, 0xdb8, 0, 0, 0, 0xff00, 0x42, 0x8329),
            443
        )
    );
    let b = SocketAddr::parse("tcp://[::1]:80", true).unwrap();
    assert_eq!(b, SocketAddr::tcp(IpAddress::V6(0, 0, 0, 0, 0, 0, 0, 1), 80));
    assert_eq!(b.format(), "tcp://[0:0:0:0:0:0:0:1]:80");
    let c = SocketAddr::parse("tcp://[::]:80", true).unwrap();
    assert_eq!(c, SocketAddr::tcp(IpAddress::V6(0, 0, 0, 0, 0, 0, 0, 0), 80));
    let d = SocketAddr::parse("tcp://[1:2:3:4:5:6:7::]:9", true).unwrap();
    assert_eq!(d, SocketAddr::tcp(IpAddress::V6(1, 2, 3, 4, 5, 6, 7, 0), 9));
    let e = SocketAddr::parse("tcp://[FFFF::abCD]:1", true).unwrap();
    assert_eq!(
        e,
        SocketAddr::tcp(IpAddress::V6(0xffff, 0, 0, 0, 0, 0, 0, 0xabcd), 1)
    );
}

#[test]
fn parse_tcp_v6_embedded_v4() {
    let a = SocketAddr::parse("tcp://[::ffff:192.168.0.1]:10", true).unwrap();
    assert_eq!(
        a,
        SocketAddr::tcp(IpAddress::V6(0, 0, 0, 0, 0, 0xffff, 0xc0a8, 0x0001), 10)
    );
    assert_eq!(a.format(), "tcp://[0:0:0:0:0:ffff:c0a8:1]:10");
    let b = SocketAddr::parse("tcp://[1:2:3:4:5:6:1.2.3.4]:10", true).unwrap();
    assert_eq!(
        b,
        SocketAddr::tcp(IpAddress::V6(1, 2, 3, 4, 5, 6, 0x0102, 0x0304), 10)
    );
}

#[test]
fn parse_tcp_rejects_malformed() {
    for bad in [
        "tcp://1.2.3:80",
        "tcp://1.2.3.4.5:80",
        "tcp://256.1.1.1:80",
        "tcp://01.2.3.4:80",
        "tcp://1.2.3.4:99999",
        "tcp://1.2.3.4:",
        "tcp://1.2.3.4",
        "tcp://[::1]80",
        "tcp://[:::1]:80",
        "tcp://[1::2::3]:80",
        "tcp://[1:2:3:4:5:6:7:8:9]:80",
        "tcp://[1:2:3:4:5:6:7]:80",
        "tcp://[12345::1]:80",
        "tcp://[1:2:3:4:5:6:7:8::]:80",
        "tcp://[g::1]:80",
        "tcp://:80",
    ] {
        assert_eq!(
            SocketAddr::parse(bad, true),
            Err(ParseError::InvalidTcpAddress),
            "{bad}"
        );
    }
}

#[test]
fn parse_rejects_unknown_scheme() {
    assert_eq!(
        SocketAddr::parse("http://example.com", true),
        Err(ParseError::InvalidScheme)
    );
    assert_eq!(SocketAddr::parse("", true), Err(ParseError::InvalidScheme));
    assert_eq!(
        SocketAddr::parse("tcp:/1.2.3.4:80", true),
        Err(ParseError::InvalidScheme)
    );
}

#[test]
fn parse_unix_path() {
    let a = SocketAddr::parse("unix:///tmp/test.sock", true).unwrap();
    assert!(a.is_unix());
    assert_eq!(a, SocketAddr::Unix(UnixAddr::Pathname("/tmp/test.sock".to_string())));
    assert_eq!(a.format(), "unix:///tmp/test.sock");
}

#[test]
fn parse_unix_abstract() {
    let a = SocketAddr::parse("unix://@test-socket", true).unwrap();
    assert_eq!(a, SocketAddr::Unix(UnixAddr::Abstract("test-socket".to_string())));
    assert_eq!(a.format(), "unix://@test-socket");
}

#[test]
fn parse_unix_abstract_unsupported_platform() {
    assert_eq!(
        SocketAddr::parse("unix://@test-socket", false),
        Err(ParseError::AbstractNamesUnsupported)
    );
}

#[test]
fn parse_unix_rejects_nul() {
    assert_eq!(
        SocketAddr::parse("unix:///tmp/a\u{0}b", true),
        Err(ParseError::InvalidUnixPath)
    );
}

#[test]
fn parse_unix_empty_is_unnamed() {
    let a = SocketAddr::parse("unix://", true).unwrap();
    assert_eq!(a, SocketAddr::Unix(UnixAddr::Unnamed));
}

#[test]
fn unnamed_formats_to_placeholder_that_never_parses() {
    let a = SocketAddr::Unix(UnixAddr::Unnamed);
    let text = a.format();
    assert_eq!(text, "(unnamed unix socket)");
    assert_eq!(
        SocketAddr::parse(&text, true),
        Err(ParseError::InvalidScheme)
    );
    assert_eq!(
        SocketAddr::parse(&text, false),
        Err(ParseError::InvalidScheme)
    );
}

#[test]
fn round_trip_named_addresses() {
    let cases = [
        SocketAddr::tcp(IpAddress::V4(10, 0, 0, 7), 22),
        SocketAddr::tcp(IpAddress::V6(0xfe80, 0, 0, 0, 1, 2, 3, 4), 65535),
        SocketAddr::Unix(UnixAddr::Pathname("/run/app.sock".to_string())),
        SocketAddr::Unix(UnixAddr::Abstract("name with spaces".to_string())),
        SocketAddr::Unix(UnixAddr::Abstract("".to_string())),
        SocketAddr::Unix(UnixAddr::Abstract("a\u{0}b".to_string())),
    ];
    for a in cases {
        let text = a.format();
        let back = SocketAddr::parse(&text, true).unwrap();
        assert_eq!(back, a, "{text}");
    }
}

#[test]
fn unix_constructors() {
    assert_eq!(
        UnixAddr::from_pathname("/tmp/x".to_string()).unwrap(),
        UnixAddr::Pathname("/tmp/x".to_string())
    );
    assert!(UnixAddr::from_pathname("".to_string()).unwrap().is_unnamed());
    assert_eq!(
        UnixAddr::from_pathname("a\u{0}b".to_string()),
        Err(ParseError::InvalidUnixPath)
    );
    assert_eq!(
        UnixAddr::from_abstract_name("x".to_string(), true).unwrap(),
        UnixAddr::Abstract("x".to_string())
    );
    assert_eq!(
        UnixAddr::from_abstract_name("x".to_string(), false),
        Err(ParseError::AbstractNamesUnsupported)
    );
}

#[test]
fn unix_addr_path_encoding() {
    let p = anysocket::unix_addr_to_path(&UnixAddr::Pathname("/tmp/y".to_string()));
    assert_eq!(p, "/tmp/y");
    let a = anysocket::unix_addr_to_path(&UnixAddr::Abstract("name".to_string()));
    assert_eq!(a, "\u{0}name");
    assert_eq!(a.as_bytes()[0], 0);
}

#[test]
fn into2_converts_both_elements() {
    let (x, y): (u16, u64) = anysocket::into2((7u8, 9u32));
    assert_eq!(x, 7u16);
    assert_eq!(y, 9u64);
}
