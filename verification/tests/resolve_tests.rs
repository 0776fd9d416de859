use anysocket::IpAddress;
use anysocket::ParseError;
use anysocket::SocketAddr;
use anysocket::ToSocketAddrs;
use anysocket::UnixAddr;

#[test]
fn resolve_single_address() {
    let a = SocketAddr::tcp(IpAddress::V4(1, 2, 3, 4), 5);
    let v = a.to_socket_addrs(true).unwrap();
    assert_eq!(v, vec![a]);
}

#[test]
fn resolve_ip_port_pair() {
    let v = (IpAddress::V4(9, 9, 9, 9), 53u16).to_socket_addrs(true).unwrap();
    assert_eq!(v, vec![SocketAddr::tcp(IpAddress::V4(9, 9, 9, 9), 53)]);
}

#[test]
fn resolve_string_parses() {
    let v = "tcp://127.0.0.1:80".to_string().to_socket_addrs(true).unwrap();
    assert_eq!(v, vec![SocketAddr::tcp(IpAddress::V4(127, 0, 0, 1), 80)]);
    let e = "nope://x".to_string().to_socket_addrs(true);
    assert_eq!(e, Err(ParseError::InvalidScheme));
}

#[test]
fn resolve_list_concatenates_in_order() {
    let a = "tcp://1.1.1.1:1".to_string();
    let b = "unix:///tmp/b.sock".to_string();
    let c = "tcp://[::1]:3".to_string();
    let items = vec![a, b, c];
    let v = items.to_socket_addrs(true).unwrap();
    assert_eq!(
        v,
        vec![
            SocketAddr::tcp(IpAddress::V4(1, 1, 1, 1), 1),
            SocketAddr::Unix(UnixAddr::Pathname("/tmp/b.sock".to_string())),
            SocketAddr::tcp(IpAddress::V6(0, 0, 0, 0, 0, 0, 0, 1), 3),
        ]
    );
}

#[test]
fn resolve_nested_lists_keep_order() {
    let inner1 = vec![
        SocketAddr::tcp(IpAddress::V4(1, 0, 0, 1), 1),
        SocketAddr::tcp(IpAddress::V4(1, 0, 0, 2), 2),
    ];
    let inner2 = vec![SocketAddr::tcp(IpAddress::V4(2, 0, 0, 1), 3)];
    let items = vec![inner1.clone(), inner2.clone()];
    let v = items.to_socket_addrs(false).unwrap();
    let mut expected = inner1;
    expected.extend(inner2);
    assert_eq!(v, expected);
}

#[test]
fn resolve_list_reports_first_error() {
    let items = vec![
        "tcp://1.1.1.1:1".to_string(),
        "tcp://bad:1".to_string(),
        "unix://@x".to_string(),
    ];
    assert_eq!(
        items.to_socket_addrs(false),
        Err(ParseError::InvalidTcpAddress)
    );
}

#[test]
fn path_form_honors_abstract_convention() {
    let a = anysocket::path_to_socket_addr("@svc", true).unwrap();
    assert_eq!(a, SocketAddr::Unix(UnixAddr::Abstract("svc".to_string())));
    let b = anysocket::path_to_socket_addr("@svc", false).unwrap();
    assert_eq!(b, SocketAddr::Unix(UnixAddr::Pathname("@svc".to_string())));
    let c = anysocket::path_to_socket_addr("/tmp/s", false).unwrap();
    assert_eq!(c, SocketAddr::Unix(UnixAddr::Pathname("/tmp/s".to_string())));
    let d = anysocket::path_to_socket_addr("", true).unwrap();
    assert_eq!(d, SocketAddr::Unix(UnixAddr::Unnamed));
    assert_eq!(
        anysocket::path_to_socket_addr("a\u{0}", true),
        Err(ParseError::InvalidUnixPath)
    );
}
