use moproxy::net::{parse_socket_addr, SocketAddr};
use moproxy::proxy::socks5::{Handshake, Socks5Error, Step};
use moproxy::proxy::{Destination, UserPassAuthCredential};
use moproxy::socks5::{build_request, Socks5Server};

fn exchange(step: Step) -> (Vec<u8>, usize) {
    match step {
        Step::Exchange { write, read } => (write, read),
        other => panic!("{:?}", other),
    }
}

#[test]
fn test_socks5_domain() {
    let dest = Destination::domain("example.com", 80);
    let payload = b"early-payload";
    let (mut handshake, step) = Handshake::start(dest, Some(payload.to_vec()), false, None);

    let (buf, n) = exchange(step);
    assert_eq!(&[5, 1, 0], &buf[..3]); // ver 5, no auth
    assert_eq!(3, buf.len());
    assert_eq!(2, n);
    let step = handshake.next(&[5, 0]); // no auth

    let (buf, n) = exchange(step);
    assert!(buf.starts_with(&[5, 1, 0, 3, 11])); // domain, len 11
    assert!(buf[5..].starts_with(b"example.com"));
    assert!(buf[16..].starts_with(&[0, 80]));
    assert_eq!(18, buf.len());
    assert_eq!(10, n);
    let step = handshake.next(&[5, 0, 0, 1, 0, 0, 0, 0, 0, 80]);

    assert!(matches!(step, Step::Finish { data: Some(data) } if data == b"early-payload"));
}

#[test]
fn test_socks5_ipv6() {
    let dest = Destination::from(parse_socket_addr("[2001:db8::1]:80").unwrap());
    let payload = b"early-payload";
    let (mut handshake, step) = Handshake::start(dest, Some(payload.to_vec()), false, None);

    let (buf, n) = exchange(step);
    assert_eq!(&[5, 1, 0], &buf[..3]); // ver 5, no auth
    assert_eq!(2, n);
    let step = handshake.next(&[5, 0]); // no auth

    let (buf, n) = exchange(step);
    assert_eq!(
        &buf[..22],
        &[
            5, 1, 0, 4, 0x20, 0x01, 0x0d, 0xb8, 0, 0, 0, 0, 0, 0, 0, 0, 0, 0, 0,
            1, // 2001:db8::1
            0, 80, // port number
        ]
    );
    let reply = [
        5, 0, 0, 4, 1, 2, 3, 4, 5, 6, 7, 8, 8, 7, 6, 5, 4, 3, 2, 1, // v6 addr
        0, 80, // port number
    ];
    let step = handshake.next(&reply[..n]);
    let (buf, m) = exchange(step);
    assert!(buf.is_empty());
    assert_eq!(reply.len(), n + m);
    let step = handshake.next(&reply[n..]);

    assert!(matches!(step, Step::Finish { data: Some(data) } if data == b"early-payload"));
}

fn answer(auth: bool, replies: &[&[u8]]) -> Step {
    let auth = if auth {
        Some(UserPassAuthCredential::new("me", "secret"))
    } else {
        None
    };
    let dest = Destination::domain("a", 1);
    let (mut handshake, mut step) = Handshake::start(dest, None, false, auth);
    for reply in replies {
        assert_eq!(exchange(step).1, reply.len());
        step = handshake.next(reply);
    }
    step
}

#[test]
fn passwords_are_sent_on_demand() {
    let (write, read) = exchange(answer(true, &[&[5, 2]]));
    assert_eq!(b"\x05\x02me\x06secret".to_vec(), write);
    assert_eq!(2, read);
    let (write, _) = exchange(answer(true, &[&[5, 2], &[5, 0]]));
    assert_eq!(vec![5, 1, 0, 3, 1, b'a', 0, 1], write);
    let (write, _) = exchange(answer(true, &[&[5, 0]]));
    assert_eq!(vec![5, 1, 0, 3, 1, b'a', 0, 1], write);
}

#[test]
fn each_refusal_has_its_error() {
    let failed = |step: Step, error: Socks5Error| matches!(step, Step::Fail(e) if e == error);
    assert!(failed(answer(false, &[&[5, 0xff]]), Socks5Error::AuthRequired));
    assert!(failed(answer(false, &[&[5, 2]]), Socks5Error::MissingCredential));
    assert!(failed(answer(true, &[&[5, 2], &[5, 1]]), Socks5Error::AuthRejected));
    assert!(failed(answer(false, &[&[4, 0]]), Socks5Error::Unrecognized));
    assert!(failed(
        answer(false, &[&[5, 0], &[5, 1, 0, 1, 0, 0, 0, 0, 0, 0]]),
        Socks5Error::ReplyError
    ));
    assert_eq!("socks server reply error", Socks5Error::ReplyError.message());
}

#[test]
fn everything_is_sent_at_once_where_no_answer_is_waited_for() {
    let dest = Destination::from(parse_socket_addr("1.2.3.4:5").unwrap());
    let (mut handshake, step) = Handshake::start(dest, Some(b"hi".to_vec()), true, None);
    let (write, read) = exchange(step);
    assert_eq!(
        vec![5, 1, 0, 5, 1, 0, 1, 1, 2, 3, 4, 0, 5, b'h', b'i'],
        write
    );
    assert_eq!(12, read);
    let step = handshake.next(&[0; 12]);
    assert!(matches!(step, Step::Finish { data: None }));
}

#[test]
fn the_plain_server_has_its_port_for_a_tag() {
    let addr = parse_socket_addr("127.0.0.1:2001").unwrap();
    let server = Socks5Server::new(addr);
    assert_eq!("2001", server.tag());
    assert_eq!(addr, server.addr());
    assert_eq!("2001 (SOCKSv5 127.0.0.1:2001)", server.to_string());
    assert_eq!(
        vec![5, 1, 0, 5, 1, 0, 1, 127, 0, 0, 1, 7, 209],
        build_request(&addr)
    );
    let six: SocketAddr = parse_socket_addr("[::1]:80").unwrap();
    let mut expected = vec![5, 1, 0, 5, 1, 0, 4];
    expected.extend([0; 15]);
    expected.extend([1, 0, 80]);
    assert_eq!(expected, build_request(&six));
}
