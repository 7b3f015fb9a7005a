use moproxy::client::accept::{AcceptError, Acceptor, Step};
use moproxy::client::connect::{clamp, try_connect_all, Decision};
use moproxy::client::read::{Read, ReadEvent, ReadOutcome};
use moproxy::client::{
    find_tls, nat_destination, normalize, ConnectPlan, Connectable, FailedClient, NewClient,
    NewClientWithData,
};
use moproxy::net::{parse_socket_addr, SocketAddr};
use moproxy::proxy::Destination;

fn addr(s: &str) -> SocketAddr {
    parse_socket_addr(s).unwrap()
}

/// A ClientHello with the given extensions.
fn hello(extensions: &[u8]) -> Vec<u8> {
    let mut body = vec![3, 3];
    body.extend([7; 32]);
    body.extend([2, 8, 9]);
    body.extend([0, 2, 0x13, 1]);
    body.extend([1, 0]);
    body.extend([0, extensions.len() as u8]);
    body.extend(extensions);
    let mut data = vec![22, 3, 1, 0, body.len() as u8 + 4, 1, 0, 0, body.len() as u8];
    data.extend(body);
    data
}

fn sni(name: &str) -> Vec<u8> {
    let n = name.len() as u8;
    let mut ext = vec![0, 0, 0, n + 5, 0, n + 3, 0, 0, n];
    ext.extend(name.as_bytes());
    ext
}

#[test]
fn redirected_connections_have_another_destination() {
    let local = addr("127.0.0.1:2080");
    assert_eq!(None, nat_destination(None, local));
    assert_eq!(None, nat_destination(Some(local), local));
    assert_eq!(None, nat_destination(Some(addr("[::ffff:127.0.0.1]:2080")), local));
    let dest = addr("1.2.3.4:443");
    assert_eq!(Some(dest), nat_destination(Some(dest), local));
    assert_eq!(addr("[::ffff:1.2.3.4]:443"), normalize(dest));
    assert_eq!(addr("[::1]:443"), normalize(addr("[::1]:443")));
}

#[test]
fn names_are_found_in_first_bytes() {
    let mut exts = vec![0, 23, 0, 0];
    exts.extend(sni("example.com"));
    exts.extend([0, 35, 0, 1, 9]);
    let data = hello(&exts);
    let tls = find_tls(Some(&data));
    assert_eq!(Some("example.com".to_string()), tls.sni);
    assert!(tls.has_full_tls_hello);
    assert_eq!(Some(data), tls.pending_data);
    let plain = find_tls(Some(b"GET / HTTP/1.1"));
    assert!(!plain.has_full_tls_hello);
    assert_eq!(None, plain.sni);
    assert!(plain.pending_data.is_some());
    let nothing = find_tls(None);
    assert!(nothing.pending_data.is_none());
    assert_eq!(None, find_tls(Some(&hello(&[0, 23, 0, 0]))).sni);
}

#[test]
fn names_take_the_place_of_addresses() {
    let mut client = NewClient::new(Destination::from(addr("1.2.3.4:443")), 2080);
    assert!(!client.override_dest_with_sni());
    let data = hello(&sni("example.com"));
    client.retrieve_dest_from_sni(Some(&data));
    client.retrieve_dest_from_sni(None);
    assert_eq!(Some(&data), client.pending_data());
    assert!(client.override_dest_with_sni());
    assert_eq!("example.com:443", client.dest.to_string());
    let features = client.features();
    assert_eq!(Some(2080), features.listen_port);
    assert_eq!(Some("example.com"), features.dst_domain);
    assert_eq!(Some(addr("1.2.3.4:443").ip()), features.dst_ip);
    assert!(!client.override_dest_with_sni());
    assert_eq!(Some((3, true)), client.connect_plan(3, 5));
    assert_eq!(Some((1, true)), client.connect_plan(3, 0));
    assert_eq!(None, client.connect_plan(0, 5));
    let other = NewClient::new(Destination::domain("a", 80), 1);
    assert_eq!(Some((1, false)), other.connect_plan(3, 5));
    assert_eq!(None, other.features().dst_ip);
}

#[test]
fn clients_with_data_may_try_several_servers() {
    let data = hello(&sni("example.com"));
    let client = NewClientWithData::retrive_dest(Destination::from(addr("1.2.3.4:443")), Some(&data));
    assert_eq!("example.com:443", client.dest.to_string());
    assert!(client.allow_parallel);
    assert_eq!(
        ConnectPlan { n_parallel: 2, wait_response: true, with_data: true },
        client.connect_server(2, 5)
    );
    let plain = NewClient::new(Destination::from(addr("1.2.3.4:80")), 1);
    assert_eq!(
        ConnectPlan { n_parallel: 1, wait_response: false, with_data: false },
        plain.connect_server(2, 5)
    );
    let failed: FailedClient<u8> = FailedClient::Recoverable(plain);
    assert!(failed.recovery().is_ok());
    let failed: FailedClient<u8> = FailedClient::Unrecoverable(3);
    assert_eq!(3, failed.recovery().unwrap_err());
}

#[test]
fn servers_are_tried_in_order() {
    assert_eq!(2, clamp(1, 2, 4));
    assert_eq!(4, clamp(9, 2, 4));
    let mut all = try_connect_all(5, 2, true);
    assert_eq!(Decision::StartMore, all.decide());
    assert_eq!(vec![0, 1], all.start_more());
    assert_eq!(Decision::Wait, all.decide());
    assert_eq!(0, all.fail(0));
    assert_eq!(Decision::StartMore, all.decide());
    assert_eq!(vec![2], all.start_more());
    assert_eq!(&vec![1, 2], all.connecting());
    assert_eq!(2, all.fail(1));
    assert_eq!(1, all.fail(0));
    assert_eq!(vec![3, 4], all.start_more());
    assert_eq!(3, all.fail(0));
    assert_eq!(Decision::Wait, all.decide());
    assert_eq!(4, all.fail(0));
    assert_eq!(Decision::GiveUp { had_error: true }, all.decide());
    let mut one = try_connect_all(3, 3, false);
    assert_eq!(vec![0], one.start_more());
    assert_eq!(
        Decision::GiveUp { had_error: false },
        try_connect_all(0, 3, false).decide()
    );
}

fn accept(input: &[u8]) -> Result<(String, Vec<u8>), AcceptError> {
    let (mut acceptor, mut step) = Acceptor::start();
    let mut at = 0;
    let mut written = vec![];
    loop {
        match step {
            Step::Exchange { write, read } => {
                written.extend(write);
                let next = at + read;
                step = acceptor.next(&input[at..next]);
                at = next;
            }
            Step::Accept { reply, dest } => {
                written.extend(reply);
                assert_eq!(input.len(), at);
                return Ok((dest.to_string(), written));
            }
            Step::Fail(e) => return Err(e),
        }
    }
}

#[test]
fn socks_clients_are_accepted() {
    let replies = vec![5, 0, 5, 0, 0, 1, 0, 0, 0, 0, 0, 0];
    let (dest, written) = accept(&[5, 1, 0, 5, 1, 0, 1, 1, 2, 3, 4, 0, 80]).unwrap();
    assert_eq!("1.2.3.4:80", dest);
    assert_eq!(replies, written);
    let (dest, _) = accept(b"\x05\x02\x01\x00\x05\x01\x00\x03\x01a\x01\xbb").unwrap();
    assert_eq!("a:443", dest);
    let mut six = vec![5, 1, 0, 5, 1, 0, 4];
    six.extend([0; 15]);
    six.extend([1, 0, 80]);
    let (dest, _) = accept(&six).unwrap();
    assert_eq!(Destination::from(addr("[::1]:80")).to_string(), dest);
}

#[test]
fn other_clients_are_refused() {
    assert_eq!(AcceptError::NotSocks, accept(b"G").unwrap_err());
    assert_eq!(AcceptError::AuthRequired, accept(&[5, 1, 2]).unwrap_err());
    assert_eq!(
        AcceptError::ConnectRequired,
        accept(&[5, 1, 0, 5, 2, 0, 1]).unwrap_err()
    );
    assert_eq!(
        AcceptError::UnknownAddressType,
        accept(&[5, 1, 0, 5, 1, 0, 2]).unwrap_err()
    );
    assert_eq!(
        AcceptError::InvalidName,
        accept(&[5, 1, 0, 5, 1, 0, 3, 1, 0xff, 0, 80]).unwrap_err()
    );
    assert_eq!("SOCKSv5: Invalid domain name", AcceptError::InvalidName.message());
}

#[test]
fn reading_ends_at_the_deadline() {
    let mut read = Read::new();
    assert_eq!(ReadOutcome::Pending, read.poll(false, ReadEvent::Pending));
    assert_eq!(ReadOutcome::Failed, read.poll(false, ReadEvent::Failed));
    assert_eq!(ReadOutcome::Done(0), read.poll(true, ReadEvent::Ready(9)));
    assert!(read.is_done);
    assert_eq!(ReadOutcome::Done(9), Read::new().poll(false, ReadEvent::Ready(9)));
}
