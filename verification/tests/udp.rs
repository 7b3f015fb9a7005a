use moproxy::net::{Ipv4Addr, Ipv6Addr, SocketAddrV4, SocketAddrV6};
use moproxy::udp::iface::{parse_udp_packet, write_packet};
use moproxy::udp::{SocketPair, SocketPairV4, SocketPairV6, UdpData};
use pnet_packet::ipv4::Ipv4Packet;
use pnet_packet::udp::UdpPacket;

fn v4(bits: u32, port: u16) -> SocketAddrV4 {
    SocketAddrV4 { ip: Ipv4Addr { bits }, port }
}

fn v6(bits: u128, port: u16) -> SocketAddrV6 {
    SocketAddrV6 { ip: Ipv6Addr { bits }, port, flowinfo: 0, scope_id: 0 }
}

fn pair4() -> SocketPair {
    SocketPair::from(SocketPairV4 {
        src: v4(0xc0a80001, 12345),
        dst: v4(0xc0a800c7, 54321),
    })
}

fn pair6() -> SocketPair {
    SocketPair::from(SocketPairV6 {
        src: v6(0x20010db8_00000000_00000000_00000001, 4000),
        dst: v6(0x20010db8_00000000_00000000_00000002, 53),
    })
}

#[test]
fn pairs_are_turned_round() {
    let mut pair = pair4();
    pair.reverse();
    assert_eq!(
        SocketPair::V4(SocketPairV4 {
            src: v4(0xc0a800c7, 54321),
            dst: v4(0xc0a80001, 12345),
        }),
        pair
    );
    pair.reverse();
    assert_eq!(pair4(), pair);
    let mut pair = pair6();
    pair.reverse();
    assert_ne!(pair6(), pair);
    pair.reverse();
    assert_eq!(pair6(), pair);
}

#[test]
fn ipv6_packets_are_read_back() {
    for data in [vec![], vec![1u8, 2, 3], vec![7; 2000]] {
        let bytes = write_packet(&UdpData { sockets: pair6(), data: data.clone() }).unwrap();
        assert_eq!(48 + data.len(), bytes.len());
        assert_eq!(0x60, bytes[0]);
        let read = parse_udp_packet(&bytes).unwrap();
        assert_eq!(pair6(), read.sockets);
        assert_eq!(data, read.data);
    }
    assert!(write_packet(&UdpData { sockets: pair6(), data: vec![7; 2001] }).is_err());
}

#[test]
fn the_ipv6_header_is_complete() {
    let bytes = write_packet(&UdpData { sockets: pair6(), data: vec![9, 9] }).unwrap();
    let mut expected = vec![0x60, 0, 0, 0, 0, 10, 17, 64];
    expected.extend([0x20, 1, 0x0d, 0xb8, 0, 0, 0, 0, 0, 0, 0, 0, 0, 0, 0, 1]);
    expected.extend([0x20, 1, 0x0d, 0xb8, 0, 0, 0, 0, 0, 0, 0, 0, 0, 0, 0, 2]);
    assert_eq!(expected, bytes[..40].to_vec());
    assert_eq!(vec![0x0f, 0xa0, 0, 53, 0, 10], bytes[40..46].to_vec());
    // words of the addresses, protocol, header length and header
    let sum: u32 = 2 * (0x2001 + 0x0db8) + 3 + 17 + 8 + 4000 + 53 + 10;
    let folded = (sum >> 16) + (sum & 0xffff);
    assert_eq!((!(folded as u16)).to_be_bytes().to_vec(), bytes[46..48].to_vec());
    assert_eq!(vec![9, 9], bytes[48..].to_vec());
}

#[test]
fn ipv4_headers_are_followed_by_zeros() {
    let bytes = write_packet(&UdpData { sockets: pair4(), data: b"test".to_vec() }).unwrap();
    assert_eq!(40 + 8 + 4, bytes.len());
    let ip = Ipv4Packet::new(&bytes).unwrap();
    assert_eq!(4, ip.get_version());
    assert_eq!(5, ip.get_header_length());
    assert_eq!(32, ip.get_total_length());
    assert_eq!(64, ip.get_ttl());
    assert_eq!(pnet_packet::ipv4::checksum(&ip), ip.get_checksum());
    assert_eq!(vec![0; 20], bytes[20..40].to_vec());
    let udp = UdpPacket::new(&bytes[40..]).unwrap();
    assert_eq!(12345, udp.get_source());
    assert_eq!(54321, udp.get_destination());
    assert_eq!(12, udp.get_length());
    assert!(parse_udp_packet(&bytes).is_none());
    assert!(write_packet(&UdpData { sockets: pair4(), data: vec![0; 2021] }).is_err());
    let large = write_packet(&UdpData { sockets: pair4(), data: vec![5; 2020] }).unwrap();
    assert_eq!(2048, large.len());
}

#[test]
fn ipv4_packets_are_read() {
    let mut bytes = vec![0x45, 0, 0, 31, 0, 0, 0, 0, 64, 17, 0, 0, 10, 0, 0, 1, 10, 0, 0, 2];
    bytes.extend([0, 1, 0, 2, 0, 11, 0, 0, b'a', b'b', b'c', b'x']);
    let read = parse_udp_packet(&bytes).unwrap();
    assert_eq!(
        SocketPair::V4(SocketPairV4 { src: v4(0x0a000001, 1), dst: v4(0x0a000002, 2) }),
        read.sockets
    );
    assert_eq!(b"abc".to_vec(), read.data);
    // with options
    let mut long = vec![0x46, 0, 0, 33, 0, 0, 0, 0, 64, 17, 0, 0, 10, 0, 0, 1, 10, 0, 0, 2];
    long.extend([1, 1, 1, 1]);
    long.extend([0, 1, 0, 2, 0, 9, 0, 0, b'z']);
    assert_eq!(b"z".to_vec(), parse_udp_packet(&long).unwrap().data);
    // another protocol
    bytes[9] = 6;
    assert!(parse_udp_packet(&bytes).is_none());
}

#[test]
fn other_bytes_are_no_packets() {
    assert!(parse_udp_packet(&[]).is_none());
    assert!(parse_udp_packet(&[0x45; 19]).is_none());
    assert!(parse_udp_packet(&[0x60; 39]).is_none());
    assert!(parse_udp_packet(&[0x50; 60]).is_none());
    let mut short = vec![0x60, 0, 0, 0, 0, 7, 17, 64];
    short.extend([0; 39]);
    assert!(parse_udp_packet(&short).is_none());
}
