//! UDP packets as the bytes of IP packets.

use super::{SocketPair, SocketPairV4, SocketPairV6, UdpData};
use crate::net::{Ipv4Addr, Ipv6Addr, SocketAddrV4, SocketAddrV6};
use crate::text::push_bytes;
use pnet_packet::ip::IpNextHeaderProtocol;
use pnet_packet::ipv4::{Ipv4Packet, MutableIpv4Packet};
use pnet_packet::ipv6::{Ipv6Packet, MutableIpv6Packet};
use pnet_packet::udp::{MutableUdpPacket, UdpPacket};
use pnet_packet::Packet;
use vstd::prelude::*;

verus! {

/// The number of UDP among the protocols over IP.
pub const UDP: u8 = 17;

/// How many bytes a packet has at most.
pub const BUF_SIZE: usize = 2048;

// ---- checksums ----

/// The sum of the 16-bit words of some bytes, but for the `skipped` one.
pub open spec fn word_sum(s: Seq<u8>, skipped: int) -> nat
    decreases s.len(),
{
    if s.len() < 2 {
        0
    } else {
        let n = s.len() as int;
        word_sum(s.take(n - 2), skipped) + if n / 2 - 1 == skipped {
            0
        } else {
            crate::text::be16(s, n - 2) as nat
        }
    }
}

/// The sum with what goes beyond 16 bits added again.
pub open spec fn folded(sum: nat) -> nat
    decreases sum,
{
    if sum < 65536 {
        sum
    } else {
        folded(sum / 65536 + sum % 65536)
    }
}

/// The checksum that stands for a sum: its complement.
pub open spec fn checksum_of(sum: nat) -> int {
    65535 - folded(sum)
}

/// `pnet_packet::udp::ipv4_checksum` sums up the two addresses, the number of
/// UDP, the length and the header without its checksum, the fourth word, and
/// gives the complement. Stated of a bare header.
#[verifier::external_body]
fn udp_checksum_v4(header: &Vec<u8>, src: u32, dst: u32) -> (r: u16)
    requires
        header@.len() == 8,
    ensures
        r == checksum_of(
            word_sum(crate::net::bytes_of(src as nat, 4), -1) + word_sum(
                crate::net::bytes_of(dst as nat, 4),
                -1,
            ) + 17 + 8 + word_sum(header@, 3),
        ),
{
    let packet = UdpPacket::new(header).unwrap();
    pnet_packet::udp::ipv4_checksum(&packet, &src.into(), &dst.into())
}

/// `pnet_packet::udp::ipv6_checksum` does the same with IPv6 addresses.
#[verifier::external_body]
fn udp_checksum_v6(header: &Vec<u8>, src: u128, dst: u128) -> (r: u16)
    requires
        header@.len() == 8,
    ensures
        r == checksum_of(
            word_sum(crate::net::bytes_of(src as nat, 16), -1) + word_sum(
                crate::net::bytes_of(dst as nat, 16),
                -1,
            ) + 17 + 8 + word_sum(header@, 3),
        ),
{
    let packet = UdpPacket::new(header).unwrap();
    pnet_packet::udp::ipv6_checksum(&packet, &src.into(), &dst.into())
}

/// `pnet_packet::ipv4::checksum` sums up the words of the header but its
/// checksum, the sixth word, and gives the complement. Stated of a header
/// without options.
#[verifier::external_body]
fn ipv4_checksum(header: &Vec<u8>) -> (r: u16)
    requires
        header@.len() == 20,
        header@[0] % 16 == 5,
    ensures
        r == checksum_of(word_sum(header@, 5)),
{
    pnet_packet::ipv4::checksum(&Ipv4Packet::new(header).unwrap())
}

// ---- headers ----

/// The header of a UDP packet.
pub open spec fn udp_header_bytes(src: u16, dst: u16, length: u16, checksum: u16) -> Seq<u8> {
    crate::text::be_bytes(src) + crate::text::be_bytes(dst) + crate::text::be_bytes(length)
        + crate::text::be_bytes(checksum)
}

/// The setters of `pnet_packet::udp::MutableUdpPacket` put the ports, the length
/// and the checksum into the header, one after the other, most significant byte
/// first.
#[verifier::external_body]
fn udp_header(src: u16, dst: u16, length: u16, checksum: u16) -> (r: Vec<u8>)
    ensures
        r@ == udp_header_bytes(src, dst, length, checksum),
{
    let mut buf = vec![0u8; UdpPacket::minimum_packet_size()];
    let mut packet = MutableUdpPacket::new(&mut buf).unwrap();
    packet.set_source(src);
    packet.set_destination(dst);
    packet.set_length(length);
    packet.set_checksum(checksum);
    buf
}

/// The header of an IPv6 packet, without traffic class and flow label.
pub open spec fn ipv6_header_bytes(
    version: u8,
    length: u16,
    protocol: u8,
    hop_limit: u8,
    src: u128,
    dst: u128,
) -> Seq<u8> {
    seq![(version * 16) as u8, 0, 0, 0] + crate::text::be_bytes(length) + seq![protocol, hop_limit]
        + crate::net::bytes_of(src as nat, 16) + crate::net::bytes_of(dst as nat, 16)
}

/// The setters of `pnet_packet::ipv6::MutableIpv6Packet` put the version, the
/// length of the payload, the protocol, the hop limit and the addresses into
/// their places of the header; the rest stays zero.
#[verifier::external_body]
fn ipv6_header(
    version: u8,
    length: u16,
    protocol: u8,
    hop_limit: u8,
    src: u128,
    dst: u128,
) -> (r: Vec<u8>)
    requires
        version < 16,
    ensures
        r@ == ipv6_header_bytes(version, length, protocol, hop_limit, src, dst),
{
    let mut buf = vec![0u8; Ipv6Packet::minimum_packet_size()];
    let mut packet = MutableIpv6Packet::new(&mut buf).unwrap();
    packet.set_version(version);
    packet.set_payload_length(length);
    packet.set_next_header(IpNextHeaderProtocol(protocol));
    packet.set_hop_limit(hop_limit);
    packet.set_source(src.into());
    packet.set_destination(dst.into());
    buf
}

/// The header of an IPv4 packet, where what is not given is zero.
pub open spec fn ipv4_header_bytes(
    version: u8,
    header_length: u8,
    length: u16,
    ttl: u8,
    checksum: u16,
    src: u32,
    dst: u32,
) -> Seq<u8> {
    seq![(version * 16 + header_length) as u8, 0] + crate::text::be_bytes(length)
        + seq![0u8, 0, 0, 0, ttl, 0] + crate::text::be_bytes(checksum) + crate::net::bytes_of(
        src as nat,
        4,
    ) + crate::net::bytes_of(dst as nat, 4)
}

/// The setters of `pnet_packet::ipv4::MutableIpv4Packet` put the version, the
/// length of the header in words, the length of the packet, the time to live,
/// the checksum and the addresses into their places of the header; the rest
/// stays zero.
#[verifier::external_body]
fn ipv4_header(
    version: u8,
    header_length: u8,
    length: u16,
    ttl: u8,
    checksum: u16,
    src: u32,
    dst: u32,
) -> (r: Vec<u8>)
    requires
        version < 16,
        header_length < 16,
    ensures
        r@ == ipv4_header_bytes(version, header_length, length, ttl, checksum, src, dst),
{
    let mut buf = vec![0u8; Ipv4Packet::minimum_packet_size()];
    let mut packet = MutableIpv4Packet::new(&mut buf).unwrap();
    packet.set_version(version);
    packet.set_header_length(header_length);
    packet.set_total_length(length);
    packet.set_ttl(ttl);
    packet.set_checksum(checksum);
    packet.set_source(src.into());
    packet.set_destination(dst.into());
    buf
}

// ---- writing ----

/// The packet does not fit into the buffer.
#[derive(Debug, Clone, Copy, PartialEq, Eq, Structural)]
pub struct PacketTooLarge {}

/// The words of the addresses and the number and length of UDP: what is summed
/// up besides the UDP header.
pub open spec fn pseudo_sum(sockets: SocketPair) -> nat {
    match sockets {
        SocketPair::V4(s) => word_sum(
            crate::net::bytes_of(s.src.ip.bits as nat, 4),
            -1,
        ) + word_sum(crate::net::bytes_of(s.dst.ip.bits as nat, 4), -1) + 17 + 8,
        SocketPair::V6(s) => word_sum(
            crate::net::bytes_of(s.src.ip.bits as nat, 16),
            -1,
        ) + word_sum(crate::net::bytes_of(s.dst.ip.bits as nat, 16), -1) + 17 + 8,
    }
}

/// The ports of a pair.
pub open spec fn ports(sockets: SocketPair) -> (u16, u16) {
    match sockets {
        SocketPair::V4(s) => (s.src.port, s.dst.port),
        SocketPair::V6(s) => (s.src.port, s.dst.port),
    }
}

/// The UDP header of a packet. The checksum does not cover the data.
pub open spec fn udp_part(pkt: super::UdpModel) -> Seq<u8> {
    let (src, dst) = ports(pkt.sockets);
    let length = (pkt.data.len() + 8) as u16;
    let bare = udp_header_bytes(src, dst, length, 0);
    udp_header_bytes(
        src,
        dst,
        length,
        checksum_of(pseudo_sum(pkt.sockets) + word_sum(bare, 3)) as u16,
    )
}

/// The IP header of a packet, always of the length of an IPv6 header. That of an
/// IPv4 packet does not name the protocol and has zeros behind it.
pub open spec fn ip_part(pkt: super::UdpModel) -> Seq<u8> {
    let udp_size = pkt.data.len() + 8;
    match pkt.sockets {
        SocketPair::V6(s) => ipv6_header_bytes(
            6,
            udp_size as u16,
            UDP,
            64,
            s.src.ip.bits,
            s.dst.ip.bits,
        ),
        SocketPair::V4(s) => {
            let length = (20 + udp_size) as u16;
            let bare = ipv4_header_bytes(4, 5, length, 64, 0, s.src.ip.bits, s.dst.ip.bits);
            ipv4_header_bytes(
                4,
                5,
                length,
                64,
                checksum_of(word_sum(bare, 5)) as u16,
                s.src.ip.bits,
                s.dst.ip.bits,
            ) + Seq::new(20, |i: int| 0u8)
        },
    }
}

/// How large a packet is by its headers.
pub open spec fn ip_size(pkt: super::UdpModel) -> nat {
    match pkt.sockets {
        SocketPair::V6(_) => 48 + pkt.data.len(),
        SocketPair::V4(_) => 28 + pkt.data.len(),
    }
}

/// Whether the length that the IP header gives is a number of 16 bits.
pub open spec fn has_length(pkt: super::UdpModel) -> bool {
    match pkt.sockets {
        SocketPair::V6(_) => 8 + pkt.data.len() <= 65535,
        SocketPair::V4(_) => 28 + pkt.data.len() <= 65535,
    }
}

/// The bytes of a packet, as far as they fit into the buffer.
pub open spec fn packet_bytes(pkt: super::UdpModel) -> Seq<u8> {
    let all = ip_part(pkt) + udp_part(pkt) + pkt.data;
    if all.len() <= BUF_SIZE {
        all
    } else {
        all.take(BUF_SIZE as int)
    }
}

/// Puts a packet together as bytes.
pub fn write_packet(pkt: &UdpData) -> (r: Result<Vec<u8>, PacketTooLarge>)
    requires
        has_length(pkt@),
    ensures
        match r {
            Ok(bytes) => ip_size(pkt@) <= BUF_SIZE && bytes@ == packet_bytes(pkt@),
            Err(_) => ip_size(pkt@) > BUF_SIZE,
        },
{
    let n = pkt.data.len();
    let udp_size: u16 = (n + 8) as u16;
    let (src, dst) = match pkt.sockets {
        SocketPair::V6(s) => (s.src.port, s.dst.port),
        SocketPair::V4(s) => (s.src.port, s.dst.port),
    };
    let bare = udp_header(src, dst, udp_size, 0);
    let checksum: u16 = match pkt.sockets {
        SocketPair::V6(s) => udp_checksum_v6(&bare, s.src.ip.bits, s.dst.ip.bits),
        SocketPair::V4(s) => udp_checksum_v4(&bare, s.src.ip.bits, s.dst.ip.bits),
    };
    let udp = udp_header(src, dst, udp_size, checksum);
    assert(udp@ =~= udp_part(pkt@));
    let (mut buf, size) = match pkt.sockets {
        SocketPair::V6(s) => {
            let header = ipv6_header(6, udp_size, UDP, 64, s.src.ip.bits, s.dst.ip.bits);
            (header, 40 + (udp_size as usize))
        },
        SocketPair::V4(s) => {
            let length: u16 = 20 + udp_size;
            let bare = ipv4_header(4, 5, length, 64, 0, s.src.ip.bits, s.dst.ip.bits);
            proof {
                crate::net::lemma_bytes_length(s.src.ip.bits as nat, 4);
                crate::net::lemma_bytes_length(s.dst.ip.bits as nat, 4);
                assert(bare@[0] == 69);
            }
            let checksum = ipv4_checksum(&bare);
            let mut header = ipv4_header(4, 5, length, 64, checksum, s.src.ip.bits, s.dst.ip.bits);
            let zeros: [u8; 20] = [0u8; 20];
            push_bytes(&mut header, &zeros);
            assert(header@ =~= ip_part(pkt@));
            (header, length as usize)
        },
    };
    if size > BUF_SIZE {
        return Err(PacketTooLarge {  });
    }
    push_bytes(&mut buf, udp.as_slice());
    push_bytes(&mut buf, pkt.data.as_slice());
    proof {
        assert(buf@ =~= ip_part(pkt@) + udp_part(pkt@) + pkt.data@);
    }
    if buf.len() > BUF_SIZE {
        buf.truncate(BUF_SIZE);
        assert(buf@ =~= packet_bytes(pkt@));
    }
    Ok(buf)
}

// ---- reading ----

/// What is read of an IP packet.
#[derive(Debug)]
pub struct IpPacket<A> {
    pub protocol: u8,
    pub src: A,
    pub dst: A,
    pub payload: Vec<u8>,
}

/// What is read of a UDP packet.
#[derive(Debug)]
pub struct UdpPart {
    pub src: u16,
    pub dst: u16,
    pub payload: Vec<u8>,
}

/// The bytes from `start` on, `len` of them or as many as there are.
pub open spec fn part(s: Seq<u8>, start: int, len: int) -> Seq<u8> {
    if s.len() <= start {
        Seq::empty()
    } else if start + len <= s.len() {
        s.subrange(start, start + len)
    } else {
        s.skip(start)
    }
}

/// The accessors of `pnet_packet::ipv6::Ipv6Packet`: a packet has 40 bytes or
/// more; the protocol stands in byte 6, the addresses from bytes 8 and 24 on, and
/// the payload behind them, as long as bytes 4 and 5 say and no longer than the
/// bytes reach.
#[verifier::external_body]
fn ipv6_packet(buf: &[u8]) -> (r: Option<IpPacket<u128>>)
    ensures
        r is Some <==> buf@.len() >= 40,
        r matches Some(p) ==> p.protocol == buf@[6],
        r matches Some(p) ==> p.src == crate::net::bytes_value(buf@.subrange(8, 24)),
        r matches Some(p) ==> p.dst == crate::net::bytes_value(buf@.subrange(24, 40)),
        r matches Some(p) ==> p.payload@ == part(buf@, 40, crate::text::be16(buf@, 4)),
{
    Ipv6Packet::new(buf).map(|p| IpPacket {
        protocol: p.get_next_header().0,
        src: p.get_source().into(),
        dst: p.get_destination().into(),
        payload: p.payload().to_vec(),
    })
}

/// The length of the header of an IPv4 packet, in bytes.
pub open spec fn ipv4_header_length(buf: Seq<u8>) -> int {
    (buf[0] % 16) * 4
}

/// The payload of an IPv4 packet: it starts behind the header, which has 20
/// bytes or more, and has as many bytes as the length of the packet says beyond
/// that of the header.
pub open spec fn ipv4_payload(buf: Seq<u8>) -> Seq<u8> {
    let header = ipv4_header_length(buf);
    let length = crate::text::be16(buf, 2);
    part(
        buf,
        if header < 20 {
            20
        } else {
            header
        },
        if length < header {
            0
        } else {
            length - header
        },
    )
}

/// The accessors of `pnet_packet::ipv4::Ipv4Packet`: a packet has 20 bytes or
/// more; the protocol stands in byte 9, the addresses from bytes 12 and 16 on,
/// and the payload behind the header.
#[verifier::external_body]
fn ipv4_packet(buf: &[u8]) -> (r: Option<IpPacket<u32>>)
    ensures
        r is Some <==> buf@.len() >= 20,
        r matches Some(p) ==> p.protocol == buf@[9],
        r matches Some(p) ==> p.src == crate::net::bytes_value(buf@.subrange(12, 16)),
        r matches Some(p) ==> p.dst == crate::net::bytes_value(buf@.subrange(16, 20)),
        r matches Some(p) ==> p.payload@ == ipv4_payload(buf@),
{
    Ipv4Packet::new(buf).map(|p| IpPacket {
        protocol: p.get_next_level_protocol().0,
        src: p.get_source().into(),
        dst: p.get_destination().into(),
        payload: p.payload().to_vec(),
    })
}

/// The accessors of `pnet_packet::udp::UdpPacket`: a packet has 8 bytes or more;
/// the ports stand in its first four bytes, and all behind the header is the
/// payload, whatever length the header names.
#[verifier::external_body]
fn udp_packet(buf: &Vec<u8>) -> (r: Option<UdpPart>)
    ensures
        r is Some <==> buf@.len() >= 8,
        r matches Some(p) ==> p.src == crate::text::be16(buf@, 0),
        r matches Some(p) ==> p.dst == crate::text::be16(buf@, 2),
        r matches Some(p) ==> p.payload@ == buf@.skip(8),
{
    UdpPacket::new(buf).map(|p| UdpPart {
        src: p.get_source(),
        dst: p.get_destination(),
        payload: p.payload().to_vec(),
    })
}

/// The UDP packet in the bytes of an IP packet, if there is one.
pub open spec fn parsed(buf: Seq<u8>) -> Option<super::UdpModel> {
    if buf.len() == 0 {
        None
    } else if buf[0] / 16 == 6 {
        let udp = part(buf, 40, crate::text::be16(buf, 4));
        if buf.len() < 40 || buf[6] != UDP || udp.len() < 8 {
            None
        } else {
            Some(
                super::UdpModel {
                    sockets: SocketPair::V6(
                        SocketPairV6 {
                            src: SocketAddrV6 {
                                ip: Ipv6Addr {
                                    bits: crate::net::bytes_value(buf.subrange(8, 24)) as u128,
                                },
                                port: crate::text::be16(udp, 0) as u16,
                                flowinfo: 0,
                                scope_id: 0,
                            },
                            dst: SocketAddrV6 {
                                ip: Ipv6Addr {
                                    bits: crate::net::bytes_value(buf.subrange(24, 40)) as u128,
                                },
                                port: crate::text::be16(udp, 2) as u16,
                                flowinfo: 0,
                                scope_id: 0,
                            },
                        },
                    ),
                    data: udp.skip(8),
                },
            )
        }
    } else if buf[0] / 16 == 4 {
        let udp = ipv4_payload(buf);
        if buf.len() < 20 || buf[9] != UDP || udp.len() < 8 {
            None
        } else {
            Some(
                super::UdpModel {
                    sockets: SocketPair::V4(
                        SocketPairV4 {
                            src: SocketAddrV4 {
                                ip: Ipv4Addr {
                                    bits: crate::net::bytes_value(buf.subrange(12, 16)) as u32,
                                },
                                port: crate::text::be16(udp, 0) as u16,
                            },
                            dst: SocketAddrV4 {
                                ip: Ipv4Addr {
                                    bits: crate::net::bytes_value(buf.subrange(16, 20)) as u32,
                                },
                                port: crate::text::be16(udp, 2) as u16,
                            },
                        },
                    ),
                    data: udp.skip(8),
                },
            )
        }
    } else {
        None
    }
}

/// Finds the UDP packet in the bytes of an IP packet.
pub fn parse_udp_packet(buf: &[u8]) -> (r: Option<UdpData>)
    ensures
        match parsed(buf@) {
            Some(pkt) => r matches Some(d) && d@ == pkt,
            None => r is None,
        },
{
    if buf.len() == 0 {
        return None;
    }
    let version: u8 = buf[0] / 16;
    if version == 6 {
        match ipv6_packet(buf) {
            None => None,
            Some(ip) => {
                if ip.protocol != UDP {
                    return None;
                }
                match udp_packet(&ip.payload) {
                    None => None,
                    Some(udp) => Some(
                        UdpData {
                            sockets: SocketPair::from(
                                SocketPairV6 {
                                    src: SocketAddrV6 {
                                        ip: Ipv6Addr { bits: ip.src },
                                        port: udp.src,
                                        flowinfo: 0,
                                        scope_id: 0,
                                    },
                                    dst: SocketAddrV6 {
                                        ip: Ipv6Addr { bits: ip.dst },
                                        port: udp.dst,
                                        flowinfo: 0,
                                        scope_id: 0,
                                    },
                                },
                            ),
                            data: udp.payload,
                        },
                    ),
                }
            },
        }
    } else if version == 4 {
        match ipv4_packet(buf) {
            None => None,
            Some(ip) => {
                if ip.protocol != UDP {
                    return None;
                }
                match udp_packet(&ip.payload) {
                    None => None,
                    Some(udp) => Some(
                        UdpData {
                            sockets: SocketPair::from(
                                SocketPairV4 {
                                    src: SocketAddrV4 {
                                        ip: Ipv4Addr { bits: ip.src },
                                        port: udp.src,
                                    },
                                    dst: SocketAddrV4 {
                                        ip: Ipv4Addr { bits: ip.dst },
                                        port: udp.dst,
                                    },
                                },
                            ),
                            data: udp.payload,
                        },
                    ),
                }
            },
        }
    } else {
        None
    }
}

// ---- laws ----

/// An IPv6 packet is read back from its bytes.
pub proof fn lemma_ipv6_packet_read_back(pkt: super::UdpModel)
    requires
        pkt.sockets matches SocketPair::V6(s) && s.src.flowinfo == 0 && s.src.scope_id == 0
            && s.dst.flowinfo == 0 && s.dst.scope_id == 0,
        ip_size(pkt) <= BUF_SIZE,
    ensures
        parsed(packet_bytes(pkt)) == Some(pkt),
{
    let s = pkt.sockets->V6_0;
    let src = crate::net::bytes_of(s.src.ip.bits as nat, 16);
    let dst = crate::net::bytes_of(s.dst.ip.bits as nat, 16);
    crate::net::lemma_address_sizes();
    crate::net::lemma_bytes_read_back(s.src.ip.bits as nat, 16);
    crate::net::lemma_bytes_read_back(s.dst.ip.bits as nat, 16);
    let ip = ip_part(pkt);
    let udp = udp_part(pkt);
    let all = ip + udp + pkt.data;
    assert(ip.len() == 40);
    assert(udp.len() == 8);
    assert(packet_bytes(pkt) == all);
    assert(all[0] == 96);
    assert(all[6] == UDP);
    let length = (pkt.data.len() + 8) as u16;
    assert(all[4] == crate::text::be_bytes(length)[0]);
    assert(all[5] == crate::text::be_bytes(length)[1]);
    assert(crate::text::be16(all, 4) == length);
    assert(all.subrange(8, 24) =~= src);
    assert(all.subrange(24, 40) =~= dst);
    let rest = part(all, 40, length as int);
    assert(rest =~= udp + pkt.data);
    assert(rest.skip(8) =~= pkt.data);
    assert(crate::text::be16(rest, 0) == s.src.port);
    assert(crate::text::be16(rest, 2) == s.dst.port);
}

/// An IPv4 packet without options is read: the addresses and the ports have
/// their most significant byte first, and the data is all behind the headers as
/// far as the length reaches.
pub proof fn lemma_ipv4_packet_is_read(buf: Seq<u8>)
    requires
        buf.len() >= 28,
        buf[0] == 0x45,
        buf[9] == 17,
        28 <= buf[2] * 256 + buf[3] <= buf.len(),
    ensures
        parsed(buf) matches Some(pkt) && {
            &&& pkt.data == buf.subrange(28, buf[2] * 256 + buf[3])
            &&& pkt.sockets matches SocketPair::V4(s) && {
                &&& s.src.ip.bits == buf[12] * 0x100_0000 + buf[13] * 0x1_0000 + buf[14] * 0x100
                    + buf[15]
                &&& s.dst.ip.bits == buf[16] * 0x100_0000 + buf[17] * 0x1_0000 + buf[18] * 0x100
                    + buf[19]
                &&& s.src.port == buf[20] * 256 + buf[21]
                &&& s.dst.port == buf[22] * 256 + buf[23]
            }
        },
{
    let length = buf[2] * 256 + buf[3];
    let udp = ipv4_payload(buf);
    assert(ipv4_header_length(buf) == 20);
    assert(crate::text::be16(buf, 2) == length);
    assert(udp =~= buf.subrange(20, length));
    assert(udp.skip(8) =~= buf.subrange(28, length));
    lemma_four_bytes(buf, 12);
    lemma_four_bytes(buf, 16);
}

proof fn lemma_four_bytes(buf: Seq<u8>, i: int)
    requires
        0 <= i,
        i + 4 <= buf.len(),
    ensures
        crate::net::bytes_value(buf.subrange(i, i + 4)) == buf[i] * 0x100_0000 + buf[i + 1]
            * 0x1_0000 + buf[i + 2] * 0x100 + buf[i + 3],
{
    let s = buf.subrange(i, i + 4);
    reveal_with_fuel(crate::net::bytes_value, 5);
    assert(s.drop_last().drop_last().drop_last().drop_last().len() == 0);
    assert(s.last() == buf[i + 3]);
    assert(s.drop_last().last() == buf[i + 2]);
    assert(s.drop_last().drop_last().last() == buf[i + 1]);
    assert(s.drop_last().drop_last().drop_last().last() == buf[i]);
}

/// A packet of another protocol or another version is none, nor is one that ends
/// before its headers do.
pub proof fn lemma_no_udp_packet(buf: Seq<u8>)
    ensures
        buf.len() == 0 ==> parsed(buf) is None,
        buf.len() > 0 && buf[0] / 16 != 4 && buf[0] / 16 != 6 ==> parsed(buf) is None,
        buf.len() >= 20 && buf[0] / 16 == 4 && buf[9] != 17 ==> parsed(buf) is None,
        buf.len() >= 40 && buf[0] / 16 == 6 && buf[6] != 17 ==> parsed(buf) is None,
        0 < buf.len() < 20 ==> parsed(buf) is None,
        0 < buf.len() < 40 && buf[0] / 16 == 6 ==> parsed(buf) is None,
{
}

/// A packet goes back to where it came from.
pub proof fn lemma_packet_goes_back(src: SocketAddrV4, dst: SocketAddrV4)
    ensures
        SocketPair::V4(SocketPairV4 { src, dst }).reversed() == SocketPair::V4(
            SocketPairV4 { src: dst, dst: src },
        ),
        ports(SocketPair::V4(SocketPairV4 { src, dst })) == (src.port, dst.port),
{
}

/// The bytes of an IPv4 packet: the header with its version and lengths, the time
/// to live and the addresses, zeros, the ports and the length, and the data.
pub proof fn lemma_ipv4_packet_layout(s: SocketPairV4, data: Seq<u8>)
    requires
        data.len() <= 2000,
    ensures
        ({
            let pkt = super::UdpModel { sockets: SocketPair::V4(s), data };
            let b = packet_bytes(pkt);
            &&& b.len() == 48 + data.len()
            &&& b[0] == 0x45
            &&& b[2] * 256 + b[3] == 28 + data.len()
            &&& b[8] == 64 && b[9] == 0
            &&& crate::net::bytes_value(b.subrange(12, 16)) == s.src.ip.bits
            &&& crate::net::bytes_value(b.subrange(16, 20)) == s.dst.ip.bits
            &&& forall|i: int| 20 <= i < 40 ==> (#[trigger] b[i]) == 0
            &&& b[40] * 256 + b[41] == s.src.port
            &&& b[42] * 256 + b[43] == s.dst.port
            &&& b[44] * 256 + b[45] == 8 + data.len()
            &&& b.skip(48) == data
        }),
{
    let pkt = super::UdpModel { sockets: SocketPair::V4(s), data };
    let src = crate::net::bytes_of(s.src.ip.bits as nat, 4);
    let dst = crate::net::bytes_of(s.dst.ip.bits as nat, 4);
    crate::net::lemma_address_sizes();
    crate::net::lemma_bytes_length(s.src.ip.bits as nat, 4);
    crate::net::lemma_bytes_length(s.dst.ip.bits as nat, 4);
    crate::net::lemma_bytes_read_back(s.src.ip.bits as nat, 4);
    crate::net::lemma_bytes_read_back(s.dst.ip.bits as nat, 4);
    let ip = ip_part(pkt);
    let udp = udp_part(pkt);
    let b = ip + udp + data;
    assert(ip.len() == 40);
    assert(udp.len() == 8);
    assert(packet_bytes(pkt) == b);
    let length = (28 + data.len()) as u16;
    assert(b[2] == crate::text::be_bytes(length)[0] && b[3] == crate::text::be_bytes(length)[1]);
    assert(b.subrange(12, 16) =~= src);
    assert(b.subrange(16, 20) =~= dst);
    assert(b[40] == udp[0] && b[41] == udp[1] && b[42] == udp[2] && b[43] == udp[3]);
    assert(b[44] == udp[4] && b[45] == udp[5]);
    assert(b.skip(48) =~= data);
}

} // verus!
