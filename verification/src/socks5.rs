//! Connecting through a SOCKS proxy server without waiting for its answers.

use crate::net::{IpAddr, SocketAddr};
use crate::text::{dec_string, push_be16, push_bytes};
use vstd::prelude::*;

verus! {

/// How many bytes the server answers.
pub const ANSWER_LEN: usize = 12;

/// A proxy server.
#[derive(Debug)]
pub struct Socks5Server {
    tag: String,
    addr: SocketAddr,
}

/// The model of a proxy server.
pub struct Socks5Model {
    pub tag: Seq<char>,
    pub addr: SocketAddr,
}

impl View for Socks5Server {
    type V = Socks5Model;

    closed spec fn view(&self) -> Socks5Model {
        Socks5Model { tag: self.tag@, addr: self.addr }
    }
}

impl Socks5Server {
    /// The server at an address; its port is its tag.
    pub fn new(addr: SocketAddr) -> (r: Socks5Server)
        ensures
            r@ == (Socks5Model { tag: crate::text::dec(addr.port_spec() as nat), addr }),
    {
        let tag = dec_string(addr.port() as u64);
        Socks5Server { tag, addr }
    }

    /// The short name of the server.
    pub fn tag(&self) -> (r: &str)
        ensures
            r@ == self@.tag,
    {
        self.tag.as_str()
    }

    /// The address of the server.
    pub fn addr(&self) -> (r: SocketAddr)
        ensures
            r == self@.addr,
    {
        self.addr
    }

    /// The server in words.
    pub fn to_string(&self) -> (s: String)
        ensures
            s@ == self@.tag + " (SOCKSv5 "@ + crate::net::socket_spelled(self@.addr) + ")"@,
    {
        let mut s = self.tag.as_str().to_owned();
        s.append(" (SOCKSv5 ");
        crate::net::push_socket_addr(&mut s, self.addr);
        s.append(")");
        s
    }
}

/// All that is sent to the server: the greeting and the request to connect.
pub fn build_request(addr: &SocketAddr) -> (r: Vec<u8>)
    ensures
        r@ == crate::proxy::socks5::greeting(false) + crate::proxy::socks5::request_bytes(
            crate::proxy::DestinationModel {
                host: crate::proxy::AddressModel::Ip(addr.ip_spec()),
                port: addr.port_spec(),
            },
        ),
{
    let mut r: Vec<u8> = vec![5, 1, 0, 5, 1, 0];
    match addr.ip() {
        IpAddr::V4(ip) => {
            r.push(1);
            push_bytes(&mut r, &ip.octets());
        },
        IpAddr::V6(ip) => {
            r.push(4);
            push_bytes(&mut r, &ip.octets());
        },
    }
    push_be16(&mut r, addr.port());
    proof {
        let d = crate::proxy::DestinationModel {
            host: crate::proxy::AddressModel::Ip(addr.ip_spec()),
            port: addr.port_spec(),
        };
        assert(r@ =~= crate::proxy::socks5::greeting(false)
            + crate::proxy::socks5::request_bytes(d));
    }
    r
}

} // verus!
