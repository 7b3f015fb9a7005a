//! UDP packets.

pub mod iface;

use crate::net::{SocketAddrV4, SocketAddrV6};
use vstd::prelude::*;

verus! {

/// Where a packet comes from and where it goes.
#[derive(Debug, Clone, Copy, Hash, PartialEq, Eq, Structural)]
pub enum SocketPair {
    V4(SocketPairV4),
    V6(SocketPairV6),
}

/// Where an IPv4 packet comes from and where it goes.
#[derive(Debug, Clone, Copy, Hash, PartialEq, Eq, Structural)]
pub struct SocketPairV4 {
    pub src: SocketAddrV4,
    pub dst: SocketAddrV4,
}

/// Where an IPv6 packet comes from and where it goes.
#[derive(Debug, Clone, Copy, Hash, PartialEq, Eq, Structural)]
pub struct SocketPairV6 {
    pub src: SocketAddrV6,
    pub dst: SocketAddrV6,
}

/// A packet.
#[derive(Debug)]
pub struct UdpData {
    pub sockets: SocketPair,
    pub data: Vec<u8>,
}

/// The model of a packet.
pub struct UdpModel {
    pub sockets: SocketPair,
    pub data: Seq<u8>,
}

impl View for UdpData {
    type V = UdpModel;

    open spec fn view(&self) -> UdpModel {
        UdpModel { sockets: self.sockets, data: self.data@ }
    }
}

impl From<SocketPairV6> for SocketPair {
    fn from(pair: SocketPairV6) -> (r: SocketPair) {
        SocketPair::V6(pair)
    }
}

impl vstd::std_specs::convert::FromSpecImpl<SocketPairV6> for SocketPair {
    open spec fn obeys_from_spec() -> bool {
        true
    }

    open spec fn from_spec(pair: SocketPairV6) -> SocketPair {
        SocketPair::V6(pair)
    }
}

impl From<SocketPairV4> for SocketPair {
    fn from(pair: SocketPairV4) -> (r: SocketPair) {
        SocketPair::V4(pair)
    }
}

impl vstd::std_specs::convert::FromSpecImpl<SocketPairV4> for SocketPair {
    open spec fn obeys_from_spec() -> bool {
        true
    }

    open spec fn from_spec(pair: SocketPairV4) -> SocketPair {
        SocketPair::V4(pair)
    }
}

impl SocketPair {
    /// The pair of a packet that goes back.
    pub open spec fn reversed(self) -> SocketPair {
        match self {
            SocketPair::V4(s) => SocketPair::V4(SocketPairV4 { src: s.dst, dst: s.src }),
            SocketPair::V6(s) => SocketPair::V6(SocketPairV6 { src: s.dst, dst: s.src }),
        }
    }

    /// Turns the pair round.
    pub fn reverse(&mut self)
        ensures
            *final(self) == old(self).reversed(),
    {
        *self = match *self {
            SocketPair::V4(s) => SocketPair::V4(SocketPairV4 { src: s.dst, dst: s.src }),
            SocketPair::V6(s) => SocketPair::V6(SocketPairV6 { src: s.dst, dst: s.src }),
        };
    }
}

/// A pair that is turned round twice is as it was.
pub proof fn lemma_reverse_twice(pair: SocketPair)
    ensures
        pair.reversed().reversed() == pair,
{
}

} // verus!
