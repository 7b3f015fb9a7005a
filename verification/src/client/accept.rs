//! Accepting a SOCKS client.

use crate::net::{number_of_bytes, IpAddr, Ipv4Addr, Ipv6Addr};
use crate::proxy::{Address, Destination};
use crate::text::{read_be16, str_from_utf8};
use vstd::prelude::*;

verus! {

/// What is read next from a client.
#[derive(Debug, Clone, Copy, PartialEq, Eq, Structural)]
pub enum Stage {
    /// The version of the protocol.
    Version,
    /// How many ways to log in the client knows.
    MethodCount,
    /// The ways to log in.
    Methods { count: u8 },
    /// What the client wants.
    Request,
    /// An IPv4 address.
    Ipv4,
    /// The length of a name.
    NameLength,
    /// A name.
    Name { len: u8 },
    /// An IPv6 address.
    Ipv6,
    /// A port.
    Port,
    /// There is nothing more to read.
    Done,
}

/// Why a client is refused.
#[derive(Debug, Clone, Copy, PartialEq, Eq, Structural)]
pub enum AcceptError {
    /// The client does not speak SOCKS.
    NotSocks,
    /// The client wants to log in.
    AuthRequired,
    /// The client wants something other than a connection.
    ConnectRequired,
    /// The name of the host is not UTF-8.
    InvalidName,
    /// The host is given in an unknown way.
    UnknownAddressType,
}

impl AcceptError {
    /// The error in words.
    pub fn message(&self) -> (s: &'static str)
        ensures
            s@ == match *self {
                AcceptError::NotSocks => "Neither a NATed or SOCKSv5 connection"@,
                AcceptError::AuthRequired => "SOCKSv5: No auth is required"@,
                AcceptError::ConnectRequired => "SOCKSv5: CONNECT is required"@,
                AcceptError::InvalidName => "SOCKSv5: Invalid domain name"@,
                AcceptError::UnknownAddressType => "SOCKSv5: unknown address type"@,
            },
    {
        match self {
            AcceptError::NotSocks => "Neither a NATed or SOCKSv5 connection",
            AcceptError::AuthRequired => "SOCKSv5: No auth is required",
            AcceptError::ConnectRequired => "SOCKSv5: CONNECT is required",
            AcceptError::InvalidName => "SOCKSv5: Invalid domain name",
            AcceptError::UnknownAddressType => "SOCKSv5: unknown address type",
        }
    }
}

/// What comes next.
#[derive(Debug)]
pub enum Step {
    /// Send some bytes, and then read exactly as many bytes as said.
    Exchange { write: Vec<u8>, read: usize },
    /// Send some bytes: the client wants to be connected to a destination.
    Accept { reply: Vec<u8>, dest: Destination },
    /// Refuse the client.
    Fail(AcceptError),
}

/// The model of what comes next.
pub enum StepModel {
    Exchange { write: Seq<u8>, read: nat },
    Accept { reply: Seq<u8>, dest: crate::proxy::DestinationModel },
    Fail(AcceptError),
}

impl View for Step {
    type V = StepModel;

    open spec fn view(&self) -> StepModel {
        match self {
            Step::Exchange { write, read } => StepModel::Exchange {
                write: write@,
                read: *read as nat,
            },
            Step::Accept { reply, dest } => StepModel::Accept { reply: reply@, dest: dest@ },
            Step::Fail(e) => StepModel::Fail(*e),
        }
    }
}

/// How many bytes are read at a stage.
pub open spec fn stage_length(stage: Stage) -> nat {
    match stage {
        Stage::Version => 1,
        Stage::MethodCount => 1,
        Stage::Methods { count } => count as nat,
        Stage::Request => 4,
        Stage::Ipv4 => 4,
        Stage::NameLength => 1,
        Stage::Name { len } => len as nat,
        Stage::Ipv6 => 16,
        Stage::Port => 2,
        Stage::Done => 0,
    }
}

/// The next stage, what is known of the host, and what comes next.
pub struct Progress {
    pub stage: Stage,
    pub host: Option<crate::proxy::AddressModel>,
    pub step: StepModel,
}

/// Reading on without sending anything.
pub open spec fn read_on(stage: Stage, host: Option<crate::proxy::AddressModel>) -> Progress {
    Progress {
        stage,
        host,
        step: StepModel::Exchange { write: Seq::empty(), read: stage_length(stage) },
    }
}

/// Refusing the client.
pub open spec fn refuse(host: Option<crate::proxy::AddressModel>, error: AcceptError) -> Progress {
    Progress { stage: Stage::Done, host, step: StepModel::Fail(error) }
}

/// How the conversation with a client goes on once some bytes were read.
pub open spec fn progress(
    stage: Stage,
    host: Option<crate::proxy::AddressModel>,
    data: Seq<u8>,
) -> Progress {
    match stage {
        Stage::Version => if data[0] == 5 {
            read_on(Stage::MethodCount, host)
        } else {
            refuse(host, AcceptError::NotSocks)
        },
        Stage::MethodCount => read_on(Stage::Methods { count: data[0] }, host),
        Stage::Methods { count } => if data.contains(0) {
            Progress {
                stage: Stage::Request,
                host,
                step: StepModel::Exchange { write: seq![5u8, 0], read: 4 },
            }
        } else {
            refuse(host, AcceptError::AuthRequired)
        },
        Stage::Request => if data[0] != 5 || data[1] != 1 {
            refuse(host, AcceptError::ConnectRequired)
        } else if data[3] == 1 {
            read_on(Stage::Ipv4, host)
        } else if data[3] == 3 {
            read_on(Stage::NameLength, host)
        } else if data[3] == 4 {
            read_on(Stage::Ipv6, host)
        } else {
            refuse(host, AcceptError::UnknownAddressType)
        },
        Stage::Ipv4 => read_on(
            Stage::Port,
            Some(
                crate::proxy::AddressModel::Ip(
                    IpAddr::V4(Ipv4Addr { bits: crate::net::bytes_value(data) as u32 }),
                ),
            ),
        ),
        Stage::NameLength => read_on(Stage::Name { len: data[0] }, host),
        Stage::Name { len } => if vstd::utf8::valid_utf8(data) {
            read_on(
                Stage::Port,
                Some(crate::proxy::AddressModel::Domain(vstd::utf8::decode_utf8(data))),
            )
        } else {
            refuse(host, AcceptError::InvalidName)
        },
        Stage::Ipv6 => read_on(
            Stage::Port,
            Some(
                crate::proxy::AddressModel::Ip(
                    IpAddr::V6(Ipv6Addr { bits: crate::net::bytes_value(data) as u128 }),
                ),
            ),
        ),
        Stage::Port => match host {
            Some(known) => Progress {
                stage: Stage::Done,
                host,
                step: StepModel::Accept {
                    reply: seq![5u8, 0, 0, 1, 0, 0, 0, 0, 0, 0],
                    dest: crate::proxy::DestinationModel {
                        host: known,
                        port: crate::text::be16(data, 0) as u16,
                    },
                },
            },
            None => refuse(host, AcceptError::UnknownAddressType),
        },
        Stage::Done => refuse(host, AcceptError::NotSocks),
    }
}

/// The conversation with a client that wants to be connected.
#[derive(Debug)]
pub struct Acceptor {
    pub stage: Stage,
    pub host: Option<Address>,
}

/// The model of a host that may not be known yet.
pub open spec fn host_view(host: Option<Address>) -> Option<crate::proxy::AddressModel> {
    match host {
        Some(host) => Some(host@),
        None => None,
    }
}

fn has_zero(data: &[u8]) -> (r: bool)
    ensures
        r == data@.contains(0),
{
    let n = data.len();
    let mut i: usize = 0;
    while i < n
        invariant
            n == data@.len(),
            i <= n,
            forall|j: int| 0 <= j < i ==> data@[j] != 0,
        decreases n - i,
    {
        if data[i] == 0 {
            assert(data@[i as int] == 0);
            return true;
        }
        i = i + 1;
    }
    false
}

impl Acceptor {
    /// The version is read first.
    pub fn start() -> (r: (Acceptor, Step))
        ensures
            r.0.stage == Stage::Version,
            r.0.host is None,
            r.1@ == (StepModel::Exchange { write: Seq::<u8>::empty(), read: 1 }),
    {
        let write: Vec<u8> = Vec::new();
        assert(write@ =~= Seq::<u8>::empty());
        (Acceptor { stage: Stage::Version, host: None }, Step::Exchange { write, read: 1 })
    }

    fn read_on(&mut self, stage: Stage, len: usize) -> (r: Step)
        requires
            len == stage_length(stage),
        ensures
            final(self).stage == stage,
            final(self).host == old(self).host,
            r@ == read_on(stage, host_view(old(self).host)).step,
    {
        self.stage = stage;
        let write: Vec<u8> = Vec::new();
        assert(write@ =~= Seq::<u8>::empty());
        Step::Exchange { write, read: len }
    }

    fn refuse(&mut self, error: AcceptError) -> (r: Step)
        ensures
            final(self).stage == Stage::Done,
            final(self).host == old(self).host,
            r@ == StepModel::Fail(error),
    {
        self.stage = Stage::Done;
        Step::Fail(error)
    }

    /// Takes the bytes that were read and says what comes next.
    pub fn next(&mut self, data: &[u8]) -> (r: Step)
        requires
            data@.len() == stage_length(old(self).stage),
        ensures
            ({
                let p = progress(old(self).stage, host_view(old(self).host), data@);
                &&& final(self).stage == p.stage
                &&& host_view(final(self).host) == p.host
                &&& r@ == p.step
            }),
    {
        match self.stage {
            Stage::Version => if data[0] == 5 {
                self.read_on(Stage::MethodCount, 1)
            } else {
                self.refuse(AcceptError::NotSocks)
            },
            Stage::MethodCount => self.read_on(Stage::Methods { count: data[0] }, data[0] as usize),
            Stage::Methods { .. } => if has_zero(data) {
                self.stage = Stage::Request;
                let mut write: Vec<u8> = Vec::new();
                write.push(5);
                write.push(0);
                assert(write@ =~= seq![5u8, 0]);
                Step::Exchange { write, read: 4 }
            } else {
                self.refuse(AcceptError::AuthRequired)
            },
            Stage::Request => if data[0] != 5 || data[1] != 1 {
                self.refuse(AcceptError::ConnectRequired)
            } else {
                match data[3] {
                    1 => self.read_on(Stage::Ipv4, 4),
                    3 => self.read_on(Stage::NameLength, 1),
                    4 => self.read_on(Stage::Ipv6, 16),
                    _ => self.refuse(AcceptError::UnknownAddressType),
                }
            },
            Stage::Ipv4 => {
                proof {
                    crate::net::lemma_bytes_bound(data@);
                    crate::net::lemma_address_sizes();
                }
                let bits = number_of_bytes(data) as u32;
                self.host = Some(Address::Ip(IpAddr::V4(Ipv4Addr { bits })));
                self.read_on(Stage::Port, 2)
            },
            Stage::NameLength => self.read_on(Stage::Name { len: data[0] }, data[0] as usize),
            Stage::Name { .. } => match str_from_utf8(data) {
                Some(name) => {
                    self.host = Some(Address::Domain(name.to_owned()));
                    self.read_on(Stage::Port, 2)
                },
                None => self.refuse(AcceptError::InvalidName),
            },
            Stage::Ipv6 => {
                let bits = number_of_bytes(data);
                self.host = Some(Address::Ip(IpAddr::V6(Ipv6Addr { bits })));
                self.read_on(Stage::Port, 2)
            },
            Stage::Port => {
                let port = read_be16(data, 0) as u16;
                match &self.host {
                    Some(host) => {
                        let dest = Destination { host: host.clone(), port };
                        self.stage = Stage::Done;
                        let mut reply: Vec<u8> = Vec::new();
                        reply.push(5);
                        reply.push(0);
                        reply.push(0);
                        reply.push(1);
                        reply.push(0);
                        reply.push(0);
                        reply.push(0);
                        reply.push(0);
                        reply.push(0);
                        reply.push(0);
                        assert(reply@ =~= seq![5u8, 0, 0, 1, 0, 0, 0, 0, 0, 0]);
                        Step::Accept { reply, dest }
                    },
                    None => self.refuse(AcceptError::UnknownAddressType),
                }
            },
            Stage::Done => self.refuse(AcceptError::NotSocks),
        }
    }
}

// ---- laws ----

/// A client that knows how to do without logging in is asked for its request.
pub proof fn lemma_greeting_is_accepted(with_auth: bool)
    ensures
        ({
            let hello = crate::proxy::socks5::greeting(with_auth);
            progress(Stage::Version, None, hello.subrange(0, 1)).step
                == (StepModel::Exchange { write: Seq::empty(), read: 1 })
        }),
        ({
            let hello = crate::proxy::socks5::greeting(with_auth);
            progress(Stage::Methods { count: 1 }, None, hello.subrange(2, 3)).step
                == (StepModel::Exchange { write: seq![5u8, 0], read: 4 })
        }),
{
    let hello = crate::proxy::socks5::greeting(with_auth);
    assert(hello.subrange(0, 1)[0] == 5);
    assert(hello.subrange(2, 3)[0] == 0);
}

/// What a request names is what is found in it: an IPv4 address.
pub proof fn lemma_ipv4_request(ip: Ipv4Addr, port: u16)
    ensures
        ({
            let host = crate::proxy::AddressModel::Ip(IpAddr::V4(ip));
            let dest = crate::proxy::DestinationModel { host, port };
            let request = crate::proxy::socks5::request_bytes(dest);
            &&& request.len() == 10
            &&& progress(Stage::Request, None, request.subrange(0, 4)) == read_on(
                Stage::Ipv4,
                None,
            )
            &&& progress(Stage::Ipv4, None, request.subrange(4, 8)) == read_on(
                Stage::Port,
                Some(host),
            )
            &&& progress(Stage::Port, Some(host), request.subrange(8, 10)).step
                == (StepModel::Accept { reply: seq![5u8, 0, 0, 1, 0, 0, 0, 0, 0, 0], dest })
        }),
{
    let host = crate::proxy::AddressModel::Ip(IpAddr::V4(ip));
    let dest = crate::proxy::DestinationModel { host, port };
    let request = crate::proxy::socks5::request_bytes(dest);
    crate::net::lemma_address_sizes();
    crate::net::lemma_bytes_read_back(ip.bits as nat, 4);
    assert(request.subrange(4, 8) =~= ip.octets_spec());
    assert(request.subrange(8, 10) =~= crate::text::be_bytes(port));
    crate::text::lemma_be16_of_bytes(port);
}

/// What a request names is what is found in it: an IPv6 address.
pub proof fn lemma_ipv6_request(ip: Ipv6Addr, port: u16)
    ensures
        ({
            let host = crate::proxy::AddressModel::Ip(IpAddr::V6(ip));
            let dest = crate::proxy::DestinationModel { host, port };
            let request = crate::proxy::socks5::request_bytes(dest);
            &&& request.len() == 22
            &&& progress(Stage::Request, None, request.subrange(0, 4)) == read_on(
                Stage::Ipv6,
                None,
            )
            &&& progress(Stage::Ipv6, None, request.subrange(4, 20)) == read_on(
                Stage::Port,
                Some(host),
            )
            &&& progress(Stage::Port, Some(host), request.subrange(20, 22)).step
                == (StepModel::Accept { reply: seq![5u8, 0, 0, 1, 0, 0, 0, 0, 0, 0], dest })
        }),
{
    let host = crate::proxy::AddressModel::Ip(IpAddr::V6(ip));
    let dest = crate::proxy::DestinationModel { host, port };
    let request = crate::proxy::socks5::request_bytes(dest);
    crate::net::lemma_address_sizes();
    crate::net::lemma_bytes_read_back(ip.bits as nat, 16);
    assert(request.subrange(4, 20) =~= ip.octets_spec());
    assert(request.subrange(20, 22) =~= crate::text::be_bytes(port));
    crate::text::lemma_be16_of_bytes(port);
}

/// What a request names is what is found in it: a name of up to 255 bytes.
pub proof fn lemma_name_request(name: Seq<char>, port: u16)
    requires
        vstd::utf8::encode_utf8(name).len() <= 255,
    ensures
        ({
            let host = crate::proxy::AddressModel::Domain(name);
            let dest = crate::proxy::DestinationModel { host, port };
            let request = crate::proxy::socks5::request_bytes(dest);
            let n = vstd::utf8::encode_utf8(name).len() as int;
            &&& request.len() == 7 + n
            &&& progress(Stage::Request, None, request.subrange(0, 4)) == read_on(
                Stage::NameLength,
                None,
            )
            &&& progress(Stage::NameLength, None, request.subrange(4, 5)) == read_on(
                Stage::Name { len: n as u8 },
                None,
            )
            &&& progress(Stage::Name { len: n as u8 }, None, request.subrange(5, 5 + n))
                == read_on(Stage::Port, Some(host))
            &&& progress(Stage::Port, Some(host), request.subrange(5 + n, 7 + n)).step
                == (StepModel::Accept { reply: seq![5u8, 0, 0, 1, 0, 0, 0, 0, 0, 0], dest })
        }),
{
    let host = crate::proxy::AddressModel::Domain(name);
    let dest = crate::proxy::DestinationModel { host, port };
    let request = crate::proxy::socks5::request_bytes(dest);
    let bytes = vstd::utf8::encode_utf8(name);
    let n = bytes.len() as int;
    assert(request.subrange(4, 5)[0] == n as u8);
    assert(request.subrange(5, 5 + n) =~= bytes);
    assert(request.subrange(5 + n, 7 + n) =~= crate::text::be_bytes(port));
    crate::text::lemma_be16_of_bytes(port);
    vstd::utf8::encode_utf8_valid_utf8(name);
    vstd::utf8::encode_utf8_decode_utf8(name);
}

/// A client that offers to do without logging in, at whatever place of its list
/// and however long the list is, is answered so, and four bytes of its request
/// are read next. One that does not is refused.
pub proof fn lemma_any_offer_counts(
    count: u8,
    host: Option<crate::proxy::AddressModel>,
    methods: Seq<u8>,
)
    requires
        methods.len() == count,
    ensures
        (exists|i: int| 0 <= i < methods.len() && methods[i] == 0) ==> progress(
            Stage::Methods { count },
            host,
            methods,
        ) == (Progress {
            stage: Stage::Request,
            host,
            step: StepModel::Exchange { write: seq![5u8, 0u8], read: 4 },
        }),
        (forall|i: int| 0 <= i < methods.len() ==> methods[i] != 0) ==> progress(
            Stage::Methods { count },
            host,
            methods,
        ).step == StepModel::Fail(AcceptError::AuthRequired),
{
}

/// A client starts with the byte 5 and tells how many ways to log in it offers;
/// as many bytes are read next. Any other first byte is refused.
pub proof fn lemma_greeting(
    version: u8,
    count: u8,
    host: Option<crate::proxy::AddressModel>,
)
    ensures
        version == 5 ==> progress(Stage::Version, host, seq![version]) == (Progress {
            stage: Stage::MethodCount,
            host,
            step: StepModel::Exchange { write: Seq::empty(), read: 1 },
        }),
        version != 5 ==> progress(Stage::Version, host, seq![version]).step == StepModel::Fail(
            AcceptError::NotSocks,
        ),
        progress(Stage::MethodCount, host, seq![count]) == (Progress {
            stage: Stage::Methods { count },
            host,
            step: StepModel::Exchange { write: Seq::empty(), read: count as nat },
        }),
{
}

/// Only a request to connect is served; the third byte of it does not matter.
/// The fourth one says how the host is given: an IPv4 address has 4 bytes, an
/// IPv6 address 16, and a name starts with one byte that says how long it is.
pub proof fn lemma_request_head(version: u8, command: u8, reserved: u8, kind: u8)
    ensures
        ({
            let p = progress(Stage::Request, None, seq![version, command, reserved, kind]);
            &&& version != 5 || command != 1 ==> p.step == StepModel::Fail(
                AcceptError::ConnectRequired,
            )
            &&& version == 5 && command == 1 ==> {
                &&& kind == 1 ==> p.stage == Stage::Ipv4 && p.step == (StepModel::Exchange {
                    write: Seq::empty(),
                    read: 4,
                })
                &&& kind == 3 ==> p.stage == Stage::NameLength && p.step == (StepModel::Exchange {
                    write: Seq::empty(),
                    read: 1,
                })
                &&& kind == 4 ==> p.stage == Stage::Ipv6 && p.step == (StepModel::Exchange {
                    write: Seq::empty(),
                    read: 16,
                })
                &&& kind != 1 && kind != 3 && kind != 4 ==> p.step == StepModel::Fail(
                    AcceptError::UnknownAddressType,
                )
            }
        }),
{
}

/// The bytes of an IPv4 address, of a port and of the length of a name are read
/// with the most significant byte first, and a name is read as it is.
pub proof fn lemma_host_and_port(
    a: u8,
    b: u8,
    c: u8,
    d: u8,
    len: u8,
    name: Seq<char>,
    high: u8,
    low: u8,
    host: crate::proxy::AddressModel,
)
    ensures
        progress(Stage::Ipv4, None, seq![a, b, c, d]).host == Some(
            crate::proxy::AddressModel::Ip(
                IpAddr::V4(Ipv4Addr { bits: (a * 0x100_0000 + b * 0x1_0000 + c * 0x100 + d) as u32 }),
            ),
        ),
        progress(Stage::NameLength, None, seq![len]).step == (StepModel::Exchange {
            write: Seq::empty(),
            read: len as nat,
        }),
        progress(Stage::Name { len }, None, vstd::utf8::encode_utf8(name)).host == Some(
            crate::proxy::AddressModel::Domain(name),
        ),
        progress(Stage::Port, Some(host), seq![high, low]).step == (StepModel::Accept {
            reply: seq![5u8, 0, 0, 1, 0, 0, 0, 0, 0, 0],
            dest: crate::proxy::DestinationModel { host, port: (high * 256 + low) as u16 },
        }),
{
    vstd::utf8::encode_utf8_valid_utf8(name);
    vstd::utf8::encode_utf8_decode_utf8(name);
    let s = seq![a, b, c, d];
    reveal_with_fuel(crate::net::bytes_value, 5);
    assert(s.drop_last() =~= seq![a, b, c]);
    assert(seq![a, b, c].drop_last() =~= seq![a, b]);
    assert(seq![a, b].drop_last() =~= seq![a]);
    assert(seq![a].drop_last() =~= Seq::<u8>::empty());
}

} // verus!
