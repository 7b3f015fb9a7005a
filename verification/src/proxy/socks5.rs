//! Connecting through a SOCKS proxy server.

use super::{Address, Destination, UserPassAuthCredential};
use crate::net::IpAddr;
use crate::text::{push_be16, push_bytes};
use vstd::prelude::*;

verus! {

/// A host as a request names it.
pub open spec fn host_bytes(host: super::AddressModel) -> Seq<u8> {
    match host {
        super::AddressModel::Ip(IpAddr::V4(ip)) => seq![1u8] + ip.octets_spec(),
        super::AddressModel::Ip(IpAddr::V6(ip)) => seq![4u8] + ip.octets_spec(),
        super::AddressModel::Domain(name) => {
            let bytes = vstd::utf8::encode_utf8(name);
            seq![3u8, (bytes.len() % 256) as u8] + bytes
        },
    }
}

/// The request to connect to a destination.
pub open spec fn request_bytes(d: super::DestinationModel) -> Seq<u8> {
    seq![5u8, 1, 0] + host_bytes(d.host) + crate::text::be_bytes(d.port)
}

/// What a client says first: the ways to log in that it knows.
pub open spec fn greeting(with_auth: bool) -> Seq<u8> {
    if with_auth {
        seq![5u8, 1, 0, 2]
    } else {
        seq![5u8, 1, 0]
    }
}

/// A text behind its length in one byte.
pub open spec fn counted(s: Seq<char>) -> Seq<u8> {
    let bytes = vstd::utf8::encode_utf8(s);
    seq![(bytes.len() % 256) as u8] + bytes
}

/// The name and the password as they are sent.
pub open spec fn credential_bytes(c: super::CredentialModel) -> Seq<u8> {
    seq![5u8] + counted(c.username) + counted(c.password)
}

/// Whether a name and a password can be sent: neither has more than 255 bytes.
pub open spec fn credential_fits(c: super::CredentialModel) -> bool {
    vstd::utf8::encode_utf8(c.username).len() <= 255 && vstd::utf8::encode_utf8(c.password).len()
        <= 255
}

/// Where a handshake stands.
#[derive(Debug, Clone, Copy, PartialEq, Eq, Structural)]
pub enum Stage {
    /// All was sent at once; the server's answers come.
    Fake,
    /// The server chooses a way to log in.
    Method,
    /// The server says whether it accepts the password.
    AuthReply,
    /// The server says whether it is connected.
    Reply,
    /// The rest of an IPv6 address comes.
    LongAddress,
    /// There is nothing more to do.
    Done,
}

/// Why a server cannot be used.
#[derive(Debug, Clone, Copy, PartialEq, Eq, Structural)]
pub enum Socks5Error {
    /// The server accepts no way to log in that is known.
    AuthRequired,
    /// The server wants a password and there is none.
    MissingCredential,
    /// The server does not accept the password.
    AuthRejected,
    /// The server says something else.
    Unrecognized,
    /// The server is not connected.
    ReplyError,
}

impl Socks5Error {
    /// The error in words.
    pub fn message(&self) -> (s: &'static str)
        ensures
            s@ == match *self {
                Socks5Error::AuthRequired => "auth required by socks server"@,
                Socks5Error::MissingCredential => "missing username/password required by socks server"@,
                Socks5Error::AuthRejected => "auth rejected by SOCKSv5 server"@,
                Socks5Error::Unrecognized => "unrecognized reply from socks server"@,
                Socks5Error::ReplyError => "socks server reply error"@,
            },
    {
        match self {
            Socks5Error::AuthRequired => "auth required by socks server",
            Socks5Error::MissingCredential => "missing username/password required by socks server",
            Socks5Error::AuthRejected => "auth rejected by SOCKSv5 server",
            Socks5Error::Unrecognized => "unrecognized reply from socks server",
            Socks5Error::ReplyError => "socks server reply error",
        }
    }
}

/// What comes next.
#[derive(Debug)]
pub enum Step {
    /// Send some bytes, and then read exactly as many bytes as said.
    Exchange { write: Vec<u8>, read: usize },
    /// Send the client's data, if there is any: the server is connected.
    Finish { data: Option<Vec<u8>> },
    /// Give up.
    Fail(Socks5Error),
}

/// The model of what comes next.
pub enum StepModel {
    Exchange { write: Seq<u8>, read: nat },
    Finish { data: Option<Seq<u8>> },
    Fail(Socks5Error),
}

/// The view of data that may be missing.
pub open spec fn data_view(data: Option<Vec<u8>>) -> Option<Seq<u8>> {
    match data {
        Some(data) => Some(data@),
        None => None,
    }
}

impl View for Step {
    type V = StepModel;

    open spec fn view(&self) -> StepModel {
        match self {
            Step::Exchange { write, read } => StepModel::Exchange {
                write: write@,
                read: *read as nat,
            },
            Step::Finish { data } => StepModel::Finish { data: data_view(*data) },
            Step::Fail(e) => StepModel::Fail(*e),
        }
    }
}

/// A handshake with a server.
#[derive(Debug)]
pub struct Handshake {
    pub addr: Destination,
    pub data: Option<Vec<u8>>,
    pub auth: Option<UserPassAuthCredential>,
    pub stage: Stage,
}

/// What a handshake is about.
pub struct HandshakeModel {
    pub addr: super::DestinationModel,
    pub data: Option<Seq<u8>>,
    pub auth: Option<super::CredentialModel>,
}

impl View for Handshake {
    type V = HandshakeModel;

    open spec fn view(&self) -> HandshakeModel {
        HandshakeModel {
            addr: self.addr@,
            data: data_view(self.data),
            auth: super::credential_view(self.auth),
        }
    }
}

/// How many bytes are read at a stage.
pub open spec fn reply_length(stage: Stage) -> nat {
    match stage {
        Stage::Fake => 12,
        Stage::Method => 2,
        Stage::AuthReply => 2,
        Stage::Reply => 10,
        Stage::LongAddress => 12,
        Stage::Done => 0,
    }
}

/// Whether a handshake is done without waiting for answers.
pub open spec fn is_fake(fake_handshaking: bool, auth: Option<super::CredentialModel>) -> bool {
    fake_handshaking && auth is None
}

/// How a handshake starts.
pub open spec fn first_step(h: HandshakeModel, fake: bool) -> (Stage, StepModel) {
    if fake {
        let sent = seq![5u8, 1, 0] + request_bytes(h.addr) + h.data.unwrap_or(Seq::empty());
        (Stage::Fake, StepModel::Exchange { write: sent, read: 12 })
    } else {
        (Stage::Method, StepModel::Exchange { write: greeting(h.auth is Some), read: 2 })
    }
}

/// How a handshake goes on with the request.
pub open spec fn request_step(h: HandshakeModel) -> (Stage, StepModel) {
    (Stage::Reply, StepModel::Exchange { write: request_bytes(h.addr), read: 10 })
}

/// How a handshake goes on once the server has answered.
pub open spec fn next_step(h: HandshakeModel, stage: Stage, reply: Seq<u8>) -> (Stage, StepModel) {
    let done = (Stage::Done, StepModel::Finish { data: h.data });
    match stage {
        Stage::Fake => (Stage::Done, StepModel::Finish { data: None }),
        Stage::Method => if reply == seq![5u8, 0xff] {
            (Stage::Done, StepModel::Fail(Socks5Error::AuthRequired))
        } else if reply == seq![5u8, 0] {
            request_step(h)
        } else if reply == seq![5u8, 2] {
            match h.auth {
                Some(c) => (
                    Stage::AuthReply,
                    StepModel::Exchange { write: credential_bytes(c), read: 2 },
                ),
                None => (Stage::Done, StepModel::Fail(Socks5Error::MissingCredential)),
            }
        } else {
            (Stage::Done, StepModel::Fail(Socks5Error::Unrecognized))
        },
        Stage::AuthReply => if reply == seq![5u8, 0] {
            request_step(h)
        } else {
            (Stage::Done, StepModel::Fail(Socks5Error::AuthRejected))
        },
        Stage::Reply => if reply[0] != 5 || reply[1] != 0 {
            (Stage::Done, StepModel::Fail(Socks5Error::ReplyError))
        } else if reply[3] == 4 {
            (Stage::LongAddress, StepModel::Exchange { write: Seq::empty(), read: 12 })
        } else {
            done
        },
        Stage::LongAddress => done,
        Stage::Done => (Stage::Done, StepModel::Finish { data: None }),
    }
}

/// Appends the request to connect to a destination.
pub fn build_request(buffer: &mut Vec<u8>, addr: &Destination)
    ensures
        final(buffer)@ == old(buffer)@ + request_bytes(addr@),
{
    let ghost before = buffer@;
    buffer.push(5);
    buffer.push(1);
    buffer.push(0);
    assert(buffer@ =~= before + seq![5u8, 1, 0]);
    match &addr.host {
        Address::Ip(IpAddr::V4(ip)) => {
            let octets = ip.octets();
            buffer.push(1);
            push_bytes(buffer, octets.as_slice());
        },
        Address::Ip(IpAddr::V6(ip)) => {
            let octets = ip.octets();
            buffer.push(4);
            push_bytes(buffer, octets.as_slice());
        },
        Address::Domain(host) => {
            let bytes = host.as_str().as_bytes();
            buffer.push(3);
            buffer.push((bytes.len() % 256) as u8);
            push_bytes(buffer, bytes);
        },
    }
    assert(buffer@ =~= before + seq![5u8, 1, 0] + host_bytes(addr.host@));
    push_be16(buffer, addr.port);
    assert(buffer@ =~= before + request_bytes(addr@));
}

fn push_counted(buffer: &mut Vec<u8>, s: &str)
    ensures
        final(buffer)@ == old(buffer)@ + counted(s@),
{
    let bytes = s.as_bytes();
    let ghost before = buffer@;
    buffer.push((bytes.len() % 256) as u8);
    push_bytes(buffer, bytes);
    assert(buffer@ =~= before + counted(s@));
}

impl Handshake {
    /// Starts a handshake.
    pub fn start(
        addr: Destination,
        data: Option<Vec<u8>>,
        fake_handshaking: bool,
        auth: Option<UserPassAuthCredential>,
    ) -> (r: (Handshake, Step))
        ensures
            r.0@ == (HandshakeModel {
                addr: addr@,
                data: data_view(data),
                auth: super::credential_view(auth),
            }),
            (r.0.stage, r.1@) == first_step(
                r.0@,
                is_fake(fake_handshaking, super::credential_view(auth)),
            ),
    {
        let mut write: Vec<u8> = Vec::new();
        write.push(5);
        write.push(1);
        write.push(0);
        assert(write@ =~= seq![5u8, 1, 0]);
        if fake_handshaking && auth.is_none() {
            build_request(&mut write, &addr);
            if let Some(data) = &data {
                push_bytes(&mut write, data.as_slice());
            }
            let ghost model = HandshakeModel {
                addr: addr@,
                data: data_view(data),
                auth: super::credential_view(auth),
            };
            assert(write@ =~= seq![5u8, 1, 0] + request_bytes(addr@) + model.data.unwrap_or(
                Seq::empty(),
            ));
            (
                Handshake { addr, data, auth, stage: Stage::Fake },
                Step::Exchange { write, read: 12 },
            )
        } else {
            if auth.is_some() {
                write.push(2);
            }
            assert(write@ =~= greeting(auth is Some));
            (
                Handshake { addr, data, auth, stage: Stage::Method },
                Step::Exchange { write, read: 2 },
            )
        }
    }

    fn send_request(&mut self) -> (r: Step)
        ensures
            final(self)@ == old(self)@,
            (final(self).stage, r@) == request_step(old(self)@),
    {
        let mut write: Vec<u8> = Vec::new();
        build_request(&mut write, &self.addr);
        assert(write@ =~= request_bytes(self.addr@));
        self.stage = Stage::Reply;
        Step::Exchange { write, read: 10 }
    }

    fn send_data(&mut self) -> (r: Step)
        ensures
            final(self)@ == old(self)@,
            final(self).stage == Stage::Done,
            r@ == (StepModel::Finish { data: old(self)@.data }),
    {
        self.stage = Stage::Done;
        match &self.data {
            Some(data) => {
                let mut write: Vec<u8> = Vec::new();
                push_bytes(&mut write, data.as_slice());
                assert(write@ =~= data@);
                Step::Finish { data: Some(write) }
            },
            None => Step::Finish { data: None },
        }
    }

    /// Takes the server's answer and says what comes next.
    pub fn next(&mut self, reply: &[u8]) -> (r: Step)
        requires
            reply@.len() == reply_length(old(self).stage),
            old(self).stage == Stage::Method && reply@ == seq![5u8, 2] ==> (old(
                self,
            )@.auth matches Some(c) ==> credential_fits(c)),
        ensures
            final(self)@ == old(self)@,
            (final(self).stage, r@) == next_step(old(self)@, old(self).stage, reply@),
    {
        match self.stage {
            Stage::Fake => {
                self.stage = Stage::Done;
                Step::Finish { data: None }
            },
            Stage::Method => {
                proof {
                    assert(reply@ =~= seq![reply@[0], reply@[1]]);
                }
                if reply[0] != 5 {
                    self.stage = Stage::Done;
                    return Step::Fail(Socks5Error::Unrecognized);
                }
                match reply[1] {
                    0xff => {
                        self.stage = Stage::Done;
                        Step::Fail(Socks5Error::AuthRequired)
                    },
                    0 => self.send_request(),
                    2 => match &self.auth {
                        Some(auth) => {
                            let mut write: Vec<u8> = Vec::new();
                            write.push(5);
                            assert(write@ =~= seq![5u8]);
                            push_counted(&mut write, auth.username.as_str());
                            push_counted(&mut write, auth.password.as_str());
                            self.stage = Stage::AuthReply;
                            Step::Exchange { write, read: 2 }
                        },
                        None => {
                            self.stage = Stage::Done;
                            Step::Fail(Socks5Error::MissingCredential)
                        },
                    },
                    _ => {
                        self.stage = Stage::Done;
                        Step::Fail(Socks5Error::Unrecognized)
                    },
                }
            },
            Stage::AuthReply => {
                proof {
                    assert(reply@ =~= seq![reply@[0], reply@[1]]);
                }
                if reply[0] == 5 && reply[1] == 0 {
                    self.send_request()
                } else {
                    self.stage = Stage::Done;
                    Step::Fail(Socks5Error::AuthRejected)
                }
            },
            Stage::Reply => if reply[0] != 5 || reply[1] != 0 {
                self.stage = Stage::Done;
                Step::Fail(Socks5Error::ReplyError)
            } else if reply[3] == 4 {
                self.stage = Stage::LongAddress;
                Step::Exchange { write: Vec::new(), read: 12 }
            } else {
                self.send_data()
            },
            Stage::LongAddress => self.send_data(),
            Stage::Done => Step::Finish { data: None },
        }
    }
}

// ---- laws ----

/// A full handshake with a server that asks for no password sends the greeting,
/// the request and the client's data, in this order.
pub proof fn lemma_full_handshake(h: HandshakeModel, reply: Seq<u8>)
    requires
        h.auth is None,
        reply.len() == 10,
        reply[0] == 5,
        reply[1] == 0,
    ensures
        first_step(h, false) == (
            Stage::Method,
            StepModel::Exchange { write: seq![5u8, 1, 0], read: 2 },
        ),
        next_step(h, Stage::Method, seq![5u8, 0]) == (
            Stage::Reply,
            StepModel::Exchange { write: request_bytes(h.addr), read: 10 },
        ),
        next_step(h, Stage::Reply, reply) == if reply[3] == 4 {
            (Stage::LongAddress, StepModel::Exchange { write: Seq::empty(), read: 12 })
        } else {
            (Stage::Done, StepModel::Finish { data: h.data })
        },
        next_step(h, Stage::LongAddress, reply) == (
            Stage::Done,
            StepModel::Finish { data: h.data },
        ),
{
    assert(seq![5u8, 0][1] == 0);
    assert(seq![5u8, 0xff][1] == 0xff);
}

/// A password is sent only to a server that asks for it.
pub proof fn lemma_password_on_demand(h: HandshakeModel, stage: Stage, reply: Seq<u8>)
    requires
        next_step(h, stage, reply).0 == Stage::AuthReply,
    ensures
        stage == Stage::Method,
        reply == seq![5u8, 2],
        h.auth is Some,
{
}

/// The client's data is not sent before the server is connected, unless the
/// handshake is not waited for.
pub proof fn lemma_data_after_reply(h: HandshakeModel, stage: Stage, reply: Seq<u8>)
    ensures
        next_step(h, stage, reply).1 matches StepModel::Finish { data: Some(_) } ==> (stage
            == Stage::LongAddress || (stage == Stage::Reply && reply[0] == 5 && reply[1] == 0)),
{
}

/// A fake handshake sends what a full one sends, all at once.
pub proof fn lemma_fake_sends_all(h: HandshakeModel, data: Seq<u8>)
    requires
        h.data == Some(data),
    ensures
        first_step(h, true).1 == (StepModel::Exchange {
            write: greeting(false) + request_bytes(h.addr) + data,
            read: 12,
        }),
        next_step(h, Stage::Fake, data).1 == (StepModel::Finish { data: None }),
{
}

/// A request is five, one for connecting, zero, the kind of the host and the
/// host, and the port with its higher byte first.
pub proof fn lemma_request_layout(
    a: u8,
    b: u8,
    c: u8,
    d: u8,
    v6: crate::net::Ipv6Addr,
    name: Seq<char>,
    high: u8,
    low: u8,
)
    ensures
        ({
            let port = (high * 256 + low) as u16;
            let v4 = crate::net::Ipv4Addr {
                bits: (a * 0x100_0000 + b * 0x1_0000 + c * 0x100 + d) as u32,
            };
            let to_v4 = super::DestinationModel {
                host: super::AddressModel::Ip(IpAddr::V4(v4)),
                port,
            };
            let to_v6 = super::DestinationModel {
                host: super::AddressModel::Ip(IpAddr::V6(v6)),
                port,
            };
            let to_name = super::DestinationModel { host: super::AddressModel::Domain(name), port };
            let bytes = vstd::utf8::encode_utf8(name);
            &&& request_bytes(to_v4) == seq![5u8, 1, 0, 1, a, b, c, d, high, low]
            &&& request_bytes(to_v6).take(4) == seq![5u8, 1, 0, 4]
            &&& request_bytes(to_v6).len() == 22
            &&& crate::net::bytes_value(request_bytes(to_v6).subrange(4, 20)) == v6.bits
            &&& request_bytes(to_v6).skip(20) == seq![high, low]
            &&& bytes.len() < 256 ==> request_bytes(to_name) == seq![
                5u8,
                1,
                0,
                3,
                bytes.len() as u8,
            ] + bytes + seq![high, low]
        }),
{
    let port = (high * 256 + low) as u16;
    assert(port / 256 == high && port % 256 == low);
    assert(crate::text::be_bytes(port) =~= seq![high, low]);
    let n = (a * 0x100_0000 + b * 0x1_0000 + c * 0x100 + d) as nat;
    let v4 = crate::net::Ipv4Addr { bits: n as u32 };
    crate::net::lemma_four_octets(n, a, b, c, d);
    let to_v4 = super::DestinationModel { host: super::AddressModel::Ip(IpAddr::V4(v4)), port };
    assert(request_bytes(to_v4) =~= seq![5u8, 1, 0, 1, a, b, c, d, high, low]);
    let to_v6 = super::DestinationModel { host: super::AddressModel::Ip(IpAddr::V6(v6)), port };
    let octets = v6.octets_spec();
    crate::net::lemma_bytes_length(v6.bits as nat, 16);
    crate::net::lemma_address_sizes();
    crate::net::lemma_bytes_read_back(v6.bits as nat, 16);
    assert(request_bytes(to_v6).take(4) =~= seq![5u8, 1, 0, 4]);
    assert(request_bytes(to_v6).subrange(4, 20) =~= octets);
    assert(request_bytes(to_v6).skip(20) =~= seq![high, low]);
    let to_name = super::DestinationModel { host: super::AddressModel::Domain(name), port };
    let bytes = vstd::utf8::encode_utf8(name);
    if bytes.len() < 256 {
        assert(request_bytes(to_name) =~= seq![5u8, 1, 0, 3, bytes.len() as u8] + bytes + seq![
            high,
            low,
        ]);
    }
}

/// The user name is sent before the password, each behind its length.
pub proof fn lemma_credential_layout(c: super::CredentialModel)
    requires
        credential_fits(c),
    ensures
        ({
            let user = vstd::utf8::encode_utf8(c.username);
            let pass = vstd::utf8::encode_utf8(c.password);
            credential_bytes(c) == seq![5u8, user.len() as u8] + user + seq![pass.len() as u8] + pass
        }),
{
    let user = vstd::utf8::encode_utf8(c.username);
    let pass = vstd::utf8::encode_utf8(c.password);
    assert(credential_bytes(c) =~= seq![5u8, user.len() as u8] + user + seq![pass.len() as u8]
        + pass);
}

/// What a server answers to the greeting decides: without a password the request
/// follows, with one the user name and the password, where they are there.
/// Everything else is an error.
pub proof fn lemma_choice_of_server(h: HandshakeModel, a: u8, b: u8)
    ensures
        ({
            let next = next_step(h, Stage::Method, seq![a, b]).1;
            &&& a == 5 && b == 0 ==> next == (StepModel::Exchange {
                write: request_bytes(h.addr),
                read: 10,
            })
            &&& a == 5 && b == 2 ==> match h.auth {
                Some(c) => next == (StepModel::Exchange { write: credential_bytes(c), read: 2 }),
                None => next == StepModel::Fail(Socks5Error::MissingCredential),
            }
            &&& a == 5 && b == 255 ==> next == StepModel::Fail(Socks5Error::AuthRequired)
            &&& a != 5 || (b != 0 && b != 2 && b != 255) ==> next == StepModel::Fail(
                Socks5Error::Unrecognized,
            )
        }),
        ({
            let next = next_step(h, Stage::AuthReply, seq![a, b]).1;
            &&& a == 5 && b == 0 ==> next == (StepModel::Exchange {
                write: request_bytes(h.addr),
                read: 10,
            })
            &&& a != 5 || b != 0 ==> next == StepModel::Fail(Socks5Error::AuthRejected)
        }),
{
    let reply = seq![a, b];
    assert(reply == seq![5u8, 0xff] ==> reply[0] == 5 && reply[1] == 0xff);
    assert(reply == seq![5u8, 0] ==> reply[0] == 5 && reply[1] == 0);
    assert(reply == seq![5u8, 2] ==> reply[0] == 5 && reply[1] == 2);
    if a == 5 && b == 0 {
        assert(reply =~= seq![5u8, 0]);
    } else if a == 5 && b == 2 {
        assert(reply =~= seq![5u8, 2]);
        assert(seq![5u8, 2][1] != seq![5u8, 0xff][1]);
    } else if a == 5 && b == 255 {
        assert(reply =~= seq![5u8, 0xff]);
    }
}

/// A server that does not answer the request with five and zero has refused it,
/// and the client's data is not sent.
pub proof fn lemma_refused_request(h: HandshakeModel, reply: Seq<u8>)
    requires
        reply.len() == 10,
        reply[0] != 5 || reply[1] != 0,
    ensures
        next_step(h, Stage::Reply, reply).1 == StepModel::Fail(Socks5Error::ReplyError),
{
}

/// The greeting offers to log in with a password exactly where there is one, and
/// nothing is pretended then.
pub proof fn lemma_greeting(h: HandshakeModel, fake: bool)
    ensures
        h.auth is Some ==> first_step(h, false).1 == (StepModel::Exchange {
            write: seq![5u8, 1, 0, 2],
            read: 2,
        }),
        h.auth is None ==> first_step(h, false).1 == (StepModel::Exchange {
            write: seq![5u8, 1, 0],
            read: 2,
        }),
        h.auth is Some ==> !is_fake(fake, h.auth),
        h.auth is None ==> is_fake(fake, h.auth) == fake,
{
}

} // verus!
