//! Proxy servers.

pub mod copy;
pub mod http;
pub mod piping;
pub mod score;
pub mod socks5;

use self::score::{count_ones, error_rate_of, next_average_of, shift};
use crate::net::{
    number_of_bytes, push_ip, push_socket_addr, IpAddr, Ipv4Addr, Ipv6Addr, SocketAddr,
    SocketAddrV4,
};
use crate::text::{dec_string, push_dec, replace_char, same_str, str_to_lowercase};
use crate::time::Duration;
use vstd::prelude::*;

verus! {

// ---- protocols ----

/// A name and a password.
#[derive(Debug)]
pub struct UserPassAuthCredential {
    pub username: String,
    pub password: String,
}

/// How to talk to a proxy server.
#[derive(Debug)]
pub enum ProxyProto {
    Socks5 {
        /// Do not wait for the server's answers but send all bytes of the
        /// handshake at once, followed by the request itself. This saves
        /// round trips but some servers do not stand it.
        fake_handshaking: bool,
        user_pass_auth: Option<UserPassAuthCredential>,
    },
    Http {
        /// Send the client's data along with the request to connect. This
        /// saves a round trip but some servers do not stand it.
        connect_with_payload: bool,
        user_pass_auth: Option<UserPassAuthCredential>,
    },
    Direct,
}

/// The model of a name and a password.
pub struct CredentialModel {
    pub username: Seq<char>,
    pub password: Seq<char>,
}

/// The model of a protocol.
pub enum ProtoModel {
    Socks5 { fake_handshaking: bool, user_pass_auth: Option<CredentialModel> },
    Http { connect_with_payload: bool, user_pass_auth: Option<CredentialModel> },
    Direct,
}

impl View for UserPassAuthCredential {
    type V = CredentialModel;

    open spec fn view(&self) -> CredentialModel {
        CredentialModel { username: self.username@, password: self.password@ }
    }
}

/// The model of a name and a password that may be missing.
pub open spec fn credential_view(c: Option<UserPassAuthCredential>) -> Option<CredentialModel> {
    match c {
        Some(c) => Some(c@),
        None => None,
    }
}

impl View for ProxyProto {
    type V = ProtoModel;

    open spec fn view(&self) -> ProtoModel {
        match self {
            ProxyProto::Socks5 { fake_handshaking, user_pass_auth } => ProtoModel::Socks5 {
                fake_handshaking: *fake_handshaking,
                user_pass_auth: credential_view(*user_pass_auth),
            },
            ProxyProto::Http { connect_with_payload, user_pass_auth } => ProtoModel::Http {
                connect_with_payload: *connect_with_payload,
                user_pass_auth: credential_view(*user_pass_auth),
            },
            ProxyProto::Direct => ProtoModel::Direct,
        }
    }
}

impl UserPassAuthCredential {
    /// A name and a password.
    pub fn new(username: &str, password: &str) -> (r: UserPassAuthCredential)
        ensures
            r@ == (CredentialModel { username: username@, password: password@ }),
    {
        UserPassAuthCredential { username: username.to_owned(), password: password.to_owned() }
    }

    /// Whether both are the same.
    pub fn same(&self, other: &UserPassAuthCredential) -> (r: bool)
        ensures
            r == (self@ == other@),
    {
        self.username == other.username && self.password == other.password
    }
}

impl Clone for UserPassAuthCredential {
    fn clone(&self) -> (r: UserPassAuthCredential)
        ensures
            r@ == self@,
    {
        UserPassAuthCredential {
            username: self.username.clone(),
            password: self.password.clone(),
        }
    }
}

fn same_credential(
    a: &Option<UserPassAuthCredential>,
    b: &Option<UserPassAuthCredential>,
) -> (r: bool)
    ensures
        r == (credential_view(*a) == credential_view(*b)),
{
    match (a, b) {
        (Some(a), Some(b)) => a.same(b),
        (None, None) => true,
        _ => false,
    }
}

fn clone_credential(c: &Option<UserPassAuthCredential>) -> (r: Option<UserPassAuthCredential>)
    ensures
        credential_view(r) == credential_view(*c),
{
    match c {
        Some(c) => Some(c.clone()),
        None => None,
    }
}

impl Clone for ProxyProto {
    fn clone(&self) -> (r: ProxyProto)
        ensures
            r@ == self@,
    {
        match self {
            ProxyProto::Socks5 { fake_handshaking, user_pass_auth } => ProxyProto::Socks5 {
                fake_handshaking: *fake_handshaking,
                user_pass_auth: clone_credential(user_pass_auth),
            },
            ProxyProto::Http { connect_with_payload, user_pass_auth } => ProxyProto::Http {
                connect_with_payload: *connect_with_payload,
                user_pass_auth: clone_credential(user_pass_auth),
            },
            ProxyProto::Direct => ProxyProto::Direct,
        }
    }
}

/// What a protocol is called.
pub open spec fn proto_name(p: ProtoModel) -> Seq<char> {
    match p {
        ProtoModel::Socks5 { .. } => "SOCKSv5"@,
        ProtoModel::Http { .. } => "HTTP"@,
        ProtoModel::Direct => "DIRECT"@,
    }
}

/// The protocol that a lower-case word names.
pub open spec fn proto_named(word: Seq<char>) -> Option<ProtoModel> {
    if word == "socks5"@ || word == "socksv5"@ {
        Some(ProtoModel::Socks5 { fake_handshaking: false, user_pass_auth: None })
    } else if word == "http"@ {
        Some(ProtoModel::Http { connect_with_payload: false, user_pass_auth: None })
    } else {
        None
    }
}

impl ProxyProto {
    /// SOCKS without a password.
    pub fn socks5(fake_handshaking: bool) -> (r: ProxyProto)
        ensures
            r@ == (ProtoModel::Socks5 { fake_handshaking, user_pass_auth: None }),
    {
        ProxyProto::Socks5 { fake_handshaking, user_pass_auth: None }
    }

    /// SOCKS with a password.
    pub fn socks5_with_auth(credential: UserPassAuthCredential) -> (r: ProxyProto)
        ensures
            r@ == (ProtoModel::Socks5 {
                fake_handshaking: false,
                user_pass_auth: Some(credential@),
            }),
    {
        ProxyProto::Socks5 { fake_handshaking: false, user_pass_auth: Some(credential) }
    }

    /// HTTP with or without a password.
    pub fn http(
        connect_with_payload: bool,
        credential: Option<UserPassAuthCredential>,
    ) -> (r: ProxyProto)
        ensures
            r@ == (ProtoModel::Http {
                connect_with_payload,
                user_pass_auth: credential_view(credential),
            }),
    {
        ProxyProto::Http { connect_with_payload, user_pass_auth: credential }
    }

    /// Whether both are the same.
    pub fn same(&self, other: &ProxyProto) -> (r: bool)
        ensures
            r == (self@ == other@),
    {
        match (self, other) {
            (
                ProxyProto::Socks5 { fake_handshaking: a, user_pass_auth: c },
                ProxyProto::Socks5 { fake_handshaking: b, user_pass_auth: d },
            ) => *a == *b && same_credential(c, d),
            (
                ProxyProto::Http { connect_with_payload: a, user_pass_auth: c },
                ProxyProto::Http { connect_with_payload: b, user_pass_auth: d },
            ) => *a == *b && same_credential(c, d),
            (ProxyProto::Direct, ProxyProto::Direct) => true,
            _ => false,
        }
    }

    /// What the protocol is called.
    pub fn to_string(&self) -> (s: String)
        ensures
            s@ == proto_name(self@),
    {
        match self {
            ProxyProto::Socks5 { .. } => "SOCKSv5".to_owned(),
            ProxyProto::Http { .. } => "HTTP".to_owned(),
            ProxyProto::Direct => "DIRECT".to_owned(),
        }
    }

    /// The protocol that a word names, in upper or lower case.
    pub fn from_str(s: &str) -> (r: Result<ProxyProto, ()>)
        ensures
            match proto_named(crate::text::lower_text(s@)) {
                Some(p) => r matches Ok(proto) && proto@ == p,
                None => r is Err,
            },
    {
        let word = str_to_lowercase(s);
        if same_str(word.as_str(), "socks5") || same_str(word.as_str(), "socksv5") {
            Ok(ProxyProto::socks5(false))
        } else if same_str(word.as_str(), "http") {
            Ok(ProxyProto::http(false, None))
        } else {
            Err(())
        }
    }
}

// ---- destinations ----

/// A host: its address or its name.
#[derive(Debug)]
pub enum Address {
    Ip(IpAddr),
    Domain(String),
}

/// A host and a port.
#[derive(Debug)]
pub struct Destination {
    pub host: Address,
    pub port: u16,
}

/// The model of a host.
pub enum AddressModel {
    Ip(IpAddr),
    Domain(Seq<char>),
}

/// The model of a host and a port.
pub struct DestinationModel {
    pub host: AddressModel,
    pub port: u16,
}

impl View for Address {
    type V = AddressModel;

    open spec fn view(&self) -> AddressModel {
        match self {
            Address::Ip(ip) => AddressModel::Ip(*ip),
            Address::Domain(name) => AddressModel::Domain(name@),
        }
    }
}

impl View for Destination {
    type V = DestinationModel;

    open spec fn view(&self) -> DestinationModel {
        DestinationModel { host: self.host@, port: self.port }
    }
}

impl Clone for Address {
    fn clone(&self) -> (r: Address)
        ensures
            r@ == self@,
    {
        match self {
            Address::Ip(ip) => Address::Ip(*ip),
            Address::Domain(name) => Address::Domain(name.clone()),
        }
    }
}

impl Clone for Destination {
    fn clone(&self) -> (r: Destination)
        ensures
            r@ == self@,
    {
        Destination { host: self.host.clone(), port: self.port }
    }
}

/// The text of a host.
pub open spec fn host_text(host: AddressModel) -> Seq<char> {
    match host {
        AddressModel::Ip(ip) => crate::net::ip_spelled(ip),
        AddressModel::Domain(name) => name,
    }
}

/// The text of a host, with brackets around an IPv6 address.
pub open spec fn bracketed_host_text(host: AddressModel) -> Seq<char> {
    match host {
        AddressModel::Ip(IpAddr::V6(ip)) => seq!['['] + crate::net::ip_spelled(IpAddr::V6(ip))
            + seq![']'],
        _ => host_text(host),
    }
}

/// The text of a host and a port.
pub open spec fn destination_text(d: DestinationModel) -> Seq<char> {
    host_text(d.host).push(':') + crate::text::dec(d.port as nat)
}

impl Address {
    /// The text of the host.
    pub fn to_string(&self) -> (s: String)
        ensures
            s@ == host_text(self@),
    {
        match self {
            Address::Ip(ip) => ip.to_string(),
            Address::Domain(name) => name.clone(),
        }
    }

    /// The text of the host, with brackets around an IPv6 address.
    pub fn to_bracketed_string(&self) -> (s: String)
        ensures
            s@ == bracketed_host_text(self@),
    {
        match self {
            Address::Ip(IpAddr::V6(ip)) => {
                let mut s = String::new();
                s.push('[');
                push_ip(&mut s, IpAddr::V6(*ip));
                s.push(']');
                assert(s@ =~= bracketed_host_text(self@));
                s
            },
            _ => self.to_string(),
        }
    }
}

impl Destination {
    /// A host by its name, and a port.
    pub fn domain(name: &str, port: u16) -> (r: Destination)
        ensures
            r@ == (DestinationModel { host: AddressModel::Domain(name@), port }),
    {
        Destination { host: Address::Domain(name.to_owned()), port }
    }

    /// The text of the host and the port.
    pub fn to_string(&self) -> (s: String)
        ensures
            s@ == destination_text(self@),
    {
        let mut s = self.host.to_string();
        s.push(':');
        push_dec(&mut s, self.port as u64);
        s
    }
}

impl From<[u8; 4]> for Address {
    fn from(buf: [u8; 4]) -> (r: Address) {
        proof {
            crate::net::lemma_bytes_bound(buf@);
            crate::net::lemma_address_sizes();
        }
        let bits = number_of_bytes(&buf) as u32;
        Address::Ip(IpAddr::V4(Ipv4Addr { bits }))
    }
}

impl vstd::std_specs::convert::FromSpecImpl<[u8; 4]> for Address {
    open spec fn obeys_from_spec() -> bool {
        true
    }

    open spec fn from_spec(buf: [u8; 4]) -> Address {
        Address::Ip(IpAddr::V4(Ipv4Addr { bits: crate::net::bytes_value(buf@) as u32 }))
    }
}

impl From<[u8; 16]> for Address {
    fn from(buf: [u8; 16]) -> (r: Address) {
        Address::Ip(IpAddr::V6(Ipv6Addr { bits: number_of_bytes(&buf) }))
    }
}

impl vstd::std_specs::convert::FromSpecImpl<[u8; 16]> for Address {
    open spec fn obeys_from_spec() -> bool {
        true
    }

    open spec fn from_spec(buf: [u8; 16]) -> Address {
        Address::Ip(IpAddr::V6(Ipv6Addr { bits: crate::net::bytes_value(buf@) as u128 }))
    }
}

impl From<String> for Address {
    fn from(s: String) -> (r: Address) {
        Address::Domain(s)
    }
}

impl vstd::std_specs::convert::FromSpecImpl<String> for Address {
    open spec fn obeys_from_spec() -> bool {
        true
    }

    open spec fn from_spec(s: String) -> Address {
        Address::Domain(s)
    }
}

impl From<SocketAddr> for Destination {
    fn from(addr: SocketAddr) -> (r: Destination) {
        Destination { host: Address::Ip(addr.ip()), port: addr.port() }
    }
}

impl vstd::std_specs::convert::FromSpecImpl<SocketAddr> for Destination {
    open spec fn obeys_from_spec() -> bool {
        true
    }

    open spec fn from_spec(addr: SocketAddr) -> Destination {
        Destination { host: Address::Ip(addr.ip_spec()), port: addr.port_spec() }
    }
}

impl From<(Address, u16)> for Destination {
    fn from(addr_port: (Address, u16)) -> (r: Destination) {
        Destination { host: addr_port.0, port: addr_port.1 }
    }
}

impl vstd::std_specs::convert::FromSpecImpl<(Address, u16)> for Destination {
    open spec fn obeys_from_spec() -> bool {
        true
    }

    open spec fn from_spec(addr_port: (Address, u16)) -> Destination {
        Destination { host: addr_port.0, port: addr_port.1 }
    }
}

// ---- traffic ----

/// How many bytes were sent and received.
#[derive(Debug, Clone, Copy, PartialEq, Eq, Structural)]
pub struct Traffic {
    pub tx_bytes: usize,
    pub rx_bytes: usize,
}

impl Default for Traffic {
    /// None at all.
    fn default() -> (r: Traffic)
        ensures
            r == (Traffic { tx_bytes: 0, rx_bytes: 0 }),
    {
        Traffic { tx_bytes: 0, rx_bytes: 0 }
    }
}

impl From<(usize, usize)> for Traffic {
    fn from(tx_rx_bytes: (usize, usize)) -> (r: Traffic) {
        Traffic { tx_bytes: tx_rx_bytes.0, rx_bytes: tx_rx_bytes.1 }
    }
}

impl vstd::std_specs::convert::FromSpecImpl<(usize, usize)> for Traffic {
    open spec fn obeys_from_spec() -> bool {
        true
    }

    open spec fn from_spec(tx_rx_bytes: (usize, usize)) -> Traffic {
        Traffic { tx_bytes: tx_rx_bytes.0, rx_bytes: tx_rx_bytes.1 }
    }
}

impl std::ops::Add for Traffic {
    type Output = Traffic;

    fn add(self, other: Traffic) -> (r: Traffic) {
        Traffic {
            tx_bytes: self.tx_bytes + other.tx_bytes,
            rx_bytes: self.rx_bytes + other.rx_bytes,
        }
    }
}

impl vstd::std_specs::ops::AddSpecImpl for Traffic {
    open spec fn obeys_add_spec() -> bool {
        true
    }

    open spec fn add_req(self, other: Traffic) -> bool {
        self.tx_bytes + other.tx_bytes <= usize::MAX && self.rx_bytes + other.rx_bytes
            <= usize::MAX
    }

    open spec fn add_spec(self, other: Traffic) -> Traffic {
        Traffic {
            tx_bytes: (self.tx_bytes + other.tx_bytes) as usize,
            rx_bytes: (self.rx_bytes + other.rx_bytes) as usize,
        }
    }
}

/// Bytes counted from the start of the server on. The counters start again from
/// zero where they cannot count further.
#[derive(Debug, Clone, Copy)]
pub struct AtomicTraffic {
    pub tx_bytes: usize,
    pub rx_bytes: usize,
}

/// The sum of two numbers, from zero again behind the largest.
pub open spec fn wrapped_sum(a: usize, b: usize) -> int {
    if a + b > usize::MAX {
        a + b - usize::MAX - 1
    } else {
        a + b
    }
}

impl Default for AtomicTraffic {
    /// None at all.
    fn default() -> (r: AtomicTraffic)
        ensures
            r == (AtomicTraffic { tx_bytes: 0, rx_bytes: 0 }),
    {
        AtomicTraffic { tx_bytes: 0, rx_bytes: 0 }
    }
}

impl AtomicTraffic {
    /// The bytes counted so far.
    pub open spec fn amount(self) -> Traffic {
        Traffic { tx_bytes: self.tx_bytes, rx_bytes: self.rx_bytes }
    }

    /// Counts further bytes.
    pub fn add(&mut self, amt: Traffic)
        ensures
            final(self).tx_bytes == wrapped_sum(old(self).tx_bytes, amt.tx_bytes),
            final(self).rx_bytes == wrapped_sum(old(self).rx_bytes, amt.rx_bytes),
    {
        self.rx_bytes = self.rx_bytes.wrapping_add(amt.rx_bytes);
        self.tx_bytes = self.tx_bytes.wrapping_add(amt.tx_bytes);
    }

    /// The bytes counted so far.
    pub fn read(&self) -> (r: Traffic)
        ensures
            r == self.amount(),
    {
        Traffic { tx_bytes: self.tx_bytes, rx_bytes: self.rx_bytes }
    }
}

// ---- servers ----

/// How long a server took to answer.
#[derive(Debug, Clone, Copy, PartialEq, Eq, Structural)]
pub enum Delay {
    Unknown,
    Known(Duration),
    TimedOut,
}

impl Default for Delay {
    /// Nothing is known yet.
    fn default() -> (r: Delay)
        ensures
            r == Delay::Unknown,
    {
        Delay::Unknown
    }
}

impl Delay {
    /// The span of time, where the server answered.
    pub fn known(self) -> (r: Option<Duration>)
        ensures
            r == match self {
                Delay::Known(d) => Some(d),
                _ => None,
            },
    {
        match self {
            Delay::Known(d) => Some(d),
            _ => None,
        }
    }

    /// What a function makes of the span of time, where the server answered.
    pub fn map<T, F: FnOnce(Duration) -> T>(self, func: F) -> (r: Option<T>)
        requires
            self matches Delay::Known(d) ==> func.requires((d,)),
        ensures
            match self {
                Delay::Known(d) => r matches Some(value) && func.ensures((d,), value),
                _ => r is None,
            },
    {
        match self {
            Delay::Known(d) => Some(func(d)),
            _ => None,
        }
    }
}

impl From<Option<Duration>> for Delay {
    fn from(d: Option<Duration>) -> (r: Delay) {
        match d {
            Some(d) => Delay::Known(d),
            None => Delay::TimedOut,
        }
    }
}

impl vstd::std_specs::convert::FromSpecImpl<Option<Duration>> for Delay {
    open spec fn obeys_from_spec() -> bool {
        true
    }

    open spec fn from_spec(d: Option<Duration>) -> Delay {
        match d {
            Some(d) => Delay::Known(d),
            None => Delay::TimedOut,
        }
    }
}

/// What is known of how a server works.
#[derive(Debug, Clone, Copy, PartialEq, Eq, Structural)]
pub struct ProxyServerStatus {
    pub delay: Delay,
    pub score: Option<i32>,
    pub conn_alive: u32,
    pub conn_total: u32,
    pub conn_error: u32,
    /// One binary digit for each connection that was closed, the newest last: a
    /// one where it failed.
    pub close_history: u64,
}

impl Default for ProxyServerStatus {
    /// Nothing is known yet.
    fn default() -> (r: ProxyServerStatus)
        ensures
            r == new_status(),
    {
        ProxyServerStatus {
            delay: Delay::Unknown,
            score: None,
            conn_alive: 0,
            conn_total: 0,
            conn_error: 0,
            close_history: 0,
        }
    }
}

/// The status of a server of which nothing is known yet.
pub open spec fn new_status() -> ProxyServerStatus {
    ProxyServerStatus {
        delay: Delay::Unknown,
        score: None,
        conn_alive: 0,
        conn_total: 0,
        conn_error: 0,
        close_history: 0,
    }
}

impl ProxyServerStatus {
    /// How many of the last `n` connections failed; no more than the last 64
    /// are known.
    pub fn recent_error_count(&self, n: u8) -> (r: u8)
        requires
            n >= 1,
        ensures
            r == score::ones(
                self.close_history as nat,
                if n < 64 {
                    n as nat
                } else {
                    64
                },
            ),
            r <= n,
    {
        count_ones(
            self.close_history,
            if n < 64 {
                n
            } else {
                64
            },
        )
    }
}

/// Ports, none of them twice.
#[derive(Debug)]
pub struct PortSet {
    ports: Vec<u16>,
}

impl View for PortSet {
    type V = Set<u16>;

    closed spec fn view(&self) -> Set<u16> {
        self.ports@.to_set()
    }
}

impl PortSet {
    #[verifier::type_invariant]
    closed spec fn inv(self) -> bool {
        self.ports@.no_duplicates()
    }

    /// No port at all.
    pub fn new() -> (r: PortSet)
        ensures
            r@ == Set::<u16>::empty(),
    {
        let r = PortSet { ports: Vec::new() };
        assert(r@ =~= Set::<u16>::empty());
        r
    }

    /// Whether there is no port.
    pub fn is_empty(&self) -> (r: bool)
        ensures
            r == (self@ == Set::<u16>::empty()),
    {
        proof {
            if self.ports@.len() == 0 {
                assert(self@ =~= Set::<u16>::empty());
            } else {
                assert(self@.contains(self.ports@[0]));
            }
        }
        self.ports.len() == 0
    }

    /// Whether a port is there.
    pub fn contains(&self, port: u16) -> (r: bool)
        ensures
            r == self@.contains(port),
    {
        let n = self.ports.len();
        let mut i: usize = 0;
        while i < n
            invariant
                n == self.ports@.len(),
                i <= n,
                forall|j: int| 0 <= j < i ==> self.ports@[j] != port,
            decreases n - i,
        {
            if self.ports[i] == port {
                assert(self.ports@[i as int] == port);
                return true;
            }
            i = i + 1;
        }
        false
    }

    /// The ports, each once.
    pub fn listed(&self) -> (r: &Vec<u16>)
        ensures
            r@.to_set() == self@,
            r@.no_duplicates(),
    {
        proof {
            use_type_invariant(self);
        }
        &self.ports
    }

    /// Adds a port.
    pub fn insert(&mut self, port: u16)
        ensures
            final(self)@ == old(self)@.insert(port),
    {
        proof {
            use_type_invariant(&*self);
        }
        if self.contains(port) {
            assert(self@.insert(port) =~= self@);
            return;
        }
        let mut ports: Vec<u16> = Vec::new();
        std::mem::swap(&mut ports, &mut self.ports);
        let ghost before = ports@;
        ports.push(port);
        proof {
            assert forall|v: u16| ports@.to_set().contains(v) == before.to_set().insert(
                port,
            ).contains(v) by {
                if before.contains(v) {
                    let j = choose|j: int| 0 <= j < before.len() && before[j] == v;
                    assert(ports@[j] == v);
                }
                assert(ports@[before.len() as int] == port);
            }
            assert(ports@.to_set() =~= before.to_set().insert(port));
        }
        self.ports = ports;
    }
}

impl Clone for PortSet {
    fn clone(&self) -> (r: PortSet)
        ensures
            r@ == self@,
    {
        proof {
            use_type_invariant(self);
        }
        let ports = self.ports.clone();
        assert(ports@ =~= self.ports@);
        PortSet { ports }
    }
}

/// What was set for a server.
#[derive(Debug)]
pub struct ProxyServerConfig {
    pub test_dns: SocketAddr,
    pub max_wait: Duration,
    pub listen_ports: PortSet,
    pub score_base: i32,
}

/// The model of what was set for a server.
pub struct ConfigModel {
    pub test_dns: SocketAddr,
    pub max_wait: Duration,
    pub listen_ports: Set<u16>,
    pub score_base: i32,
}

impl View for ProxyServerConfig {
    type V = ConfigModel;

    open spec fn view(&self) -> ConfigModel {
        ConfigModel {
            test_dns: self.test_dns,
            max_wait: self.max_wait,
            listen_ports: self.listen_ports@,
            score_base: self.score_base,
        }
    }
}

/// The model of ports that may be missing.
pub open spec fn ports_view(ports: Option<PortSet>) -> Set<u16> {
    match ports {
        Some(ports) => ports@,
        None => Set::empty(),
    }
}

impl ProxyServerConfig {
    /// What was set for a server; without ports it serves all of them, and
    /// without a base its score starts from zero.
    pub fn new(
        test_dns: SocketAddr,
        score_base: Option<i32>,
        listen_ports: Option<PortSet>,
        max_wait: Duration,
    ) -> (r: ProxyServerConfig)
        ensures
            r@ == (ConfigModel {
                test_dns,
                max_wait,
                listen_ports: ports_view(listen_ports),
                score_base: score_base.unwrap_or(0),
            }),
    {
        ProxyServerConfig {
            test_dns,
            max_wait,
            listen_ports: match listen_ports {
                Some(ports) => ports,
                None => PortSet::new(),
            },
            score_base: match score_base {
                Some(base) => base,
                None => 0,
            },
        }
    }
}

impl Clone for ProxyServerConfig {
    fn clone(&self) -> (r: ProxyServerConfig)
        ensures
            r@ == self@,
    {
        ProxyServerConfig {
            test_dns: self.test_dns,
            max_wait: self.max_wait,
            listen_ports: self.listen_ports.clone(),
            score_base: self.score_base,
        }
    }
}

/// A proxy server.
#[derive(Debug)]
pub struct ProxyServer {
    pub addr: SocketAddr,
    pub proto: ProxyProto,
    pub tag: String,
    pub config: ProxyServerConfig,
    pub status: ProxyServerStatus,
    pub traffic: AtomicTraffic,
}

/// What tells servers apart.
pub struct ServerIdentity {
    pub addr: SocketAddr,
    pub proto: ProtoModel,
    pub tag: Seq<char>,
}

/// The model of a server.
pub struct ServerModel {
    pub addr: SocketAddr,
    pub proto: ProtoModel,
    pub tag: Seq<char>,
    pub config: ConfigModel,
    pub status: ProxyServerStatus,
    pub traffic: AtomicTraffic,
}

impl ServerModel {
    /// What tells the server apart from others.
    pub open spec fn identity(self) -> ServerIdentity {
        ServerIdentity { addr: self.addr, proto: self.proto, tag: self.tag }
    }
}

impl View for ProxyServer {
    type V = ServerModel;

    open spec fn view(&self) -> ServerModel {
        ServerModel {
            addr: self.addr,
            proto: self.proto@,
            tag: self.tag@,
            config: self.config@,
            status: self.status,
            traffic: self.traffic,
        }
    }
}

/// The models of some servers.
pub open spec fn server_models(servers: Seq<ProxyServer>) -> Seq<ServerModel> {
    servers.map_values(|s: ProxyServer| s@)
}

/// The model of a server of which nothing is known yet.
pub open spec fn new_server(
    addr: SocketAddr,
    proto: ProtoModel,
    config: ConfigModel,
    tag: Seq<char>,
) -> ServerModel {
    ServerModel {
        addr,
        proto,
        tag,
        config,
        status: new_status(),
        traffic: AtomicTraffic { tx_bytes: 0, rx_bytes: 0 },
    }
}

/// Whether a text can be the tag of a server.
pub open spec fn is_tag(s: Seq<char>) -> bool {
    vstd::utf8::is_ascii_chars(s) && !s.contains(' ') && !s.contains('\n')
}

/// The address that stands where there is none.
pub open spec fn stub_addr() -> SocketAddr {
    SocketAddr::V4(SocketAddrV4 { ip: Ipv4Addr { bits: 0 }, port: 0 })
}

/// The text of a server.
pub open spec fn server_text(s: ProxyServer) -> Seq<char> {
    if s.proto@ == ProtoModel::Direct {
        "DIRECT"@
    } else {
        s.tag@ + " ("@ + proto_name(s.proto@) + " "@ + crate::net::socket_spelled(s.addr) + ")"@
    }
}

/// The score that a server had before a measurement: its score, or what follows
/// from the delay that was known before, or else from the new one.
pub open spec fn last_score(
    status: ProxyServerStatus,
    max_wait: Duration,
    score_base: i32,
    delay: Duration,
) -> int {
    match status.score {
        Some(score) => score as int,
        None => {
            let d = match status.delay {
                Delay::Known(d) => d,
                Delay::Unknown => delay,
                Delay::TimedOut => max_wait,
            };
            (d.millis() as i32) + score_base
        },
    }
}

/// The score after a measurement; none where a number on the way has more than
/// 32 bits.
pub open spec fn next_score(
    status: ProxyServerStatus,
    max_wait: Duration,
    score_base: i32,
    delay: Duration,
) -> Option<i32> {
    score::next_average(
        last_score(status, max_wait, score_base, delay),
        (delay.millis() as i32) + score_base,
        score::error_rate(status.close_history),
    )
}

/// The status after a measurement.
pub open spec fn measured(
    status: ProxyServerStatus,
    max_wait: Duration,
    score_base: i32,
    delay: Option<Duration>,
) -> ProxyServerStatus {
    match delay {
        Some(delay) => ProxyServerStatus {
            score: next_score(status, max_wait, score_base, delay),
            delay: Delay::Known(delay),
            close_history: score::shifted(status.close_history, false),
            ..status
        },
        None => ProxyServerStatus { score: None, delay: Delay::TimedOut, ..status },
    }
}

/// The status once another connection was opened.
pub open spec fn opened(status: ProxyServerStatus) -> ProxyServerStatus {
    ProxyServerStatus {
        conn_alive: (status.conn_alive + 1) as u32,
        conn_total: (status.conn_total + 1) as u32,
        ..status
    }
}

/// The status once a connection was closed.
pub open spec fn closed(status: ProxyServerStatus, has_error: bool) -> ProxyServerStatus {
    ProxyServerStatus {
        conn_alive: (status.conn_alive - 1) as u32,
        conn_error: (status.conn_error + if has_error {
            1int
        } else {
            0int
        }) as u32,
        close_history: score::shifted(status.close_history, has_error),
        ..status
    }
}

impl ProxyServer {
    /// What tells the server apart from others.
    pub open spec fn identity(self) -> ServerIdentity {
        self@.identity()
    }

    /// A server of which nothing is known yet. Without a tag its port is the tag.
    pub fn new(
        addr: SocketAddr,
        proto: ProxyProto,
        test_dns: SocketAddr,
        max_wait: Duration,
        listen_ports: Option<PortSet>,
        tag: Option<&str>,
        score_base: Option<i32>,
    ) -> (r: ProxyServer)
        requires
            tag matches Some(s) ==> is_tag(s@),
        ensures
            r@ == new_server(
                addr,
                proto@,
                ConfigModel {
                    test_dns,
                    max_wait,
                    listen_ports: ports_view(listen_ports),
                    score_base: score_base.unwrap_or(0),
                },
                match tag {
                    Some(s) => s@,
                    None => crate::text::dec(addr.port_spec() as nat),
                },
            ),
    {
        let tag = match tag {
            None => dec_string(addr.port() as u64),
            Some(s) => s.to_owned(),
        };
        ProxyServer {
            addr,
            proto,
            tag,
            config: ProxyServerConfig::new(test_dns, score_base, listen_ports, max_wait),
            status: ProxyServerStatus::default(),
            traffic: AtomicTraffic::default(),
        }
    }

    /// What stands for connecting without a server.
    pub fn direct(max_wait: Duration) -> (r: ProxyServer)
        ensures
            r@ == new_server(
                stub_addr(),
                ProtoModel::Direct,
                ConfigModel {
                    test_dns: stub_addr(),
                    max_wait,
                    listen_ports: Set::empty(),
                    score_base: 0,
                },
                "__DIRECT__"@,
            ),
    {
        let addr = SocketAddr::V4(SocketAddrV4 { ip: Ipv4Addr { bits: 0 }, port: 0 });
        ProxyServer {
            addr,
            proto: ProxyProto::Direct,
            tag: "__DIRECT__".to_owned(),
            config: ProxyServerConfig::new(addr, None, None, max_wait),
            status: ProxyServerStatus::default(),
            traffic: AtomicTraffic::default(),
        }
    }

    /// Whether both are the same server.
    pub fn same(&self, other: &ProxyServer) -> (r: bool)
        ensures
            r == (self.identity() == other.identity()),
    {
        self.addr == other.addr && self.proto.same(&other.proto) && self.tag == other.tag
    }

    /// Takes over what was set for another server.
    pub fn copy_config_from(&mut self, from: &ProxyServer)
        ensures
            final(self)@ == (ServerModel { config: from@.config, ..old(self)@ }),
    {
        self.config = from.config.clone();
    }

    /// Whether the server is there for connections that came in at a port.
    pub fn serve_port(&self, port: u16) -> (r: bool)
        ensures
            r == (self.config@.listen_ports == Set::<u16>::empty()
                || self.config@.listen_ports.contains(port)),
    {
        self.config.listen_ports.is_empty() || self.config.listen_ports.contains(port)
    }

    /// What is known of the server.
    pub fn status_snapshot(&self) -> (r: ProxyServerStatus)
        ensures
            r == self.status,
    {
        self.status
    }

    /// The score of the server.
    pub fn score(&self) -> (r: Option<i32>)
        ensures
            r == self.status.score,
    {
        self.status.score
    }

    /// The bytes counted so far.
    pub fn traffic(&self) -> (r: Traffic)
        ensures
            r == self.traffic.amount(),
    {
        self.traffic.read()
    }

    /// How long to wait for the server.
    pub fn max_wait(&self) -> (r: Duration)
        ensures
            r == self.config@.max_wait,
    {
        self.config.max_wait
    }

    /// The name server that the server is tested with.
    pub fn test_dns(&self) -> (r: SocketAddr)
        ensures
            r == self.config@.test_dns,
    {
        self.config.test_dns
    }

    /// The score after a measurement; none where a number on the way has more
    /// than 32 bits.
    pub fn score_after(&self, delay: Duration) -> (r: Option<i32>)
        ensures
            r == next_score(
                self.status,
                self.config@.max_wait,
                self.config@.score_base,
                delay,
            ),
    {
        let base = self.config.score_base as i64;
        let millis = delay.as_millis();
        let now = (#[verifier::truncate] (millis as i32)) as i64;
        let last: i64 = match self.status.score {
            Some(score) => score as i64,
            None => {
                let d = match self.status.delay {
                    Delay::Known(d) => d,
                    Delay::Unknown => delay,
                    Delay::TimedOut => self.config.max_wait,
                };
                let millis = d.as_millis();
                ((#[verifier::truncate] (millis as i32)) as i64) + base
            },
        };
        next_average_of(last, now + base, error_rate_of(self.status.close_history))
    }

    /// Notes how long the server took to answer, or that it did not.
    pub fn update_delay(&mut self, delay: Option<Duration>)
        requires
            delay matches Some(d) ==> next_score(
                old(self).status,
                old(self).config@.max_wait,
                old(self).config@.score_base,
                d,
            ) is Some,
        ensures
            final(self).status == measured(
                old(self).status,
                old(self).config@.max_wait,
                old(self).config@.score_base,
                delay,
            ),
            final(self)@ == (ServerModel { status: final(self).status, ..old(self)@ }),
    {
        match delay {
            Some(delay) => {
                let score = self.score_after(delay);
                self.status.score = score;
                self.status.delay = Delay::Known(delay);
                self.status.close_history = shift(self.status.close_history, false);
            },
            None => {
                self.status.delay = Delay::TimedOut;
                self.status.score = None;
            },
        }
    }

    /// Notes how long the server took to answer, or that it did not, and a score
    /// that was found elsewhere.
    pub fn update_delay_with_score(&mut self, delay: Option<Duration>, score: Option<i32>)
        ensures
            final(self).status == (ProxyServerStatus {
                score,
                delay: match delay {
                    Some(d) => Delay::Known(d),
                    None => Delay::TimedOut,
                },
                ..old(self).status
            }),
            final(self)@ == (ServerModel { status: final(self).status, ..old(self)@ }),
    {
        self.status.score = score;
        self.status.delay = Delay::from(delay);
    }

    /// Counts further bytes.
    pub fn add_traffic(&mut self, traffic: Traffic)
        ensures
            final(self).traffic.tx_bytes == wrapped_sum(
                old(self).traffic.tx_bytes,
                traffic.tx_bytes,
            ),
            final(self).traffic.rx_bytes == wrapped_sum(
                old(self).traffic.rx_bytes,
                traffic.rx_bytes,
            ),
            final(self)@ == (ServerModel { traffic: final(self).traffic, ..old(self)@ }),
    {
        self.traffic.add(traffic);
    }

    /// Notes that a connection was opened.
    pub fn update_stats_conn_open(&mut self)
        requires
            old(self).status.conn_alive < u32::MAX,
            old(self).status.conn_total < u32::MAX,
        ensures
            final(self).status == opened(old(self).status),
            final(self)@ == (ServerModel { status: final(self).status, ..old(self)@ }),
    {
        self.status.conn_alive = self.status.conn_alive + 1;
        self.status.conn_total = self.status.conn_total + 1;
    }

    /// Notes that a connection was closed.
    pub fn update_stats_conn_close(&mut self, has_error: bool)
        requires
            old(self).status.conn_alive > 0,
            has_error ==> old(self).status.conn_error < u32::MAX,
        ensures
            final(self).status == closed(old(self).status, has_error),
            final(self)@ == (ServerModel { status: final(self).status, ..old(self)@ }),
    {
        self.status.conn_alive = self.status.conn_alive - 1;
        self.status.close_history = shift(self.status.close_history, has_error);
        if has_error {
            self.status.conn_error = self.status.conn_error + 1;
        }
    }

    /// The name of a measured value of the server.
    pub fn graphite_path(&self, suffix: &str) -> (s: String)
        ensures
            s@ == "moproxy.proxy_servers."@ + crate::text::replaced(self.tag@, '.', '_') + "."@
                + suffix@,
    {
        let mut s = "moproxy.proxy_servers.".to_owned();
        s.append(replace_char(self.tag.as_str(), '.', '_').as_str());
        s.append(".");
        s.append(suffix);
        s
    }

    /// The text of the server.
    pub fn to_string(&self) -> (s: String)
        ensures
            s@ == server_text(*self),
    {
        match &self.proto {
            ProxyProto::Direct => "DIRECT".to_owned(),
            _ => {
                let mut s = self.tag.clone();
                s.append(" (");
                s.append(self.proto.to_string().as_str());
                s.append(" ");
                push_socket_addr(&mut s, self.addr);
                s.append(")");
                s
            },
        }
    }
}

impl Clone for ProxyServer {
    fn clone(&self) -> (r: ProxyServer)
        ensures
            r@ == self@,
    {
        ProxyServer {
            addr: self.addr,
            proto: self.proto.clone(),
            tag: self.tag.clone(),
            config: self.config.clone(),
            status: self.status,
            traffic: self.traffic,
        }
    }
}

// ---- laws ----

/// A connection that was opened and closed again is counted once, is no longer
/// open, and counts as failed where it failed, among the last ones too.
pub proof fn lemma_open_then_close(before: ProxyServerStatus, has_error: bool, k: nat)
    requires
        before.conn_alive < u32::MAX,
        before.conn_total < u32::MAX,
        before.conn_error < u32::MAX,
        k < 64,
    ensures
        ({
            let after = closed(opened(before), has_error);
            let failed = if has_error {
                1nat
            } else {
                0nat
            };
            &&& after.conn_alive == before.conn_alive
            &&& after.conn_total == before.conn_total + 1
            &&& after.conn_error == before.conn_error + failed
            &&& score::ones(after.close_history as nat, k + 1) == score::ones(
                before.close_history as nat,
                k,
            ) + failed
            &&& after.score == before.score
            &&& after.delay == before.delay
        }),
{
    score::lemma_shift_counts(before.close_history, has_error, k);
}

/// A server that does not answer has no score, and one that answers has the
/// delay that was measured.
pub proof fn lemma_measured_delay(
    status: ProxyServerStatus,
    max_wait: Duration,
    score_base: i32,
    delay: Duration,
)
    ensures
        measured(status, max_wait, score_base, None).score is None,
        measured(status, max_wait, score_base, None).delay == Delay::TimedOut,
        measured(status, max_wait, score_base, Some(delay)).delay == Delay::Known(delay),
{
}

/// Servers are the same ones exactly where address, protocol and tag are; what
/// is set for them and what is known of them does not matter.
pub proof fn lemma_what_tells_servers_apart(a: ServerModel, b: ServerModel)
    ensures
        a.identity() == b.identity() <==> a.addr == b.addr && a.proto == b.proto && a.tag == b.tag,
{
}

/// The first score of a server that did not fail yet is its delay in
/// milliseconds and what is added for it.
pub proof fn lemma_first_score(
    status: ProxyServerStatus,
    max_wait: Duration,
    score_base: i32,
    delay: Duration,
)
    requires
        status.score is None,
        status.delay == Delay::Unknown,
        status.close_history == 0,
        delay.secs <= 100_000,
        delay.nanos < 1_000_000_000,
        -100_000_000 <= score_base <= 50_000_000,
    ensures
        next_score(status, max_wait, score_base, delay) == Some(
            (delay.secs * 1000 + delay.nanos / 1_000_000 + score_base) as i32,
        ),
{
    score::lemma_error_rate_is_lower(status.close_history);
    let n = (delay.secs * 1000 + delay.nanos / 1_000_000 + score_base) as i32;
    score::lemma_steady_score(n);
}

/// A server that answers again counts as if it had had the longest delay that is
/// waited for, and one that has no score as if it had the one of its last delay.
pub proof fn lemma_score_before(
    status: ProxyServerStatus,
    max_wait: Duration,
    score_base: i32,
    delay: Duration,
    old_delay: Duration,
)
    requires
        delay.millis() <= i32::MAX,
        old_delay.millis() <= i32::MAX,
        max_wait.millis() <= i32::MAX,
    ensures
        status.score matches Some(score) ==> last_score(status, max_wait, score_base, delay)
            == score,
        status.score is None && status.delay == Delay::TimedOut ==> last_score(
            status,
            max_wait,
            score_base,
            delay,
        ) == max_wait.millis() + score_base,
        status.score is None && status.delay == Delay::Known(old_delay) ==> last_score(
            status,
            max_wait,
            score_base,
            delay,
        ) == old_delay.millis() + score_base,
        status.score is None && status.delay == Delay::Unknown ==> last_score(
            status,
            max_wait,
            score_base,
            delay,
        ) == delay.millis() + score_base,
{
}

/// A measurement changes no count of connections. An answer counts as a success
/// among the last connections, and a missing one does not count there.
pub proof fn lemma_measuring_counts_no_connection(
    status: ProxyServerStatus,
    max_wait: Duration,
    score_base: i32,
    delay: Option<Duration>,
    k: nat,
)
    requires
        k < 64,
    ensures
        ({
            let after = measured(status, max_wait, score_base, delay);
            &&& after.conn_alive == status.conn_alive
            &&& after.conn_total == status.conn_total
            &&& after.conn_error == status.conn_error
            &&& delay is None ==> after.close_history == status.close_history
            &&& delay is Some ==> score::ones(after.close_history as nat, k + 1) == score::ones(
                status.close_history as nat,
                k,
            )
        }),
{
    score::lemma_shift_counts(status.close_history, false, k);
}

/// Opening a connection only counts it.
pub proof fn lemma_opening_counts(status: ProxyServerStatus)
    requires
        status.conn_alive < u32::MAX,
        status.conn_total < u32::MAX,
    ensures
        ({
            let after = opened(status);
            &&& after.conn_alive == status.conn_alive + 1
            &&& after.conn_total == status.conn_total + 1
            &&& after.conn_error == status.conn_error
            &&& after.close_history == status.close_history
            &&& after.score == status.score
            &&& after.delay == status.delay
        }),
{
}

/// A host is written as it is, and only an IPv6 address gets brackets.
pub proof fn lemma_host_spelling(
    name: Seq<char>,
    v4: Ipv4Addr,
    v6: crate::net::Ipv6Addr,
    port: u16,
)
    ensures
        bracketed_host_text(AddressModel::Domain(name)) == name,
        bracketed_host_text(AddressModel::Ip(IpAddr::V4(v4))) == crate::net::ipv4_spelled(v4),
        bracketed_host_text(AddressModel::Ip(IpAddr::V6(v6))) == seq!['[']
            + crate::net::ipv6_spelled(v6) + seq![']'],
        host_text(AddressModel::Ip(IpAddr::V6(v6))) == crate::net::ipv6_spelled(v6),
        destination_text(DestinationModel { host: AddressModel::Domain(name), port }) == name
            + seq![':'] + crate::text::dec(port as nat),
{
    assert(name.push(':') + crate::text::dec(port as nat) =~= name + seq![':'] + crate::text::dec(
        port as nat,
    ));
}

/// A sum that is too large starts again at zero.
pub proof fn lemma_sum_starts_again(a: usize, b: usize)
    ensures
        a + b <= usize::MAX ==> wrapped_sum(a, b) == a + b,
        a + b > usize::MAX ==> wrapped_sum(a, b) == a + b - usize::MAX - 1,
{
}

/// Only the names of the protocols name one.
pub proof fn lemma_names_of_protocols(word: Seq<char>)
    ensures
        (proto_named(word) matches Some(ProtoModel::Socks5 { .. })) <==> word == "socks5"@ || word
            == "socksv5"@,
        (proto_named(word) matches Some(ProtoModel::Http { .. })) <==> word == "http"@,
        proto_named(word) is None <==> word != "socks5"@ && word != "socksv5"@ && word != "http"@,
        proto_named(word) matches Some(ProtoModel::Socks5 { fake_handshaking, user_pass_auth })
            ==> !fake_handshaking && user_pass_auth is None,
        proto_named(word) matches Some(ProtoModel::Http { connect_with_payload, user_pass_auth })
            ==> !connect_with_payload && user_pass_auth is None,
{
    reveal_strlit("socks5");
    reveal_strlit("socksv5");
    reveal_strlit("http");
    assert("socks5"@[0] == 's' && "socksv5"@[0] == 's' && "http"@[0] == 'h');
}

/// A server that is new has what was set for it, and nothing is known of it.
pub proof fn lemma_new_server(
    addr: SocketAddr,
    proto: ProtoModel,
    config: ConfigModel,
    tag: Seq<char>,
)
    ensures
        ({
            let s = new_server(addr, proto, config, tag);
            &&& s.addr == addr && s.proto == proto && s.tag == tag && s.config == config
            &&& s.status.delay == Delay::Unknown && s.status.score is None
            &&& s.status.conn_alive == 0 && s.status.conn_total == 0 && s.status.conn_error == 0
            &&& s.status.close_history == 0
            &&& s.traffic.tx_bytes == 0 && s.traffic.rx_bytes == 0
        }),
{
}

} // verus!
