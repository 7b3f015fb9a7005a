//! Clients and where they want to go.

pub mod accept;
pub mod connect;
pub mod read;

use self::connect::clamp;
use crate::net::{IpAddr, SocketAddr, SocketAddrV6};
use crate::policy::RequestFeatures;
use crate::proxy::{Address, Destination};
use crate::text::push_bytes;
use crate::tls::parse_client_hello;
use vstd::prelude::*;

verus! {

/// An address in the form in which addresses can be compared: as one of IPv6.
pub open spec fn normalized(addr: SocketAddr) -> SocketAddr {
    match addr {
        SocketAddr::V4(s) => SocketAddr::V6(
            SocketAddrV6 {
                ip: crate::net::Ipv6Addr { bits: (0xffff_0000_0000 + s.ip.bits) as u128 },
                port: s.port,
                flowinfo: 0,
                scope_id: 0,
            },
        ),
        SocketAddr::V6(_) => addr,
    }
}

/// Brings an address into the form in which addresses can be compared.
pub fn normalize(addr: SocketAddr) -> (r: SocketAddr)
    ensures
        r == normalized(addr),
{
    match addr {
        SocketAddr::V4(s) => SocketAddr::V6(
            SocketAddrV6 {
                ip: s.ip.to_ipv6_mapped(),
                port: s.port,
                flowinfo: 0,
                scope_id: 0,
            },
        ),
        SocketAddr::V6(_) => addr,
    }
}

/// The destination of a redirected connection. One that was redirected to where
/// it came in was not redirected.
pub open spec fn redirected_to(
    original: Option<SocketAddr>,
    local: SocketAddr,
) -> Option<SocketAddr> {
    match original {
        Some(dest) if normalized(dest) != normalized(local) => Some(dest),
        _ => None,
    }
}

/// The destination of a redirected connection.
pub fn nat_destination(original: Option<SocketAddr>, local: SocketAddr) -> (r: Option<SocketAddr>)
    ensures
        r == redirected_to(original, local),
{
    match original {
        Some(dest) => if normalize(dest) != normalize(local) {
            Some(dest)
        } else {
            None
        },
        None => None,
    }
}

/// What was found in the first bytes of a client.
#[derive(Debug)]
pub struct TlsData {
    pub pending_data: Option<Vec<u8>>,
    pub has_full_tls_hello: bool,
    pub sni: Option<String>,
}

/// The model of what was found in the first bytes of a client.
pub struct TlsModel {
    pub pending_data: Option<Seq<u8>>,
    pub has_full_tls_hello: bool,
    pub sni: Option<Seq<char>>,
}

impl View for TlsData {
    type V = TlsModel;

    open spec fn view(&self) -> TlsModel {
        TlsModel {
            pending_data: match self.pending_data {
                Some(data) => Some(data@),
                None => None,
            },
            has_full_tls_hello: self.has_full_tls_hello,
            sni: match self.sni {
                Some(name) => Some(name@),
                None => None,
            },
        }
    }
}

/// What is found in the first bytes of a client; nothing where none came in time.
pub open spec fn tls_found(data: Option<Seq<u8>>) -> TlsModel {
    match data {
        None => TlsModel { pending_data: None, has_full_tls_hello: false, sni: None },
        Some(bytes) => match crate::tls::client_hello_result(bytes) {
            Some(Ok(name)) => TlsModel {
                pending_data: data,
                has_full_tls_hello: true,
                sni: name,
            },
            _ => TlsModel { pending_data: data, has_full_tls_hello: false, sni: None },
        },
    }
}

/// Whether the first bytes of a client can be looked at: no length in them
/// points outside.
pub open spec fn can_be_read(data: Option<Seq<u8>>) -> bool {
    data matches Some(bytes) ==> crate::tls::client_hello_result(bytes) is Some
}

/// Looks for the name of a host in the first bytes of a client.
pub fn find_tls(data: Option<&[u8]>) -> (r: TlsData)
    requires
        can_be_read(crate::proxy::http::data_view(data)),
    ensures
        r@ == tls_found(crate::proxy::http::data_view(data)),
{
    match data {
        None => TlsData { pending_data: None, has_full_tls_hello: false, sni: None },
        Some(bytes) => {
            let (has_full_tls_hello, sni) = match parse_client_hello(bytes) {
                Err(_) => (false, None),
                Ok(hello) => match hello.server_name {
                    Some(name) => (true, Some(name.to_owned())),
                    None => (true, None),
                },
            };
            let mut copy: Vec<u8> = Vec::new();
            push_bytes(&mut copy, bytes);
            assert(copy@ =~= bytes@);
            TlsData { pending_data: Some(copy), has_full_tls_hello, sni }
        },
    }
}

/// A client that is not connected yet.
#[derive(Debug)]
pub struct NewClient {
    /// The destination as the firewall or the client itself gave it, or as its
    /// first bytes name it.
    pub dest: Destination,
    /// The address of the destination as it was given at first.
    pub dest_ip_addr: Option<IpAddr>,
    /// The port that the client came in at.
    pub from_port: u16,
    pub tls: Option<TlsData>,
}

/// The address of a host, where it is given by one.
pub open spec fn host_ip(host: crate::proxy::AddressModel) -> Option<IpAddr> {
    match host {
        crate::proxy::AddressModel::Ip(ip) => Some(ip),
        crate::proxy::AddressModel::Domain(_) => None,
    }
}

/// The name of a host, where it is given by one.
pub open spec fn host_name(host: crate::proxy::AddressModel) -> Option<Seq<char>> {
    match host {
        crate::proxy::AddressModel::Ip(_) => None,
        crate::proxy::AddressModel::Domain(name) => Some(name),
    }
}

/// The model of what was found in the first bytes of a client, if they were
/// looked at.
pub open spec fn tls_view(tls: Option<TlsData>) -> Option<TlsModel> {
    match tls {
        Some(tls) => Some(tls@),
        None => None,
    }
}

/// The name that the first bytes of a client give, if they were looked at.
pub open spec fn sni_of(tls: Option<TlsModel>) -> Option<Seq<char>> {
    match tls {
        Some(tls) => tls.sni,
        None => None,
    }
}

/// The host that a client goes to once its first bytes were looked at.
pub open spec fn named_host(
    host: crate::proxy::AddressModel,
    sni: Option<Seq<char>>,
) -> crate::proxy::AddressModel {
    match (host, sni) {
        (crate::proxy::AddressModel::Ip(_), Some(name)) => crate::proxy::AddressModel::Domain(name),
        _ => host,
    }
}

/// How many servers are tried at the same time, and whether their answers are
/// waited for. None where there is no server.
pub open spec fn plan(
    tls: Option<TlsModel>,
    n_servers: nat,
    n_parallel: nat,
) -> Option<(nat, bool)> {
    if n_servers == 0 {
        None
    } else {
        match tls {
            Some(tls) if tls.has_full_tls_hello => Some(
                (connect::clamped(n_parallel, 1, n_servers), true),
            ),
            _ => Some((1, false)),
        }
    }
}

impl NewClient {
    /// A client that wants to go to a destination.
    pub fn new(dest: Destination, from_port: u16) -> (r: NewClient)
        ensures
            r.dest == dest,
            r.dest_ip_addr == host_ip(dest@.host),
            r.from_port == from_port,
            r.tls is None,
    {
        let dest_ip_addr = match &dest.host {
            Address::Ip(ip) => Some(*ip),
            Address::Domain(_) => None,
        };
        NewClient { dest, dest_ip_addr, from_port, tls: None }
    }

    /// The first bytes of the client, which are to be sent to the server.
    pub fn pending_data(&self) -> (r: Option<&Vec<u8>>)
        ensures
            match tls_view(self.tls) {
                Some(tls) => match tls.pending_data {
                    Some(data) => r matches Some(found) && found@ == data,
                    None => r is None,
                },
                None => r is None,
            },
    {
        match &self.tls {
            Some(tls) => match &tls.pending_data {
                Some(data) => Some(data),
                None => None,
            },
            None => None,
        }
    }

    /// What is known of the connection.
    pub fn features(&self) -> (r: RequestFeatures<'_>)
        ensures
            r.listen_port == Some(self.from_port),
            r.dst_ip == self.dest_ip_addr,
            crate::policy::name_view(r.dst_domain) == host_name(self.dest@.host),
    {
        RequestFeatures {
            listen_port: Some(self.from_port),
            dst_ip: self.dest_ip_addr,
            dst_domain: match &self.dest.host {
                Address::Ip(_) => None,
                Address::Domain(name) => Some(name.as_str()),
            },
        }
    }

    /// Takes the name from the client's first bytes for the destination, where
    /// it was given by an address. Says whether it did.
    pub fn override_dest_with_sni(&mut self) -> (r: bool)
        ensures
            r == (host_ip(old(self).dest@.host) is Some && sni_of(tls_view(old(self).tls)) is Some),
            final(self).dest@ == (crate::proxy::DestinationModel {
                host: if r {
                    crate::proxy::AddressModel::Domain(sni_of(tls_view(old(self).tls)).unwrap())
                } else {
                    old(self).dest@.host
                },
                port: old(self).dest@.port,
            }),
            final(self).dest@.host == named_host(
                old(self).dest@.host,
                sni_of(tls_view(old(self).tls)),
            ),
            final(self).dest_ip_addr == old(self).dest_ip_addr,
            final(self).from_port == old(self).from_port,
            final(self).tls == old(self).tls,
    {
        match &self.dest.host {
            Address::Domain(_) => false,
            Address::Ip(_) => match &self.tls {
                Some(tls) => match &tls.sni {
                    Some(name) => {
                        let host = Address::Domain(name.clone());
                        self.dest.host = host;
                        true
                    },
                    None => false,
                },
                None => false,
            },
        }
    }

    /// Looks at the client's first bytes, unless it was done before.
    pub fn retrieve_dest_from_sni(&mut self, data: Option<&[u8]>)
        requires
            old(self).tls is None ==> can_be_read(crate::proxy::http::data_view(data)),
        ensures
            final(self).dest == old(self).dest,
            final(self).dest_ip_addr == old(self).dest_ip_addr,
            final(self).from_port == old(self).from_port,
            old(self).tls is Some ==> final(self).tls == old(self).tls,
            old(self).tls is None ==> tls_view(final(self).tls) == Some(
                tls_found(crate::proxy::http::data_view(data)),
            ),
    {
        if self.tls.is_some() {
            return;
        }
        self.tls = Some(find_tls(data));
    }

    /// How many servers to try at the same time, and whether to wait for their
    /// answers. Only a client whose first bytes are known can be sent to several
    /// of them.
    pub fn connect_plan(&self, n_servers: usize, n_parallel: usize) -> (r: Option<(usize, bool)>)
        ensures
            match plan(tls_view(self.tls), n_servers as nat, n_parallel as nat) {
                Some((n, wait)) => r matches Some((m, w)) && m == n && w == wait && 1 <= m
                    <= n_servers,
                None => r is None,
            },
    {
        if n_servers == 0 {
            return None;
        }
        match &self.tls {
            Some(tls) => if tls.has_full_tls_hello {
                Some((clamp(n_parallel, 1, n_servers), true))
            } else {
                Some((1, false))
            },
            None => Some((1, false)),
        }
    }
}

/// A client that could not be connected.
#[derive(Debug)]
pub enum FailedClient<E> {
    /// It can still be connected in another way.
    Recoverable(NewClient),
    /// It cannot.
    Unrecoverable(E),
}

impl<E> FailedClient<E> {
    /// The client, where it can still be connected.
    pub fn recovery(self) -> (r: Result<NewClient, E>)
        ensures
            r == match self {
                FailedClient::Recoverable(client) => Ok::<NewClient, E>(client),
                FailedClient::Unrecoverable(e) => Err::<NewClient, E>(e),
            },
    {
        match self {
            FailedClient::Recoverable(client) => Ok(client),
            FailedClient::Unrecoverable(e) => Err(e),
        }
    }
}

// ---- clients whose destination is taken from their first bytes at once ----

/// A client with its first bytes, which name its destination where they can.
#[derive(Debug)]
pub struct NewClientWithData {
    pub dest: Destination,
    pub pending_data: Option<Vec<u8>>,
    pub allow_parallel: bool,
}

/// How a client is to be connected.
#[derive(Debug, Clone, Copy, PartialEq, Eq, Structural)]
pub struct ConnectPlan {
    pub n_parallel: usize,
    pub wait_response: bool,
    pub with_data: bool,
}

/// What can be connected through proxy servers.
pub trait Connectable {
    /// How it is connected where there are so many servers and so many may be
    /// tried at the same time.
    spec fn plan_spec(&self, n_servers: usize, n_parallel: usize) -> ConnectPlan;

    /// How it is connected where there are so many servers and so many may be
    /// tried at the same time.
    fn connect_server(&self, n_servers: usize, n_parallel: usize) -> (r: ConnectPlan)
        ensures
            r == self.plan_spec(n_servers, n_parallel),
    ;
}

impl Connectable for NewClient {
    open spec fn plan_spec(&self, n_servers: usize, n_parallel: usize) -> ConnectPlan {
        ConnectPlan { n_parallel: 1, wait_response: false, with_data: false }
    }

    fn connect_server(&self, n_servers: usize, n_parallel: usize) -> (r: ConnectPlan) {
        ConnectPlan { n_parallel: 1, wait_response: false, with_data: false }
    }
}

impl Connectable for NewClientWithData {
    open spec fn plan_spec(&self, n_servers: usize, n_parallel: usize) -> ConnectPlan {
        ConnectPlan {
            n_parallel: if !self.allow_parallel {
                1
            } else if n_servers < n_parallel {
                n_servers
            } else {
                n_parallel
            },
            wait_response: true,
            with_data: self.pending_data is Some,
        }
    }

    fn connect_server(&self, n_servers: usize, n_parallel: usize) -> (r: ConnectPlan) {
        ConnectPlan {
            n_parallel: if !self.allow_parallel {
                1
            } else if n_servers < n_parallel {
                n_servers
            } else {
                n_parallel
            },
            wait_response: true,
            with_data: self.pending_data.is_some(),
        }
    }
}

impl NewClientWithData {
    /// Looks at the first bytes of a client: the name in them takes the place of
    /// the host of the destination.
    pub fn retrive_dest(dest: Destination, data: Option<&[u8]>) -> (r: NewClientWithData)
        requires
            can_be_read(crate::proxy::http::data_view(data)),
        ensures
            ({
                let found = tls_found(crate::proxy::http::data_view(data));
                &&& r.dest@ == (crate::proxy::DestinationModel {
                    host: match found.sni {
                        Some(name) => crate::proxy::AddressModel::Domain(name),
                        None => dest@.host,
                    },
                    port: dest@.port,
                })
                &&& r.allow_parallel == found.has_full_tls_hello
                &&& crate::proxy::socks5::data_view(r.pending_data) == found.pending_data
            }),
    {
        let tls = find_tls(data);
        let port = dest.port;
        let host = match tls.sni {
            Some(name) => Address::Domain(name),
            None => dest.host,
        };
        NewClientWithData {
            dest: Destination { host, port },
            pending_data: tls.pending_data,
            allow_parallel: tls.has_full_tls_hello,
        }
    }
}

// ---- laws ----

/// Whether a connection was redirected does not depend on whether the addresses
/// are written as those of IPv4 or as mapped ones.
pub proof fn lemma_normalized(addr: SocketAddr)
    ensures
        normalized(normalized(addr)) == normalized(addr),
        normalized(addr).port_spec() == addr.port_spec(),
        crate::net::canonical_spec(normalized(addr).ip_spec()) == crate::net::canonical_spec(
            addr.ip_spec(),
        ),
        redirected_to(Some(addr), normalized(addr)) is None,
{
    if let SocketAddr::V4(s) = addr {
        crate::net::lemma_mapped_is_canonical(
            s.ip,
            crate::net::Ipv6Addr { bits: (0xffff_0000_0000 + s.ip.bits) as u128 },
        );
    }
}

/// No more servers are tried at the same time than there are, and several only
/// for a client whose first bytes are a whole greeting.
pub proof fn lemma_plan_bounds(tls: Option<TlsModel>, n_servers: nat, n_parallel: nat)
    ensures
        plan(tls, n_servers, n_parallel) matches Some((n, wait)) ==> {
            &&& 1 <= n <= n_servers
            &&& n > 1 ==> (tls matches Some(found) && found.has_full_tls_hello)
            &&& wait ==> (tls matches Some(found) && found.has_full_tls_hello)
        },
        plan(tls, n_servers, n_parallel) is None <==> n_servers == 0,
{
}

/// No more servers are tried at the same time than the user allows, one at
/// least. For a client whose first bytes are a whole greeting it is as many as
/// are allowed and there, and only then are their answers waited for.
pub proof fn lemma_no_more_than_allowed(tls: Option<TlsModel>, n_servers: nat, n_parallel: nat)
    ensures
        ({
            let allowed = if n_parallel < 1 {
                1
            } else {
                n_parallel
            };
            let is_tls = tls matches Some(found) && found.has_full_tls_hello;
            &&& n_servers == 0 ==> plan(tls, n_servers, n_parallel) is None
            &&& n_servers > 0 ==> (plan(tls, n_servers, n_parallel) matches Some((n, wait)) && {
                &&& n <= allowed
                &&& n <= n_servers
                &&& is_tls && allowed <= n_servers ==> n == allowed
                &&& is_tls && n_servers <= allowed ==> n == n_servers
                &&& !is_tls ==> n == 1
                &&& wait == is_tls
            })
        }),
{
}

/// Where a redirected connection goes is what the firewall says, unless that is
/// where the connection came in. An IPv4 address and the mapped one that stands
/// for it are the same.
pub proof fn lemma_redirected(
    dest: SocketAddr,
    local: SocketAddr,
    a: crate::net::SocketAddrV4,
    b: crate::net::SocketAddrV4,
)
    ensures
        redirected_to(None, local) is None,
        redirected_to(Some(dest), local) is None || redirected_to(Some(dest), local) == Some(dest),
        redirected_to(Some(dest), dest) is None,
        redirected_to(Some(SocketAddr::V4(a)), SocketAddr::V4(b)) is None <==> a == b,
        dest.port_spec() != local.port_spec() ==> redirected_to(Some(dest), local) == Some(dest),
        ({
            let mapped = SocketAddr::V6(
                SocketAddrV6 {
                    ip: crate::net::Ipv6Addr { bits: (0xffff_0000_0000 + b.ip.bits) as u128 },
                    port: b.port,
                    flowinfo: 0,
                    scope_id: 0,
                },
            );
            redirected_to(Some(SocketAddr::V4(a)), mapped) is None <==> a == b
        }),
{
    let x = 0xffff_0000_0000 + a.ip.bits;
    let y = 0xffff_0000_0000 + b.ip.bits;
    assert((x as u128) as int == x && (y as u128) as int == y);
}

/// What a client sent first is kept, whether or not it is a greeting of TLS, and
/// only a whole greeting can name a host.
pub proof fn lemma_first_bytes_are_kept(data: Seq<u8>)
    ensures
        tls_found(Some(data)).pending_data == Some(data),
        tls_found(None).pending_data is None,
        tls_found(None).sni is None,
        tls_found(Some(data)).sni is Some ==> tls_found(Some(data)).has_full_tls_hello,
        tls_found(Some(data)).has_full_tls_hello <==> (crate::tls::client_hello_result(
            data,
        ) matches Some(Ok(_))),
        crate::tls::client_hello_result(data) matches Some(Ok(name)) ==> tls_found(Some(data)).sni
            == name,
{
}

/// A client whose data is known tries no more servers at the same time than there
/// are and than the user allows, and one server only where its data is no whole
/// greeting.
pub proof fn lemma_plan_with_data(c: NewClientWithData, n_servers: usize, n_parallel: usize)
    ensures
        ({
            let p = c.plan_spec(n_servers, n_parallel);
            &&& !c.allow_parallel ==> p.n_parallel == 1
            &&& c.allow_parallel ==> p.n_parallel <= n_servers && p.n_parallel <= n_parallel
            &&& c.allow_parallel ==> p.n_parallel == n_servers || p.n_parallel == n_parallel
            &&& p.wait_response
            &&& p.with_data <==> c.pending_data is Some
        }),
{
}

/// A client whose data is not known is connected through one server, without
/// data and without waiting.
pub proof fn lemma_plan_without_data(c: NewClient, n_servers: usize, n_parallel: usize)
    ensures
        c.plan_spec(n_servers, n_parallel).n_parallel == 1,
        !c.plan_spec(n_servers, n_parallel).wait_response,
        !c.plan_spec(n_servers, n_parallel).with_data,
{
}

/// An IPv4 address is compared as the IPv6 address that stands for it, and every
/// other address as itself; nothing else becomes the same by that.
pub proof fn lemma_how_addresses_compare(a: SocketAddr, b: SocketAddr)
    ensures
        a is V6 ==> normalized(a) == a,
        normalized(normalized(a)) == normalized(a),
        normalized(a) is V6,
        normalized(a).port_spec() == a.port_spec(),
        a is V4 && b is V4 ==> (normalized(a) == normalized(b) <==> a == b),
        crate::net::canonical_spec(normalized(a).ip_spec()) == crate::net::canonical_spec(
            a.ip_spec(),
        ),
{
    match a {
        SocketAddr::V4(s) => {
            let bits = (0xffff_0000_0000 + s.ip.bits) as u128;
            assert(bits == 0xffff_0000_0000 + s.ip.bits);
            crate::net::lemma_mapped_is_canonical(s.ip, crate::net::Ipv6Addr { bits });
        },
        SocketAddr::V6(_) => {},
    }
    if let SocketAddr::V4(s) = b {
        assert((0xffff_0000_0000 + s.ip.bits) as u128 == 0xffff_0000_0000 + s.ip.bits);
    }
}

/// The name that a client gives takes the place of an address, and never that of
/// another name.
pub proof fn lemma_name_for_address(
    ip: IpAddr,
    host: Seq<char>,
    name: Seq<char>,
    sni: Option<Seq<char>>,
)
    ensures
        named_host(crate::proxy::AddressModel::Ip(ip), Some(name))
            == crate::proxy::AddressModel::Domain(name),
        named_host(crate::proxy::AddressModel::Ip(ip), None) == crate::proxy::AddressModel::Ip(ip),
        named_host(crate::proxy::AddressModel::Domain(host), sni)
            == crate::proxy::AddressModel::Domain(host),
        host_ip(crate::proxy::AddressModel::Ip(ip)) == Some(ip),
        host_ip(crate::proxy::AddressModel::Domain(host)) is None,
        host_name(crate::proxy::AddressModel::Domain(host)) == Some(host),
        host_name(crate::proxy::AddressModel::Ip(ip)) is None,
        sni_of(None) is None,
{
}

} // verus!
