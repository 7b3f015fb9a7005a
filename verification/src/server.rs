//! The list of proxy servers, and what is done for a client.

use crate::net::{parse_socket_addr, SocketAddr};
use crate::number::{parse_bool, parse_i32, parse_unsigned};
use crate::policy::capabilities::CapSet;
use crate::policy::parser::capabilities;
use crate::proxy::{PortSet, ProxyProto, ProxyServer, UserPassAuthCredential};
use crate::text::{has_char, same_str, str_to_lowercase};
use crate::time::Duration;
use ini::Ini;
use vstd::prelude::*;

verus! {

/// A section of a configuration file.
#[derive(Debug)]
pub struct Section {
    pub name: Option<String>,
    pub props: Vec<(String, String)>,
}

/// The model of a section.
pub struct SectionModel {
    pub name: Option<Seq<char>>,
    pub props: Seq<(Seq<char>, Seq<char>)>,
}

/// The models of some properties.
pub open spec fn prop_views(props: Seq<(String, String)>) -> Seq<(Seq<char>, Seq<char>)> {
    props.map_values(|p: (String, String)| (p.0@, p.1@))
}

impl View for Section {
    type V = SectionModel;

    open spec fn view(&self) -> SectionModel {
        SectionModel {
            name: match self.name {
                Some(name) => Some(name@),
                None => None,
            },
            props: prop_views(self.props@),
        }
    }
}

/// The models of some sections.
pub open spec fn section_models(sections: Seq<Section>) -> Seq<SectionModel> {
    sections.map_values(|s: Section| s@)
}

/// The sections of a configuration file, where it is well formed.
pub uninterp spec fn ini_sections(text: Seq<char>) -> Option<Seq<SectionModel>>;

/// `Ini::load_from_str` of the crate `rust-ini` reads a configuration file:
/// its sections in order, each with its properties in order.
#[verifier::external_body]
fn read_ini(text: &str) -> (r: Option<Vec<Section>>)
    ensures
        match r {
            Some(sections) => ini_sections(text@) == Some(section_models(sections@)),
            None => ini_sections(text@) is None,
        },
{
    let ini = Ini::load_from_str(text).ok()?;
    let section = |(name, props): (Option<&str>, &ini::Properties)| Section {
        name: name.map(String::from),
        props: props.iter().map(|(k, v)| (String::from(k), String::from(v))).collect(),
    };
    Some(ini.iter().map(section).collect())
}

/// The first value of a property.
pub open spec fn property(
    props: Seq<(Seq<char>, Seq<char>)>,
    key: Seq<char>,
) -> Option<Seq<char>>
    decreases props.len(),
{
    if props.len() == 0 {
        None
    } else if props[0].0 == key {
        Some(props[0].1)
    } else {
        property(props.skip(1), key)
    }
}

/// Why a list of servers cannot be used.
#[derive(Debug, Clone, Copy, PartialEq, Eq, Structural)]
pub enum ServerListError {
    /// The file is not well formed.
    File,
    AddressMissing,
    AddressInvalid,
    ScoreBaseInvalid,
    TestDnsInvalid,
    MaxWaitInvalid,
    PortInvalid,
    ProtocolMissing,
    ProtocolUnknown,
    BooleanInvalid,
    CredentialEmpty,
    CredentialTooLong,
    ColonInUsername,
    /// There is no server, and clients may not be connected without one.
    Empty,
}

impl ServerListError {
    /// The error in words.
    pub fn message(&self) -> (s: &'static str)
        ensures
            s@ == error_text(*self),
    {
        match self {
            ServerListError::File => "cannot read server list file",
            ServerListError::AddressMissing => "address not specified",
            ServerListError::AddressInvalid => "not a valid socket address",
            ServerListError::ScoreBaseInvalid => "score base not a integer",
            ServerListError::TestDnsInvalid => "not a valid socket address",
            ServerListError::MaxWaitInvalid => "not a valid number",
            ServerListError::PortInvalid => "not a valid port number",
            ServerListError::ProtocolMissing => "protocol not specified",
            ServerListError::ProtocolUnknown => "unknown proxy protocol",
            ServerListError::BooleanInvalid => "not a boolean value",
            ServerListError::CredentialEmpty => "socks username/password is empty",
            ServerListError::CredentialTooLong => "socks username/password too long",
            ServerListError::ColonInUsername => "semicolon (:) in http username",
            ServerListError::Empty => "missing server list",
        }
    }
}

/// An error in words.
pub open spec fn error_text(e: ServerListError) -> Seq<char> {
    match e {
        ServerListError::File => "cannot read server list file"@,
        ServerListError::AddressMissing => "address not specified"@,
        ServerListError::AddressInvalid => "not a valid socket address"@,
        ServerListError::ScoreBaseInvalid => "score base not a integer"@,
        ServerListError::TestDnsInvalid => "not a valid socket address"@,
        ServerListError::MaxWaitInvalid => "not a valid number"@,
        ServerListError::PortInvalid => "not a valid port number"@,
        ServerListError::ProtocolMissing => "protocol not specified"@,
        ServerListError::ProtocolUnknown => "unknown proxy protocol"@,
        ServerListError::BooleanInvalid => "not a boolean value"@,
        ServerListError::CredentialEmpty => "socks username/password is empty"@,
        ServerListError::CredentialTooLong => "socks username/password too long"@,
        ServerListError::ColonInUsername => "semicolon (:) in http username"@,
        ServerListError::Empty => "missing server list"@,
    }
}

// ---- properties ----

/// The parts of a text between blanks and commas, of the text from character
/// `i` on, where `word` was read before it.
pub open spec fn split_ports(s: Seq<char>, i: int, word: Seq<char>) -> Seq<Seq<char>>
    decreases s.len() - i,
{
    if i >= s.len() || i < 0 {
        if word.len() == 0 {
            Seq::empty()
        } else {
            seq![word]
        }
    } else if s[i] == ' ' || s[i] == ',' {
        if word.len() == 0 {
            split_ports(s, i + 1, Seq::empty())
        } else {
            seq![word] + split_ports(s, i + 1, Seq::empty())
        }
    } else {
        split_ports(s, i + 1, word.push(s[i]))
    }
}

/// The ports that some words are; none where one of them is no port.
pub open spec fn ports_of(words: Seq<Seq<char>>) -> Option<Set<u16>>
    decreases words.len(),
{
    if words.len() == 0 {
        Some(Set::empty())
    } else {
        match ports_of(words.drop_last()) {
            None => None,
            Some(ports) => match crate::number::unsigned_text(words.last(), 0xffff) {
                None => None,
                Some(n) => Some(ports.insert(n as u16)),
            },
        }
    }
}

/// A truth value that may be missing; then it is false.
pub open spec fn flag(value: Option<Seq<char>>) -> Result<bool, ServerListError> {
    match value {
        None => Ok(false),
        Some(s) => match crate::number::bool_text(s) {
            Some(b) => Ok(b),
            None => Err(ServerListError::BooleanInvalid),
        },
    }
}

/// How many bytes a text has.
pub open spec fn byte_length(s: Seq<char>) -> nat {
    vstd::utf8::encode_utf8(s).len()
}

/// The SOCKS protocol that some properties ask for.
pub open spec fn socks_proto(
    props: Seq<(Seq<char>, Seq<char>)>,
) -> Result<crate::proxy::ProtoModel, ServerListError> {
    let username = property(props, "socks username"@).unwrap_or(Seq::empty());
    let password = property(props, "socks password"@).unwrap_or(Seq::empty());
    match flag(property(props, "socks fake handshaking"@)) {
        Err(e) => Err(e),
        Ok(fake_handshaking) => if username.len() == 0 && password.len() == 0 {
            Ok(crate::proxy::ProtoModel::Socks5 { fake_handshaking, user_pass_auth: None })
        } else if username.len() == 0 || password.len() == 0 {
            Err(ServerListError::CredentialEmpty)
        } else if byte_length(username) > 255 || byte_length(password) > 255 {
            Err(ServerListError::CredentialTooLong)
        } else {
            Ok(
                crate::proxy::ProtoModel::Socks5 {
                    fake_handshaking: false,
                    user_pass_auth: Some(crate::proxy::CredentialModel { username, password }),
                },
            )
        },
    }
}

/// The HTTP protocol that some properties ask for.
pub open spec fn http_proto(
    props: Seq<(Seq<char>, Seq<char>)>,
) -> Result<crate::proxy::ProtoModel, ServerListError> {
    let user = property(props, "http username"@);
    let pass = property(props, "http password"@);
    match flag(property(props, "http allow connect payload"@)) {
        Err(e) => Err(e),
        Ok(connect_with_payload) => if user is None && pass is None {
            Ok(crate::proxy::ProtoModel::Http { connect_with_payload, user_pass_auth: None })
        } else if user matches Some(name) && name.contains(':') {
            Err(ServerListError::ColonInUsername)
        } else {
            Ok(
                crate::proxy::ProtoModel::Http {
                    connect_with_payload,
                    user_pass_auth: Some(
                        crate::proxy::CredentialModel {
                            username: user.unwrap_or(Seq::empty()),
                            password: pass.unwrap_or(Seq::empty()),
                        },
                    ),
                },
            )
        },
    }
}

/// The protocol that some properties ask for.
pub open spec fn proto_of(
    props: Seq<(Seq<char>, Seq<char>)>,
) -> Result<crate::proxy::ProtoModel, ServerListError> {
    match property(props, "protocol"@) {
        None => Err(ServerListError::ProtocolMissing),
        Some(name) => {
            let word = crate::text::lower_text(name);
            if word == "socks5"@ || word == "socksv5"@ {
                socks_proto(props)
            } else if word == "http"@ {
                http_proto(props)
            } else {
                Err(ServerListError::ProtocolUnknown)
            }
        },
    }
}

/// The address that some properties give.
pub open spec fn address_of(
    props: Seq<(Seq<char>, Seq<char>)>,
) -> Result<SocketAddr, ServerListError> {
    match property(props, "address"@) {
        None => Err(ServerListError::AddressMissing),
        Some(s) => match crate::net::socket_text(s) {
            Some(addr) => Ok(addr),
            None => Err(ServerListError::AddressInvalid),
        },
    }
}

/// The base of the score that some properties give.
pub open spec fn base_of(props: Seq<(Seq<char>, Seq<char>)>) -> Result<i32, ServerListError> {
    match property(props, "score base"@) {
        None => Ok(0),
        Some(s) => match crate::number::signed_text(s) {
            Some(n) => Ok(n as i32),
            None => Err(ServerListError::ScoreBaseInvalid),
        },
    }
}

/// The name server for tests that some properties give.
pub open spec fn test_dns_of(
    props: Seq<(Seq<char>, Seq<char>)>,
    default: SocketAddr,
) -> Result<SocketAddr, ServerListError> {
    match property(props, "test dns"@) {
        None => Ok(default),
        Some(s) => match crate::net::socket_text(s) {
            Some(addr) => Ok(addr),
            None => Err(ServerListError::TestDnsInvalid),
        },
    }
}

/// How long to wait, as some properties say.
pub open spec fn max_wait_of(
    props: Seq<(Seq<char>, Seq<char>)>,
    default: Duration,
) -> Result<Duration, ServerListError> {
    match property(props, "max wait"@) {
        None => Ok(default),
        Some(s) => match crate::number::unsigned_text(s, u64::MAX as nat) {
            Some(n) => Ok(Duration { secs: n as u64, nanos: 0 }),
            None => Err(ServerListError::MaxWaitInvalid),
        },
    }
}

/// The ports that some properties give.
pub open spec fn listen_ports_of(
    props: Seq<(Seq<char>, Seq<char>)>,
) -> Result<Set<u16>, ServerListError> {
    match property(props, "listen ports"@) {
        None => Ok(Set::empty()),
        Some(s) => match ports_of(split_ports(s, 0, Seq::empty())) {
            Some(ports) => Ok(ports),
            None => Err(ServerListError::PortInvalid),
        },
    }
}

/// The tag that a section gives: its own property, its name, or else the port.
pub open spec fn tag_of(section: SectionModel, addr: SocketAddr) -> Seq<char> {
    match property(section.props, "tag"@) {
        Some(tag) => tag,
        None => match section.name {
            Some(name) => name,
            None => crate::text::dec(addr.port_spec() as nat),
        },
    }
}

/// Whether the tag that a section gives can be one.
pub open spec fn has_good_tag(section: SectionModel) -> bool {
    match property(section.props, "tag"@) {
        Some(tag) => crate::proxy::is_tag(tag),
        None => match section.name {
            Some(name) => crate::proxy::is_tag(name),
            None => true,
        },
    }
}

/// The server that a section describes. The first thing that is wrong decides
/// about the error. None where only the tag cannot be one.
#[verifier::opaque]
pub open spec fn section_result(
    section: SectionModel,
    test_dns: SocketAddr,
    max_wait: Duration,
) -> Option<Result<crate::proxy::ServerModel, ServerListError>> {
    let props = section.props;
    match (address_of(props), base_of(props), test_dns_of(props, test_dns)) {
        (Err(e), _, _) => Some(Err(e)),
        (_, Err(e), _) => Some(Err(e)),
        (_, _, Err(e)) => Some(Err(e)),
        (Ok(addr), Ok(score_base), Ok(test_dns)) => match (
            max_wait_of(props, max_wait),
            listen_ports_of(props),
            proto_of(props),
        ) {
            (Err(e), _, _) => Some(Err(e)),
            (_, Err(e), _) => Some(Err(e)),
            (_, _, Err(e)) => Some(Err(e)),
            (Ok(max_wait), Ok(listen_ports), Ok(proto)) => if !has_good_tag(section) {
                None
            } else {
                let config = crate::proxy::ConfigModel {
                    test_dns,
                    max_wait,
                    listen_ports,
                    score_base,
                };
                Some(
                    Ok(
                        crate::proxy::new_server(addr, proto, config, tag_of(section, addr)),
                    ),
                )
            },
        },
    }
}

/// The servers that some sections describe, up to the first one that does not
/// describe one.
pub open spec fn sections_result(
    sections: Seq<SectionModel>,
    test_dns: SocketAddr,
    max_wait: Duration,
) -> Option<Result<Seq<crate::proxy::ServerModel>, ServerListError>>
    decreases sections.len(),
{
    if sections.len() == 0 {
        Some(Ok(Seq::empty()))
    } else {
        match sections_result(sections.drop_last(), test_dns, max_wait) {
            Some(Ok(servers)) => match section_result(sections.last(), test_dns, max_wait) {
                None => None,
                Some(Err(e)) => Some(Err(e)),
                Some(Ok(server)) => Some(Ok(servers.push(server))),
            },
            other => other,
        }
    }
}

/// The whole list: the servers that are known anyway, and those of the sections.
pub open spec fn list_result(
    known: Seq<crate::proxy::ServerModel>,
    sections: Option<Seq<SectionModel>>,
    test_dns: SocketAddr,
    max_wait: Duration,
    allow_direct: bool,
) -> Option<Result<Seq<crate::proxy::ServerModel>, ServerListError>> {
    match sections {
        None => Some(Err(ServerListError::File)),
        Some(sections) => match sections_result(sections, test_dns, max_wait) {
            Some(Ok(servers)) => if known.len() + servers.len() == 0 && !allow_direct {
                Some(Err(ServerListError::Empty))
            } else {
                Some(Ok(known + servers))
            },
            other => other,
        },
    }
}

/// The text of a file without the mark that may stand at its start.
pub open spec fn without_mark(text: Seq<char>) -> Seq<char> {
    if text.len() > 0 && text[0] == '\u{feff}' {
        text.skip(1)
    } else {
        text
    }
}

/// The sections of a text; none where there is no text.
pub open spec fn text_sections(text: Option<&str>) -> Option<Seq<SectionModel>> {
    match text {
        Some(text) => ini_sections(without_mark(text@)),
        None => Some(Seq::empty()),
    }
}

/// The capabilities that a section names.
pub open spec fn capabilities_of(props: Seq<(Seq<char>, Seq<char>)>) -> Seq<Seq<char>> {
    match property(props, "capabilities"@) {
        Some(names) => crate::order::sorted(crate::policy::parser::names_at(names, true).1),
        None => Seq::empty(),
    }
}

// ---- reading ----

/// Reads the sections of a text.
fn sections_of(text: Option<&str>) -> (r: Option<Vec<Section>>)
    ensures
        match r {
            Some(sections) => text_sections(text) == Some(section_models(sections@)),
            None => text_sections(text) is None,
        },
{
    match text {
        Some(text) => {
            if text.unicode_len() > 0 && text.get_char(0) == '\u{feff}' {
                read_ini(crate::text::rest(text, 1))
            } else {
                read_ini(text)
            }
        },
        None => {
            let sections: Vec<Section> = Vec::new();
            assert(section_models(sections@) =~= Seq::<SectionModel>::empty());
            Some(sections)
        },
    }
}

impl Section {
    /// The capabilities that the section names.
    pub fn capabilities(&self) -> (r: CapSet)
        ensures
            r@ == capabilities_of(self@.props),
    {
        match self.get("capabilities") {
            Some(names) => match capabilities(names) {
                Ok((_, caps)) => caps,
                Err(_) => CapSet::default(),
            },
            None => CapSet::default(),
        }
    }

    /// The first value of a property.
    pub fn get<'a>(&'a self, key: &str) -> (r: Option<&'a str>)
        ensures
            match property(self@.props, key@) {
                Some(value) => r matches Some(found) && found@ == value,
                None => r is None,
            },
    {
        let n = self.props.len();
        let mut i: usize = 0;
        let ghost props = self@.props;
        assert(props.skip(0) =~= props);
        while i < n
            invariant
                n == self.props@.len(),
                i <= n,
                props == prop_views(self.props@),
                property(props, key@) == property(props.skip(i as int), key@),
            decreases n - i,
        {
            assert(props.skip(i as int)[0] == props[i as int]);
            if same_str(self.props[i].0.as_str(), key) {
                return Some(self.props[i].1.as_str());
            }
            assert(props.skip(i as int).skip(1) =~= props.skip(i + 1));
            i = i + 1;
        }
        None
    }

    fn flag(&self, key: &str) -> (r: Result<bool, ServerListError>)
        ensures
            r == flag(property(self@.props, key@)),
    {
        match self.get(key) {
            None => Ok(false),
            Some(s) => match parse_bool(s) {
                Some(b) => Ok(b),
                None => Err(ServerListError::BooleanInvalid),
            },
        }
    }

    fn text(&self, key: &str) -> (r: &str)
        ensures
            r@ == property(self@.props, key@).unwrap_or(Seq::empty()),
    {
        match self.get(key) {
            Some(s) => s,
            None => {
                proof {
                    reveal_strlit("");
                    assert(""@ =~= Seq::<char>::empty());
                }
                ""
            },
        }
    }

    fn socks_proto(&self) -> (r: Result<ProxyProto, ServerListError>)
        ensures
            match socks_proto(self@.props) {
                Ok(p) => r matches Ok(proto) && proto@ == p,
                Err(e) => r == Err::<ProxyProto, ServerListError>(e),
            },
    {
        let fake = match self.flag("socks fake handshaking") {
            Ok(b) => b,
            Err(e) => return Err(e),
        };
        let username = self.text("socks username");
        let password = self.text("socks password");
        let u = username.unicode_len();
        let p = password.unicode_len();
        if u == 0 && p == 0 {
            Ok(ProxyProto::socks5(fake))
        } else if u == 0 || p == 0 {
            Err(ServerListError::CredentialEmpty)
        } else if username.as_bytes().len() > 255 || password.as_bytes().len() > 255 {
            Err(ServerListError::CredentialTooLong)
        } else {
            Ok(ProxyProto::socks5_with_auth(UserPassAuthCredential::new(username, password)))
        }
    }

    fn http_proto(&self) -> (r: Result<ProxyProto, ServerListError>)
        ensures
            match http_proto(self@.props) {
                Ok(p) => r matches Ok(proto) && proto@ == p,
                Err(e) => r == Err::<ProxyProto, ServerListError>(e),
            },
    {
        let payload = match self.flag("http allow connect payload") {
            Ok(b) => b,
            Err(e) => return Err(e),
        };
        let user = self.get("http username");
        let pass = self.get("http password");
        if user.is_none() && pass.is_none() {
            return Ok(ProxyProto::http(payload, None));
        }
        if let Some(name) = user {
            if has_char(name, ':') {
                return Err(ServerListError::ColonInUsername);
            }
        }
        let credential = UserPassAuthCredential::new(
            self.text("http username"),
            self.text("http password"),
        );
        Ok(ProxyProto::http(payload, Some(credential)))
    }

    fn proto(&self) -> (r: Result<ProxyProto, ServerListError>)
        ensures
            match proto_of(self@.props) {
                Ok(p) => r matches Ok(proto) && proto@ == p,
                Err(e) => r == Err::<ProxyProto, ServerListError>(e),
            },
    {
        match self.get("protocol") {
            None => Err(ServerListError::ProtocolMissing),
            Some(name) => {
                let word = str_to_lowercase(name);
                if same_str(word.as_str(), "socks5") || same_str(word.as_str(), "socksv5") {
                    self.socks_proto()
                } else if same_str(word.as_str(), "http") {
                    self.http_proto()
                } else {
                    Err(ServerListError::ProtocolUnknown)
                }
            },
        }
    }

    fn address(&self) -> (r: Result<SocketAddr, ServerListError>)
        ensures
            r == address_of(self@.props),
    {
        match self.get("address") {
            None => Err(ServerListError::AddressMissing),
            Some(s) => match parse_socket_addr(s) {
                Some(addr) => Ok(addr),
                None => Err(ServerListError::AddressInvalid),
            },
        }
    }

    fn score_base(&self) -> (r: Result<Option<i32>, ServerListError>)
        ensures
            match base_of(self@.props) {
                Ok(n) => r matches Ok(found) && found.unwrap_or(0) == n,
                Err(e) => r == Err::<Option<i32>, ServerListError>(e),
            },
    {
        match self.get("score base") {
            None => Ok(None),
            Some(s) => match parse_i32(s) {
                Some(n) => Ok(Some(n)),
                None => Err(ServerListError::ScoreBaseInvalid),
            },
        }
    }

    fn test_dns(&self, default: SocketAddr) -> (r: Result<SocketAddr, ServerListError>)
        ensures
            r == test_dns_of(self@.props, default),
    {
        match self.get("test dns") {
            None => Ok(default),
            Some(s) => match parse_socket_addr(s) {
                Some(addr) => Ok(addr),
                None => Err(ServerListError::TestDnsInvalid),
            },
        }
    }

    fn max_wait(&self, default: Duration) -> (r: Result<Duration, ServerListError>)
        ensures
            r == max_wait_of(self@.props, default),
    {
        match self.get("max wait") {
            None => Ok(default),
            Some(s) => match parse_unsigned(s, u64::MAX) {
                Some(n) => Ok(Duration::from_secs(n)),
                None => Err(ServerListError::MaxWaitInvalid),
            },
        }
    }

    fn listen_ports(&self) -> (r: Result<Option<PortSet>, ServerListError>)
        ensures
            match listen_ports_of(self@.props) {
                Ok(ports) => r matches Ok(found) && crate::proxy::ports_view(found) == ports,
                Err(e) => r matches Err(error) && error == e,
            },
    {
        match self.get("listen ports") {
            None => Ok(None),
            Some(s) => match parse_ports(s) {
                Some(ports) => Ok(Some(ports)),
                None => Err(ServerListError::PortInvalid),
            },
        }
    }

    /// The server that the section describes. None where only the tag cannot be
    /// one.
    pub fn server(
        &self,
        test_dns: SocketAddr,
        max_wait: Duration,
    ) -> (r: Option<Result<ProxyServer, ServerListError>>)
        ensures
            match section_result(self@, test_dns, max_wait) {
                None => r is None,
                Some(Ok(server)) => r matches Some(Ok(found)) && found@ == server,
                Some(Err(e)) => r matches Some(Err(error)) && error == e,
            },
    {
        reveal(section_result);
        let addr = match self.address() {
            Ok(addr) => addr,
            Err(e) => return Some(Err(e)),
        };
        let base = match self.score_base() {
            Ok(base) => base,
            Err(e) => return Some(Err(e)),
        };
        let dns = match self.test_dns(test_dns) {
            Ok(dns) => dns,
            Err(e) => return Some(Err(e)),
        };
        let wait = match self.max_wait(max_wait) {
            Ok(wait) => wait,
            Err(e) => return Some(Err(e)),
        };
        let ports = match self.listen_ports() {
            Ok(ports) => ports,
            Err(e) => return Some(Err(e)),
        };
        let proto = match self.proto() {
            Ok(proto) => proto,
            Err(e) => return Some(Err(e)),
        };
        let tag = match self.get("tag") {
            Some(tag) => Some(tag),
            None => match &self.name {
                Some(name) => Some(name.as_str()),
                None => None,
            },
        };
        if let Some(tag) = tag {
            if !tag.is_ascii() || has_char(tag, ' ') || has_char(tag, '\n') {
                return None;
            }
        }
        Some(Ok(ProxyServer::new(addr, proto, dns, wait, ports, tag, base)))
    }
}

/// Reads ports between blanks and commas.
pub fn parse_ports(s: &str) -> (r: Option<PortSet>)
    ensures
        match ports_of(split_ports(s@, 0, Seq::empty())) {
            Some(ports) => r matches Some(found) && found@ == ports,
            None => r is None,
        },
{
    let n = s.unicode_len();
    let mut ports = PortSet::new();
    let mut word = String::new();
    let ghost all = split_ports(s@, 0, Seq::empty());
    let ghost mut done: Seq<Seq<char>> = Seq::empty();
    let mut i: usize = 0;
    proof {
        assert(word@ =~= Seq::<char>::empty());
        assert(done + all =~= all);
    }
    while i < n
        invariant
            n == s@.len(),
            i <= n,
            all == split_ports(s@, 0, Seq::empty()),
            all == done + split_ports(s@, i as int, word@),
            ports_of(done) == Some(ports@),
        decreases n - i,
    {
        let c = s.get_char(i);
        if c == ' ' || c == ',' {
            if word.as_str().unicode_len() > 0 {
                let ghost read = word@;
                let ghost before = done;
                proof {
                    done = done.push(read);
                    assert(done.drop_last() =~= before);
                    assert(done.last() == read);
                    assert(before + (seq![read] + split_ports(s@, i + 1, Seq::empty())) =~= done
                        + split_ports(s@, i + 1, Seq::empty()));
                    assert(all == done + split_ports(s@, i + 1, Seq::empty()));
                }
                match parse_unsigned(word.as_str(), 0xffff) {
                    Some(port) => ports.insert(port as u16),
                    None => {
                        proof {
                            lemma_bad_port(done, split_ports(s@, i + 1, Seq::empty()));
                        }
                        return None;
                    },
                }
                word = String::new();
            }
            assert(word@ =~= Seq::<char>::empty());
        } else {
            word.push(c);
        }
        i = i + 1;
    }
    if word.as_str().unicode_len() > 0 {
        proof {
            assert(all =~= done.push(word@));
            assert(all.drop_last() =~= done);
        }
        match parse_unsigned(word.as_str(), 0xffff) {
            Some(port) => ports.insert(port as u16),
            None => return None,
        }
    } else {
        assert(all =~= done);
    }
    Some(ports)
}

proof fn lemma_bad_port(front: Seq<Seq<char>>, back: Seq<Seq<char>>)
    requires
        ports_of(front) is None,
    ensures
        ports_of(front + back) is None,
    decreases back.len(),
{
    if back.len() == 0 {
        assert(front + back =~= front);
    } else {
        lemma_bad_port(front, back.drop_last());
        assert((front + back).drop_last() =~= front + back.drop_last());
    }
}

proof fn lemma_bad_section(
    sections: Seq<SectionModel>,
    n: int,
    test_dns: SocketAddr,
    max_wait: Duration,
)
    requires
        0 <= n <= sections.len(),
        !(sections_result(sections.take(n), test_dns, max_wait) matches Some(Ok(_))),
    ensures
        sections_result(sections, test_dns, max_wait) == sections_result(
            sections.take(n),
            test_dns,
            max_wait,
        ),
    decreases sections.len() - n,
{
    if n < sections.len() {
        assert(sections.take(n + 1).drop_last() =~= sections.take(n));
        lemma_bad_section(sections, n + 1, test_dns, max_wait);
    } else {
        assert(sections.take(n) =~= sections);
    }
}

/// What is needed to load the list of servers.
#[derive(Debug)]
pub struct ServerListConfig {
    pub default_test_dns: SocketAddr,
    pub default_max_wait: Duration,
    pub cli_servers: Vec<ProxyServer>,
    pub allow_direct: bool,
}

/// The server that is known by its address only.
pub open spec fn plain_server(
    addr: SocketAddr,
    proto: crate::proxy::ProtoModel,
    test_dns: SocketAddr,
    max_wait: Duration,
) -> crate::proxy::ServerModel {
    let config = crate::proxy::ConfigModel {
        test_dns,
        max_wait,
        listen_ports: Set::empty(),
        score_base: 0,
    };
    crate::proxy::new_server(
        addr,
        proto,
        config,
        crate::text::dec(addr.port_spec() as nat),
    )
}

/// The servers that are known by their addresses only.
pub open spec fn plain_servers(
    addrs: Seq<SocketAddr>,
    proto: crate::proxy::ProtoModel,
    test_dns: SocketAddr,
    max_wait: Duration,
) -> Seq<crate::proxy::ServerModel> {
    addrs.map_values(|addr: SocketAddr| plain_server(addr, proto, test_dns, max_wait))
}

fn push_plain_servers(
    servers: &mut Vec<ProxyServer>,
    addrs: &Vec<SocketAddr>,
    proto: &ProxyProto,
    test_dns: SocketAddr,
    max_wait: Duration,
)
    ensures
        crate::proxy::server_models(final(servers)@) == crate::proxy::server_models(old(servers)@)
            + plain_servers(addrs@, proto@, test_dns, max_wait),
{
    let n = addrs.len();
    let mut i: usize = 0;
    let ghost before = crate::proxy::server_models(servers@);
    let ghost new = plain_servers(addrs@, proto@, test_dns, max_wait);
    assert(before + new.take(0) =~= before);
    while i < n
        invariant
            n == addrs@.len(),
            i <= n,
            new == plain_servers(addrs@, proto@, test_dns, max_wait),
            crate::proxy::server_models(servers@) == before + new.take(i as int),
        decreases n - i,
    {
        let server = ProxyServer::new(
            addrs[i],
            proto.clone(),
            test_dns,
            max_wait,
            None,
            None,
            None,
        );
        let ghost prior = servers@;
        assert(server@ == new[i as int]);
        servers.push(server);
        i = i + 1;
        assert(crate::proxy::server_models(servers@) =~= crate::proxy::server_models(prior).push(
            new[i - 1],
        ));
        assert(crate::proxy::server_models(servers@) =~= before + new.take(i as int));
    }
    assert(new.take(n as int) =~= new);
}

fn clone_servers(servers: &Vec<ProxyServer>) -> (r: Vec<ProxyServer>)
    ensures
        crate::proxy::server_models(r@) == crate::proxy::server_models(servers@),
{
    let n = servers.len();
    let mut r: Vec<ProxyServer> = Vec::new();
    let mut i: usize = 0;
    while i < n
        invariant
            n == servers@.len(),
            i <= n,
            r@.len() == i,
            forall|j: int| 0 <= j < i ==> (#[trigger] r@[j])@ == servers@[j]@,
        decreases n - i,
    {
        r.push(servers[i].clone());
        i = i + 1;
    }
    assert(crate::proxy::server_models(r@) =~= crate::proxy::server_models(servers@));
    r
}

impl ServerListConfig {
    /// What is needed to load the list of servers: those that are given by their
    /// addresses only are in it anyway.
    pub fn new(
        default_test_dns: SocketAddr,
        default_max_wait: Duration,
        socks5_servers: &Vec<SocketAddr>,
        http_servers: &Vec<SocketAddr>,
        allow_direct: bool,
    ) -> (r: ServerListConfig)
        ensures
            r.default_test_dns == default_test_dns,
            r.default_max_wait == default_max_wait,
            r.allow_direct == allow_direct,
            crate::proxy::server_models(r.cli_servers@) == plain_servers(
                socks5_servers@,
                crate::proxy::ProtoModel::Socks5 { fake_handshaking: false, user_pass_auth: None },
                default_test_dns,
                default_max_wait,
            ) + plain_servers(
                http_servers@,
                crate::proxy::ProtoModel::Http {
                    connect_with_payload: false,
                    user_pass_auth: None,
                },
                default_test_dns,
                default_max_wait,
            ),
    {
        let mut cli_servers: Vec<ProxyServer> = Vec::new();
        assert(crate::proxy::server_models(cli_servers@) =~= Seq::<
            crate::proxy::ServerModel,
        >::empty());
        let socks5 = ProxyProto::socks5(false);
        let http = ProxyProto::http(false, None);
        push_plain_servers(
            &mut cli_servers,
            socks5_servers,
            &socks5,
            default_test_dns,
            default_max_wait,
        );
        push_plain_servers(
            &mut cli_servers,
            http_servers,
            &http,
            default_test_dns,
            default_max_wait,
        );
        proof {
            let a = plain_servers(
                socks5_servers@,
                socks5@,
                default_test_dns,
                default_max_wait,
            );
            assert(Seq::<crate::proxy::ServerModel>::empty() + a =~= a);
        }
        ServerListConfig { default_test_dns, default_max_wait, cli_servers, allow_direct }
    }

    /// The list of servers where the sections of the file are known. None where
    /// the tag of a server cannot be one.
    pub fn load_sections(
        &self,
        sections: &Vec<Section>,
    ) -> (r: Option<Result<Vec<ProxyServer>, ServerListError>>)
        ensures
            match list_result(
                crate::proxy::server_models(self.cli_servers@),
                Some(section_models(sections@)),
                self.default_test_dns,
                self.default_max_wait,
                self.allow_direct,
            ) {
                None => r is None,
                Some(Ok(servers)) => r matches Some(Ok(found)) && crate::proxy::server_models(
                    found@,
                ) == servers,
                Some(Err(e)) => r matches Some(Err(error)) && error == e,
            },
    {
        let mut servers = clone_servers(&self.cli_servers);
        let ghost known = crate::proxy::server_models(self.cli_servers@);
        let ghost all = section_models(sections@);
        let ghost mut new: Seq<crate::proxy::ServerModel> = Seq::empty();
        let n = sections.len();
        let mut i: usize = 0;
        proof {
            assert(all.take(0) =~= Seq::<SectionModel>::empty());
            assert(known + new =~= known);
        }
        while i < n
            invariant
                n == sections@.len(),
                i <= n,
                all == section_models(sections@),
                known == crate::proxy::server_models(self.cli_servers@),
                crate::proxy::server_models(servers@) == known + new,
                sections_result(
                    all.take(i as int),
                    self.default_test_dns,
                    self.default_max_wait,
                ) == Some(Ok::<Seq<crate::proxy::ServerModel>, ServerListError>(new)),
            decreases n - i,
        {
            proof {
                assert(all.take(i + 1).drop_last() =~= all.take(i as int));
                assert(all.take(i + 1).last() == sections@[i as int]@);
            }
            match sections[i].server(self.default_test_dns, self.default_max_wait) {
                None => {
                    proof {
                        lemma_bad_section(
                            all,
                            i + 1,
                            self.default_test_dns,
                            self.default_max_wait,
                        );
                    }
                    return None;
                },
                Some(Err(e)) => {
                    proof {
                        lemma_bad_section(
                            all,
                            i + 1,
                            self.default_test_dns,
                            self.default_max_wait,
                        );
                    }
                    return Some(Err(e));
                },
                Some(Ok(server)) => {
                    let ghost prior = servers@;
                    proof {
                        new = new.push(server@);
                    }
                    servers.push(server);
                    assert(crate::proxy::server_models(servers@) =~= crate::proxy::server_models(
                        prior,
                    ).push(server@));
                    assert(crate::proxy::server_models(servers@) =~= known + new);
                },
            }
            i = i + 1;
        }
        assert(all.take(n as int) =~= all);
        if servers.len() == 0 && !self.allow_direct {
            assert(crate::proxy::server_models(servers@).len() == 0);
            return Some(Err(ServerListError::Empty));
        }
        assert(crate::proxy::server_models(servers@).len() == servers@.len());
        Some(Ok(servers))
    }

    /// The list of servers, with those of a file where its text is given. None
    /// where the tag of a server cannot be one.
    pub fn load(&self, text: Option<&str>) -> (r: Option<
        Result<Vec<ProxyServer>, ServerListError>,
    >)
        ensures
            match list_result(
                crate::proxy::server_models(self.cli_servers@),
                text_sections(text),
                self.default_test_dns,
                self.default_max_wait,
                self.allow_direct,
            ) {
                None => r is None,
                Some(Ok(servers)) => r matches Some(Ok(found)) && crate::proxy::server_models(
                    found@,
                ) == servers,
                Some(Err(e)) => r matches Some(Err(error)) && error == e,
            },
    {
        let sections = match sections_of(text) {
            Some(sections) => sections,
            None => return Some(Err(ServerListError::File)),
        };
        self.load_sections(&sections)
    }

    /// What each server of the list is capable of, in the order in which the
    /// servers are loaded. None where the file is not well formed.
    pub fn load_capabilities(&self, text: Option<&str>) -> (r: Option<Vec<CapSet>>)
        ensures
            match text_sections(text) {
                None => r is None,
                Some(sections) => r matches Some(list) && crate::policy::capabilities::sets_of(
                    list@,
                ) == Seq::new(
                    self.cli_servers@.len(),
                    |i: int| Seq::<Seq<char>>::empty(),
                ) + Seq::new(sections.len(), |i: int| capabilities_of(sections[i].props)),
            },
    {
        match sections_of(text) {
            None => None,
            Some(sections) => {
                let mut list: Vec<CapSet> = Vec::new();
                let known = self.cli_servers.len();
                let mut k: usize = 0;
                while k < known
                    invariant
                        known == self.cli_servers@.len(),
                        k <= known,
                        list@.len() == k,
                        forall|j: int|
                            0 <= j < k ==> (#[trigger] list@[j])@ == Seq::<Seq<char>>::empty(),
                    decreases known - k,
                {
                    list.push(CapSet::default());
                    k = k + 1;
                }
                let n = sections.len();
                let mut i: usize = 0;
                while i < n
                    invariant
                        n == sections@.len(),
                        i <= n,
                        list@.len() == known + i,
                        forall|j: int|
                            0 <= j < known ==> (#[trigger] list@[j])@ == Seq::<Seq<char>>::empty(),
                        forall|j: int|
                            known <= j < known + i ==> (#[trigger] list@[j])@ == capabilities_of(
                                sections@[j - known]@.props,
                            ),
                    decreases n - i,
                {
                    list.push(sections[i].capabilities());
                    i = i + 1;
                }
                proof {
                    let models = section_models(sections@);
                    assert(crate::policy::capabilities::sets_of(list@) =~= Seq::new(
                        self.cli_servers@.len(),
                        |i: int| Seq::<Seq<char>>::empty(),
                    ) + Seq::new(models.len(), |i: int| capabilities_of(models[i].props)));
                }
                Some(list)
            },
        }
    }
}

// ---- clients ----

/// Whether the name of a client's destination is looked for in its first bytes,
/// and how many servers may be tried at the same time.
pub fn client_plan(remote_dns: bool, dest_port: u16, n_parallel: usize) -> (r: (bool, usize))
    ensures
        r.0 == (remote_dns && dest_port == 443),
        r.1 == if r.0 {
            n_parallel
        } else {
            0
        },
{
    if remote_dns && dest_port == 443 {
        (true, n_parallel)
    } else {
        (false, 0)
    }
}

/// The different ones of some ports.
pub fn distinct_ports(ports: &Vec<u16>) -> (r: PortSet)
    ensures
        r@ == ports@.to_set(),
{
    let n = ports.len();
    let mut r = PortSet::new();
    let mut i: usize = 0;
    assert(ports@.take(0).to_set() =~= Set::<u16>::empty());
    while i < n
        invariant
            n == ports@.len(),
            i <= n,
            r@ == ports@.take(i as int).to_set(),
        decreases n - i,
    {
        r.insert(ports[i]);
        proof {
            let front = ports@.take(i as int);
            let next = ports@.take(i + 1);
            assert forall|v: u16| next.to_set().contains(v) == front.to_set().insert(
                ports@[i as int],
            ).contains(v) by {
                if front.contains(v) {
                    let j = choose|j: int| 0 <= j < front.len() && front[j] == v;
                    assert(next[j] == v);
                }
                if next.contains(v) {
                    let j = choose|j: int| 0 <= j < next.len() && next[j] == v;
                    if j < i {
                        assert(front[j] == v);
                    }
                }
                assert(next[i as int] == ports@[i as int]);
            }
            assert(next.to_set() =~= front.to_set().insert(ports@[i as int]));
        }
        i = i + 1;
    }
    assert(ports@.take(n as int) =~= ports@);
    r
}

/// The ports of a server at which nothing comes in, because nobody listens there.
pub fn surplus_ports(ports: &PortSet, listened: &PortSet) -> (r: Vec<u16>)
    ensures
        r@.no_duplicates(),
        forall|p: u16| #[trigger] r@.contains(p) <==> ports@.contains(p) && !listened@.contains(p),
{
    let all = ports.listed();
    let n = all.len();
    let mut r: Vec<u16> = Vec::new();
    let mut i: usize = 0;
    while i < n
        invariant
            n == all@.len(),
            i <= n,
            all@.no_duplicates(),
            r@.no_duplicates(),
            forall|p: u16| #[trigger]
                r@.contains(p) <==> all@.take(i as int).contains(p) && !listened@.contains(p),
        decreases n - i,
    {
        let port = all[i];
        let ghost before = r@;
        let ghost front = all@.take(i as int);
        let ghost next = all@.take(i + 1);
        proof {
            assert(next =~= front.push(port));
            assert(!front.contains(port));
            assert(!before.contains(port));
        }
        if !listened.contains(port) {
            r.push(port);
            assert(r@.no_duplicates()) by {
                assert forall|k: int, l: int|
                    0 <= k < r@.len() && 0 <= l < r@.len() && k != l implies r@[k] != r@[l] by {
                    if k < before.len() && l < before.len() {
                        assert(before[k] != before[l]);
                    } else if k < before.len() {
                        assert(before.contains(before[k]));
                    } else {
                        assert(before.contains(before[l]));
                    }
                }
            }
        }
        proof {
            assert forall|p: u16| #[trigger] r@.contains(p) <==> next.contains(p)
                && !listened@.contains(p) by {
                assert(next.contains(p) <==> front.contains(p) || p == port) by {
                    assert(next[i as int] == port);
                    if front.contains(p) {
                        let k = choose|k: int| 0 <= k < front.len() && front[k] == p;
                        assert(next[k] == p);
                    }
                }
                if !listened@.contains(port) {
                    assert(r@[before.len() as int] == port);
                    if before.contains(p) {
                        let k = choose|k: int| 0 <= k < before.len() && before[k] == p;
                        assert(r@[k] == p);
                    }
                    if r@.contains(p) && p != port {
                        let k = choose|k: int| 0 <= k < r@.len() && r@[k] == p;
                        assert(before[k] == p);
                    }
                }
            }
        }
        i = i + 1;
    }
    assert(all@.take(n as int) =~= all@);
    r
}

/// Whether an address to listen at is a path of the file system.
pub fn is_path(addr: &str) -> (r: bool)
    ensures
        r == (addr@.len() > 0 && addr@[0] == '/'),
{
    addr.unicode_len() > 0 && addr.get_char(0) == '/'
}

// ---- laws ----

proof fn lemma_number_is_tag(n: nat)
    ensures
        crate::proxy::is_tag(crate::text::dec(n)),
        crate::text::dec(n).len() > 0,
        forall|i: int|
            0 <= i < crate::text::dec(n).len() ==> '0' <= #[trigger] crate::text::dec(n)[i] <= '9',
    decreases n,
{
    let s = crate::text::dec(n);
    if n >= 10 {
        lemma_number_is_tag(n / 10);
    }
    assert forall|i: int| 0 <= i < s.len() implies '0' <= #[trigger] s[i] <= '9' by {
        if n >= 10 && i < s.len() - 1 {
            assert(s[i] == crate::text::dec(n / 10)[i]);
        }
    }
    vstd::utf8::is_ascii_chars_nat_bound(s);
}

/// A server that was loaded can be used: its tag can be part of the path of a
/// record, its name and password can be sent, and nothing is known of it yet.
pub proof fn lemma_loaded_server_is_usable(
    section: SectionModel,
    test_dns: SocketAddr,
    max_wait: Duration,
    server: crate::proxy::ServerModel,
)
    requires
        section_result(section, test_dns, max_wait) == Some(
            Ok::<crate::proxy::ServerModel, ServerListError>(server),
        ),
    ensures
        crate::proxy::is_tag(server.tag),
        server.proto matches crate::proxy::ProtoModel::Socks5 { user_pass_auth: Some(c), .. }
            ==> crate::proxy::socks5::credential_fits(c),
        server.status == crate::proxy::new_status(),
{
    reveal(section_result);
    lemma_number_is_tag(server.addr.port_spec() as nat);
}

/// The servers of a file come in the order of its sections, behind those that
/// are known anyway.
pub proof fn lemma_servers_in_order(
    known: Seq<crate::proxy::ServerModel>,
    sections: Seq<SectionModel>,
    test_dns: SocketAddr,
    max_wait: Duration,
    allow_direct: bool,
    i: int,
)
    requires
        list_result(known, Some(sections), test_dns, max_wait, allow_direct) matches Some(Ok(_)),
        0 <= i < sections.len(),
    ensures
        list_result(known, Some(sections), test_dns, max_wait, allow_direct) matches Some(
            Ok(servers),
        ) && servers.len() == known.len() + sections.len() && servers.take(known.len() as int)
            == known && section_result(sections[i], test_dns, max_wait) == Some(
            Ok::<crate::proxy::ServerModel, ServerListError>(servers[known.len() + i]),
        ),
{
    lemma_each_section(sections, test_dns, max_wait, i);
    let servers = sections_result(sections, test_dns, max_wait)->0->Ok_0;
    assert((known + servers).take(known.len() as int) =~= known);
    assert((known + servers)[known.len() + i] == servers[i]);
}

proof fn lemma_each_section(
    sections: Seq<SectionModel>,
    test_dns: SocketAddr,
    max_wait: Duration,
    i: int,
)
    requires
        sections_result(sections, test_dns, max_wait) matches Some(Ok(_)),
        0 <= i < sections.len(),
    ensures
        sections_result(sections, test_dns, max_wait) matches Some(Ok(servers)) && servers.len()
            == sections.len() && section_result(sections[i], test_dns, max_wait) == Some(
            Ok::<crate::proxy::ServerModel, ServerListError>(servers[i]),
        ),
    decreases sections.len(),
{
    let front = sections.drop_last();
    lemma_section_count(front, test_dns, max_wait);
    if i < front.len() {
        lemma_each_section(front, test_dns, max_wait, i);
        assert(front[i] == sections[i]);
    }
}

proof fn lemma_section_count(sections: Seq<SectionModel>, test_dns: SocketAddr, max_wait: Duration)
    ensures
        sections_result(sections, test_dns, max_wait) matches Some(Ok(servers)) ==> servers.len()
            == sections.len(),
    decreases sections.len(),
{
    if sections.len() > 0 {
        lemma_section_count(sections.drop_last(), test_dns, max_wait);
    }
}

/// A property has the value of the first line that names it, and none where no
/// line does.
pub proof fn lemma_first_line_counts(props: Seq<(Seq<char>, Seq<char>)>, key: Seq<char>, i: int)
    ensures
        0 <= i < props.len() && props[i].0 == key && (forall|j: int|
            0 <= j < i ==> (#[trigger] props[j]).0 != key) ==> property(props, key) == Some(
            props[i].1,
        ),
        (forall|j: int| 0 <= j < props.len() ==> (#[trigger] props[j]).0 != key) ==> property(
            props,
            key,
        ) is None,
    decreases props.len(),
{
    if props.len() > 0 && props[0].0 != key {
        let tail = props.skip(1);
        lemma_first_line_counts(tail, key, i - 1);
        assert forall|j: int| 0 <= j < tail.len() implies tail[j] == #[trigger] props[j + 1] by {}
        if 0 <= i < props.len() && props[i].0 == key && (forall|j: int|
            0 <= j < i ==> (#[trigger] props[j]).0 != key) {
            assert(tail[i - 1] == props[i]);
            assert forall|j: int| 0 <= j < i - 1 implies (#[trigger] tail[j]).0 != key by {
                assert(tail[j] == props[j + 1]);
            }
        }
        if forall|j: int| 0 <= j < props.len() ==> (#[trigger] props[j]).0 != key {
            assert forall|j: int| 0 <= j < tail.len() implies (#[trigger] tail[j]).0 != key by {
                assert(tail[j] == props[j + 1]);
            }
        }
    } else if props.len() > 0 {
        if forall|j: int| 0 <= j < props.len() ==> (#[trigger] props[j]).0 != key {
            assert(props[0].0 != key);
        }
        if i > 0 && (forall|j: int| 0 <= j < i ==> (#[trigger] props[j]).0 != key) {
            assert(props[0].0 != key);
        }
    }
}

/// The user name of an HTTP server that is loaded is the one that its section
/// gives, and so is the password. What is not given is empty; where neither is,
/// there is nothing to log in with.
pub proof fn lemma_http_credential(
    section: SectionModel,
    test_dns: SocketAddr,
    max_wait: Duration,
    server: crate::proxy::ServerModel,
)
    requires
        section_result(section, test_dns, max_wait) == Some(
            Ok::<crate::proxy::ServerModel, ServerListError>(server),
        ),
        server.proto is Http,
    ensures
        ({
            let auth = server.proto->Http_user_pass_auth;
            let user = property(section.props, "http username"@);
            let pass = property(section.props, "http password"@);
            &&& user matches Some(u) ==> (auth matches Some(c) && c.username == u)
            &&& pass matches Some(p) ==> (auth matches Some(c) && c.password == p)
            &&& user is None ==> (auth matches Some(c) ==> c.username.len() == 0)
            &&& pass is None ==> (auth matches Some(c) ==> c.password.len() == 0)
            &&& auth is None <==> user is None && pass is None
            &&& user matches Some(u) ==> !u.contains(':')
        }),
        server.proto->connect_with_payload <==> property(
            section.props,
            "http allow connect payload"@,
        ) == Some("true"@),
{
    reveal(section_result);
    reveal_strlit("true");
    reveal_strlit("false");
}

/// The user name and the password of a SOCKS server that is loaded are those that
/// its section gives. With them nothing is pretended, and without them it is as
/// the section says.
pub proof fn lemma_socks_credential(
    section: SectionModel,
    test_dns: SocketAddr,
    max_wait: Duration,
    server: crate::proxy::ServerModel,
)
    requires
        section_result(section, test_dns, max_wait) == Some(
            Ok::<crate::proxy::ServerModel, ServerListError>(server),
        ),
        server.proto is Socks5,
    ensures
        ({
            let auth = server.proto->Socks5_user_pass_auth;
            let user = property(section.props, "socks username"@);
            let pass = property(section.props, "socks password"@);
            let fake = property(section.props, "socks fake handshaking"@);
            &&& auth matches Some(c) ==> user == Some(c.username) && pass == Some(c.password)
            &&& user matches Some(u) ==> (u.len() > 0 ==> auth is Some)
            &&& pass matches Some(p) ==> (p.len() > 0 ==> auth is Some)
            &&& auth matches Some(c) ==> {
                &&& 0 < c.username.len()
                &&& 0 < c.password.len()
                &&& vstd::utf8::encode_utf8(c.username).len() <= 255
                &&& vstd::utf8::encode_utf8(c.password).len() <= 255
            }
            &&& server.proto->fake_handshaking <==> auth is None && fake == Some("true"@)
        }),
{
    reveal(section_result);
    reveal_strlit("true");
    reveal_strlit("false");
}

/// The protocol of a server that is loaded is the one that its section names, in
/// small or in capital letters.
pub proof fn lemma_named_protocol(
    section: SectionModel,
    test_dns: SocketAddr,
    max_wait: Duration,
    server: crate::proxy::ServerModel,
)
    requires
        section_result(section, test_dns, max_wait) == Some(
            Ok::<crate::proxy::ServerModel, ServerListError>(server),
        ),
    ensures
        property(section.props, "protocol"@) matches Some(name) && {
            let word = crate::text::lower_text(name);
            &&& server.proto is Socks5 <==> word == "socks5"@ || word == "socksv5"@
            &&& server.proto is Http <==> word == "http"@
            &&& server.proto is Socks5 || server.proto is Http
        },
{
    reveal(section_result);
    reveal_strlit("socks5");
    reveal_strlit("socksv5");
    reveal_strlit("http");
    assert("socks5"@[0] == 's' && "socksv5"@[0] == 's' && "http"@[0] == 'h');
}

/// A server that is loaded has the address, the base of its score, the name
/// server, the time to wait, the ports and the tag that its section gives. What
/// the section does not give is what is usual.
pub proof fn lemma_settings_are_kept(
    section: SectionModel,
    test_dns: SocketAddr,
    max_wait: Duration,
    server: crate::proxy::ServerModel,
)
    requires
        section_result(section, test_dns, max_wait) == Some(
            Ok::<crate::proxy::ServerModel, ServerListError>(server),
        ),
    ensures
        property(section.props, "address"@) matches Some(s) && crate::net::socket_text(s) == Some(
            server.addr,
        ),
        match property(section.props, "score base"@) {
            Some(s) => crate::number::signed_text(s) == Some(server.config.score_base as int),
            None => server.config.score_base == 0,
        },
        match property(section.props, "test dns"@) {
            Some(s) => crate::net::socket_text(s) == Some(server.config.test_dns),
            None => server.config.test_dns == test_dns,
        },
        match property(section.props, "max wait"@) {
            Some(s) => crate::number::unsigned_text(s, u64::MAX as nat) == Some(
                server.config.max_wait.secs as nat,
            ) && server.config.max_wait.nanos == 0,
            None => server.config.max_wait == max_wait,
        },
        match property(section.props, "listen ports"@) {
            Some(s) => ports_of(split_ports(s, 0, Seq::empty())) == Some(
                server.config.listen_ports,
            ),
            None => server.config.listen_ports =~= Set::empty(),
        },
        match property(section.props, "tag"@) {
            Some(tag) => server.tag == tag,
            None => section.name matches Some(name) ==> server.tag == name,
        },
        property(section.props, "tag"@) is None && section.name is None
            ==> crate::number::unsigned_text(server.tag, u16::MAX as nat) == Some(
            server.addr.port_spec() as nat,
        ),
        server.traffic.tx_bytes == 0 && server.traffic.rx_bytes == 0,
{
    reveal(section_result);
    crate::number::lemma_unsigned_read_back(server.addr.port_spec() as nat, u16::MAX as nat);
    if let Some(s) = property(section.props, "score base"@) {
        lemma_signed_bound(s);
    }
    if let Some(s) = property(section.props, "max wait"@) {
        assert(crate::number::unsigned_text(s, u64::MAX as nat) matches Some(n) && n <= u64::MAX);
    }
}

proof fn lemma_signed_bound(s: Seq<char>)
    ensures
        crate::number::signed_text(s) matches Some(n) ==> i32::MIN <= n <= i32::MAX,
{
}

/// A section without an address, with one that is none, without a protocol or
/// with a number that is none is refused, and each error says what is wrong.
pub proof fn lemma_why_refused(
    section: SectionModel,
    test_dns: SocketAddr,
    max_wait: Duration,
)
    ensures
        ({
            let props = section.props;
            let name = property(props, "protocol"@);
            section_result(section, test_dns, max_wait) matches Some(Err(e)) ==> match e {
                ServerListError::AddressMissing => property(props, "address"@) is None,
                ServerListError::AddressInvalid => property(props, "address"@) matches Some(s)
                    && crate::net::socket_text(s) is None,
                ServerListError::ScoreBaseInvalid => property(props, "score base"@) matches Some(s)
                    && crate::number::signed_text(s) is None,
                ServerListError::TestDnsInvalid => property(props, "test dns"@) matches Some(s)
                    && crate::net::socket_text(s) is None,
                ServerListError::MaxWaitInvalid => property(props, "max wait"@) matches Some(s)
                    && crate::number::unsigned_text(s, u64::MAX as nat) is None,
                ServerListError::PortInvalid => property(props, "listen ports"@) is Some,
                ServerListError::ProtocolMissing => name is None,
                ServerListError::ProtocolUnknown => name is Some,
                ServerListError::ColonInUsername => property(props, "http username"@) matches Some(
                    u,
                ) && u.contains(':'),
                ServerListError::CredentialEmpty => (property(props, "socks username"@) is Some
                    || property(props, "socks password"@) is Some) && (property(
                    props,
                    "socks username"@,
                ).unwrap_or(Seq::empty()).len() == 0 || property(
                    props,
                    "socks password"@,
                ).unwrap_or(Seq::empty()).len() == 0),
                ServerListError::CredentialTooLong => property(
                    props,
                    "socks username"@,
                ) matches Some(u) && (property(props, "socks password"@) matches Some(p) && (
                vstd::utf8::encode_utf8(u).len() > 255 || vstd::utf8::encode_utf8(p).len() > 255)),
                ServerListError::BooleanInvalid => property(props, "socks fake handshaking"@) is Some
                    || property(props, "http allow connect payload"@) is Some,
                ServerListError::File => false,
                ServerListError::Empty => false,
            }
        }),
{
    reveal(section_result);
}

/// A section with an address and a protocol alone is loaded, whatever its tag
/// can be.
pub proof fn lemma_address_and_protocol_are_enough(
    section: SectionModel,
    test_dns: SocketAddr,
    max_wait: Duration,
    address: Seq<char>,
    protocol: Seq<char>,
)
    requires
        section.props == seq![("address"@, address), ("protocol"@, protocol)],
        crate::net::socket_text(address) is Some,
        crate::text::lower_text(protocol) == "http"@ || crate::text::lower_text(protocol)
            == "socks5"@ || crate::text::lower_text(protocol) == "socksv5"@,
        section.name matches Some(name) ==> crate::proxy::is_tag(name),
    ensures
        section_result(section, test_dns, max_wait) matches Some(Ok(_)),
{
    reveal(section_result);
    lemma_keys_differ();
    let props = section.props;
    assert forall|key: Seq<char>| key != "address"@ && key != "protocol"@ implies (
    #[trigger] property(props, key)) is None by {
        lemma_first_line_counts(props, key, 0);
    }
    lemma_first_line_counts(props, "address"@, 0);
    lemma_first_line_counts(props, "protocol"@, 1);
}

#[verifier::spinoff_prover]
proof fn lemma_keys_differ()
    ensures
        "address"@ != "protocol"@,
        "address"@ != "score base"@ && "protocol"@ != "score base"@,
        "address"@ != "test dns"@ && "protocol"@ != "test dns"@,
        "address"@ != "max wait"@ && "protocol"@ != "max wait"@,
        "address"@ != "listen ports"@ && "protocol"@ != "listen ports"@,
        "address"@ != "tag"@ && "protocol"@ != "tag"@,
        "address"@ != "socks username"@ && "protocol"@ != "socks username"@,
        "address"@ != "socks password"@ && "protocol"@ != "socks password"@,
        "address"@ != "socks fake handshaking"@ && "protocol"@ != "socks fake handshaking"@,
        "address"@ != "http username"@ && "protocol"@ != "http username"@,
        "address"@ != "http password"@ && "protocol"@ != "http password"@,
        "address"@ != "http allow connect payload"@ && "protocol"@
            != "http allow connect payload"@,
{
    reveal_strlit("address");
    reveal_strlit("protocol");
    reveal_strlit("score base");
    reveal_strlit("test dns");
    reveal_strlit("max wait");
    reveal_strlit("listen ports");
    reveal_strlit("tag");
    reveal_strlit("socks username");
    reveal_strlit("socks password");
    reveal_strlit("socks fake handshaking");
    reveal_strlit("http username");
    reveal_strlit("http password");
    reveal_strlit("http allow connect payload");
    assert("address"@[0] == 'a' && "protocol"@[0] == 'p');
    assert("score base"@[0] == 's' && "test dns"@[0] == 't' && "max wait"@[0] == 'm');
    assert("listen ports"@[0] == 'l' && "tag"@[0] == 't' && "socks username"@[0] == 's');
    assert("socks password"@[0] == 's' && "socks fake handshaking"@[0] == 's');
    assert("http username"@[0] == 'h' && "http password"@[0] == 'h');
    assert("http allow connect payload"@[0] == 'h');
}

proof fn lemma_split_read_on(s: Seq<char>, i: int, word: Seq<char>, n: int)
    requires
        0 <= i <= n <= s.len(),
        forall|k: int| i <= k < n ==> (#[trigger] s[k]) != ' ' && s[k] != ',',
    ensures
        split_ports(s, i, word) == split_ports(s, n, word + s.subrange(i, n)),
    decreases n - i,
{
    if i == n {
        assert(word + s.subrange(i, n) =~= word);
    } else {
        lemma_split_read_on(s, i + 1, word.push(s[i]), n);
        assert(word.push(s[i]) + s.subrange(i + 1, n) =~= word + s.subrange(i, n));
    }
}

proof fn lemma_split_shift(s: Seq<char>, t: Seq<char>, i: int, j: int, word: Seq<char>)
    requires
        0 <= i <= s.len(),
        0 <= j <= t.len(),
        s.skip(i) == t.skip(j),
    ensures
        split_ports(s, i, word) == split_ports(t, j, word),
    decreases s.len() - i,
{
    assert(s.skip(i).len() == s.len() - i && t.skip(j).len() == t.len() - j);
    if i < s.len() {
        assert(s[i] == s.skip(i)[0] && t[j] == t.skip(j)[0]);
        assert(s.skip(i + 1) =~= s.skip(i).skip(1));
        assert(t.skip(j + 1) =~= t.skip(j).skip(1));
        let read = if s[i] == ' ' || s[i] == ',' {
            Seq::empty()
        } else {
            word.push(s[i])
        };
        lemma_split_shift(s, t, i + 1, j + 1, read);
    }
}

/// A list is the word before the first blank or comma in it and what the list
/// behind that holds; a word without them is the only one of its list, and empty
/// words do not count.
pub proof fn lemma_words_of_list(word: Seq<char>, separator: char, list: Seq<char>)
    requires
        separator == ' ' || separator == ',',
        forall|i: int| 0 <= i < word.len() ==> (#[trigger] word[i]) != ' ' && word[i] != ',',
    ensures
        word.len() > 0 ==> split_ports(word + seq![separator] + list, 0, Seq::empty()) == seq![word]
            + split_ports(list, 0, Seq::empty()),
        word.len() > 0 ==> split_ports(word, 0, Seq::empty()) == seq![word],
        split_ports(seq![separator] + list, 0, Seq::empty()) == split_ports(list, 0, Seq::empty()),
        split_ports(Seq::empty(), 0, Seq::empty()) =~= Seq::<Seq<char>>::empty(),
{
    let n = word.len() as int;
    let s = word + seq![separator] + list;
    assert(Seq::<char>::empty() + s.subrange(0, n) =~= word);
    assert(Seq::<char>::empty() + word.subrange(0, n) =~= word);
    assert forall|k: int| 0 <= k < n implies (#[trigger] s[k]) != ' ' && s[k] != ',' by {
        assert(s[k] == word[k]);
    }
    lemma_split_read_on(s, 0, Seq::empty(), n);
    lemma_split_read_on(word, 0, Seq::empty(), n);
    assert(s[n] == separator);
    assert(s.skip(n + 1) =~= list.skip(0));
    lemma_split_shift(s, list, n + 1, 0, Seq::empty());
    let t = seq![separator] + list;
    assert(t[0] == separator);
    assert(t.skip(1) =~= list.skip(0));
    lemma_split_shift(t, list, 1, 0, Seq::empty());
}

/// A port is listed exactly where one of the words spells it, and where a word
/// is no port there is no list.
pub proof fn lemma_listed_ports(words: Seq<Seq<char>>)
    ensures
        ports_of(words) is Some <==> forall|i: int|
            0 <= i < words.len() ==> crate::number::unsigned_text(#[trigger] words[i], 65535) is Some,
        ports_of(words) matches Some(ports) ==> forall|port: u16| #[trigger]
            ports.contains(port) <==> exists|i: int|
                0 <= i < words.len() && crate::number::unsigned_text(#[trigger] words[i], 65535)
                    == Some(port as nat),
    decreases words.len(),
{
    if words.len() > 0 {
        let front = words.drop_last();
        lemma_listed_ports(front);
        assert forall|i: int| 0 <= i < front.len() implies front[i] == #[trigger] words[i] by {}
        if ports_of(words) is Some {
            assert forall|i: int| 0 <= i < words.len() implies crate::number::unsigned_text(
                #[trigger] words[i],
                65535,
            ) is Some by {
                if i < front.len() {
                    assert(front[i] == words[i]);
                }
            }
            let ports = ports_of(words)->0;
            let n = crate::number::unsigned_text(words.last(), 65535)->0;
            assert(n <= 65535);
            assert forall|port: u16| #[trigger] ports.contains(port) <==> exists|i: int|
                0 <= i < words.len() && crate::number::unsigned_text(#[trigger] words[i], 65535)
                    == Some(port as nat) by {
                let before = ports_of(front)->0;
                if ports.contains(port) {
                    if before.contains(port) {
                        let i = choose|i: int|
                            0 <= i < front.len() && crate::number::unsigned_text(
                                #[trigger] front[i],
                                65535,
                            ) == Some(port as nat);
                        assert(words[i] == front[i]);
                    } else {
                        assert(words[words.len() - 1] == words.last());
                    }
                }
                if exists|i: int|
                    0 <= i < words.len() && crate::number::unsigned_text(#[trigger] words[i], 65535)
                        == Some(port as nat) {
                    let i = choose|i: int|
                        0 <= i < words.len() && crate::number::unsigned_text(
                            #[trigger] words[i],
                            65535,
                        ) == Some(port as nat);
                    if i < front.len() {
                        assert(front[i] == words[i]);
                        assert(before.contains(port));
                    }
                }
            }
        } else if forall|i: int|
            0 <= i < words.len() ==> crate::number::unsigned_text(#[trigger] words[i], 65535) is Some {
            assert(crate::number::unsigned_text(words[words.len() - 1], 65535) is Some);
            assert forall|i: int| 0 <= i < front.len() implies crate::number::unsigned_text(
                #[trigger] front[i],
                65535,
            ) is Some by {
                assert(front[i] == words[i]);
            }
        }
    }
}

/// No list comes of a file that cannot be read, nor of one without a server
/// where clients may not go without.
pub proof fn lemma_when_no_list(
    known: Seq<crate::proxy::ServerModel>,
    test_dns: SocketAddr,
    max_wait: Duration,
    allow_direct: bool,
)
    ensures
        list_result(known, None, test_dns, max_wait, allow_direct) == Some(
            Err::<Seq<crate::proxy::ServerModel>, ServerListError>(ServerListError::File),
        ),
        known.len() == 0 && !allow_direct ==> list_result(
            known,
            Some(Seq::empty()),
            test_dns,
            max_wait,
            allow_direct,
        ) == Some(Err::<Seq<crate::proxy::ServerModel>, ServerListError>(ServerListError::Empty)),
        known.len() > 0 || allow_direct ==> list_result(
            known,
            Some(Seq::empty()),
            test_dns,
            max_wait,
            allow_direct,
        ) == Some(Ok::<_, ServerListError>(known)),
{
    assert(known + Seq::<crate::proxy::ServerModel>::empty() =~= known);
}

/// The first section that describes no server decides what is told of a file.
pub proof fn lemma_first_bad_section(
    known: Seq<crate::proxy::ServerModel>,
    good: Seq<SectionModel>,
    bad: SectionModel,
    more: Seq<SectionModel>,
    test_dns: SocketAddr,
    max_wait: Duration,
    allow_direct: bool,
    e: ServerListError,
)
    requires
        sections_result(good, test_dns, max_wait) matches Some(Ok(_)),
        section_result(bad, test_dns, max_wait) == Some(
            Err::<crate::proxy::ServerModel, ServerListError>(e),
        ),
    ensures
        list_result(known, Some(good.push(bad) + more), test_dns, max_wait, allow_direct) == Some(
            Err::<Seq<crate::proxy::ServerModel>, ServerListError>(e),
        ),
    decreases more.len(),
{
    let all = good.push(bad) + more;
    if more.len() == 0 {
        assert(all =~= good.push(bad));
        assert(good.push(bad).drop_last() =~= good);
    } else {
        lemma_first_bad_section(
            known,
            good,
            bad,
            more.drop_last(),
            test_dns,
            max_wait,
            allow_direct,
            e,
        );
        assert(all.drop_last() =~= good.push(bad) + more.drop_last());
    }
}

/// Names with blanks or commas between them are the capabilities of a section,
/// and a section that gives none has none.
pub proof fn lemma_capabilities_of_section(
    section: SectionModel,
    names: Seq<Seq<char>>,
    before: Seq<char>,
    after: Seq<char>,
)
    requires
        names.len() > 0,
        forall|i: int|
            0 <= i < names.len() ==> crate::policy::parser::is_plain_name(#[trigger] names[i]),
        crate::policy::parser::are_blanks(before),
        crate::policy::parser::are_blanks(after),
        property(section.props, "capabilities"@) == Some(
            crate::policy::parser::listed(names, before + (seq![','] + after)),
        ),
    ensures
        capabilities_of(section.props) == crate::order::sorted(names),
{
    crate::policy::parser::lemma_list_of_names(names, before, after, true);
}

/// The mark that may stand at the start of a file is left out, once.
pub proof fn lemma_mark_is_left_out(text: Seq<char>)
    ensures
        without_mark(seq!['\u{feff}'] + text) == text,
        text.len() == 0 || text[0] != '\u{feff}' ==> without_mark(text) == text,
{
    assert((seq!['\u{feff}'] + text).skip(1) =~= text);
}

/// A server of the command line has its port for a tag, and everything else is
/// what is usual.
pub proof fn lemma_server_of_command_line(
    addr: SocketAddr,
    proto: crate::proxy::ProtoModel,
    test_dns: SocketAddr,
    max_wait: Duration,
    addrs: Seq<SocketAddr>,
    i: int,
)
    requires
        0 <= i < addrs.len(),
    ensures
        ({
            let s = plain_server(addr, proto, test_dns, max_wait);
            &&& s.addr == addr && s.proto == proto
            &&& crate::number::unsigned_text(s.tag, u16::MAX as nat) == Some(
                addr.port_spec() as nat,
            )
            &&& s.config.test_dns == test_dns && s.config.max_wait == max_wait
            &&& s.config.score_base == 0
            &&& forall|port: u16| !(#[trigger] s.config.listen_ports.contains(port))
        }),
        plain_servers(addrs, proto, test_dns, max_wait)[i].addr == addrs[i],
        plain_servers(addrs, proto, test_dns, max_wait).len() == addrs.len(),
{
    crate::number::lemma_unsigned_read_back(addr.port_spec() as nat, u16::MAX as nat);
}

/// What is wrong with the address is told before anything else, and after that
/// what is wrong with the base of the score, the name server, the time to wait,
/// the ports and the protocol, in this order.
pub proof fn lemma_first_fault_is_told(
    section: SectionModel,
    test_dns: SocketAddr,
    max_wait: Duration,
)
    ensures
        ({
            let props = section.props;
            let r = section_result(section, test_dns, max_wait);
            let address = property(props, "address"@);
            let base = property(props, "score base"@);
            let dns = property(props, "test dns"@);
            let wait = property(props, "max wait"@);
            let good_address = address matches Some(s) && crate::net::socket_text(s) is Some;
            let good_base = base matches Some(s) ==> crate::number::signed_text(s) is Some;
            let good_dns = dns matches Some(s) ==> crate::net::socket_text(s) is Some;
            let good_wait = wait matches Some(s) ==> crate::number::unsigned_text(
                s,
                u64::MAX as nat,
            ) is Some;
            let good_ports = property(props, "listen ports"@) matches Some(s) ==> ports_of(
                split_ports(s, 0, Seq::empty()),
            ) is Some;
            &&& address is None ==> r == Some(
                Err::<crate::proxy::ServerModel, ServerListError>(ServerListError::AddressMissing),
            )
            &&& address is Some && !good_address ==> r == Some(
                Err::<crate::proxy::ServerModel, ServerListError>(ServerListError::AddressInvalid),
            )
            &&& good_address && !good_base ==> r == Some(
                Err::<crate::proxy::ServerModel, ServerListError>(
                    ServerListError::ScoreBaseInvalid,
                ),
            )
            &&& good_address && good_base && !good_dns ==> r == Some(
                Err::<crate::proxy::ServerModel, ServerListError>(ServerListError::TestDnsInvalid),
            )
            &&& good_address && good_base && good_dns && !good_wait ==> r == Some(
                Err::<crate::proxy::ServerModel, ServerListError>(ServerListError::MaxWaitInvalid),
            )
            &&& good_address && good_base && good_dns && good_wait && !good_ports ==> r == Some(
                Err::<crate::proxy::ServerModel, ServerListError>(ServerListError::PortInvalid),
            )
            &&& good_address && good_base && good_dns && good_wait && good_ports && property(
                props,
                "protocol"@,
            ) is None ==> r == Some(
                Err::<crate::proxy::ServerModel, ServerListError>(
                    ServerListError::ProtocolMissing,
                ),
            )
        }),
{
    reveal(section_result);
}

} // verus!
