//! Reading the server name out of a TLS ClientHello.

use crate::text::{bytes_from, read_be16, str_from_utf8};
use vstd::prelude::*;
use vstd::slice::slice_subrange;
use vstd::utf8::*;

verus! {

/// What is kept of a ClientHello.
#[derive(Debug)]
pub struct TlsClientHello<'a> {
    pub server_name: Option<&'a str>,
}

/// One record of the TLS record layer.
#[derive(Debug)]
pub struct TlsRecord<'a> {
    pub content_type: &'a u8,
    pub version_major: &'a u8,
    pub version_minor: &'a u8,
    pub fragment: &'a [u8],
}

/// What reading a ClientHello comes to: nothing where a length inside the
/// message points past the end of the part that it belongs to without being
/// checked, else the server name or the text of the refusal.
pub type HelloResult = Option<Result<Option<Seq<char>>, Seq<char>>>;

/// The length that the record layer announces.
pub open spec fn record_length(data: Seq<u8>) -> int {
    (data[3] | data[4]) as int
}

/// The fragment that a record carries.
pub open spec fn record_fragment(data: Seq<u8>) -> Result<Seq<u8>, Seq<char>> {
    if data.len() < 5 {
        Err("not enough data"@)
    } else if data.len() < record_length(data) + 5 {
        Err("truncated data"@)
    } else {
        Ok(data.subrange(5, 5 + record_length(data)))
    }
}

/// The characters that a server name may hold: ASCII letters and digits, `.`,
/// `-` and `_`.
pub open spec fn is_name_char(c: char) -> bool {
    ||| '0' <= c <= '9'
    ||| 'a' <= c <= 'z'
    ||| 'A' <= c <= 'Z'
    ||| c == '.'
    ||| c == '-'
    ||| c == '_'
}

/// The server name that the bytes of a host name entry spell.
pub open spec fn server_name_of(value: Seq<u8>) -> Result<Seq<char>, Seq<char>> {
    if !valid_utf8(value) {
        Err("server name not utf-8 string"@)
    } else if value.len() > 255 {
        Err("server name too long"@)
    } else if !(forall|i: int|
        0 <= i < decode_utf8(value).len() ==> is_name_char(#[trigger] decode_utf8(value)[i])) {
        Err("illegal char in server name"@)
    } else {
        Ok(decode_utf8(value))
    }
}

/// Reads a list of names; the last host name wins over `name`.
pub open spec fn names_result(data: Seq<u8>, name: Option<Seq<char>>) -> HelloResult
    decreases data.len(),
{
    if data.len() <= 3 {
        Some(Ok(name))
    } else {
        let length = crate::text::be16(data, 1);
        if data.len() < 3 + length {
            None
        } else {
            let remaining = data.skip(3 + length);
            if data[0] == 0 {
                match server_name_of(data.subrange(3, 3 + length)) {
                    Err(e) => Some(Err(e)),
                    Ok(found) => names_result(remaining, Some(found)),
                }
            } else {
                names_result(remaining, name)
            }
        }
    }
}

/// Reads the extensions; the last host name wins over `name`.
pub open spec fn extensions_result(exts: Seq<u8>, name: Option<Seq<char>>) -> HelloResult
    decreases exts.len(),
{
    if exts.len() < 4 {
        Some(Ok(name))
    } else {
        let length = crate::text::be16(exts, 2);
        if exts.len() < 4 + length {
            Some(Err("extension data too long"@))
        } else {
            let ext_data = exts.subrange(4, 4 + length);
            let remaining = exts.skip(4 + length);
            if exts[0] == 0 && exts[1] == 0 {
                if ext_data.len() < 2 {
                    Some(Err("server list too short"@))
                } else {
                    match names_result(ext_data.skip(2), name) {
                        Some(Ok(found)) => extensions_result(remaining, found),
                        other => other,
                    }
                }
            } else {
                extensions_result(remaining, name)
            }
        }
    }
}

/// Reads what follows the compression methods.
pub open spec fn after_compression(s: Seq<u8>) -> HelloResult {
    if s.len() < 2 {
        None
    } else if s.len() < 2 + crate::text::be16(s, 0) {
        Some(Err("extensions too long"@))
    } else {
        extensions_result(s.subrange(2, 2 + crate::text::be16(s, 0)), None)
    }
}

/// Reads what follows the cipher suites.
pub open spec fn after_ciphers(s: Seq<u8>) -> HelloResult {
    if s.len() < 1 {
        None
    } else if s.len() < 1 + s[0] {
        Some(Err("compression methods too long"@))
    } else {
        after_compression(s.skip(1 + s[0]))
    }
}

/// Reads what follows the session id.
pub open spec fn after_session(s: Seq<u8>) -> HelloResult {
    if s.len() < 2 {
        None
    } else if s.len() < 2 + crate::text::be16(s, 0) {
        Some(Err("cipher suite too long"@))
    } else {
        after_ciphers(s.skip(2 + crate::text::be16(s, 0)))
    }
}

/// Reads the body of a ClientHello.
pub open spec fn hello_result(hello: Seq<u8>) -> HelloResult {
    if hello.len() < 1 {
        None
    } else if hello[0] != 3 {
        Some(Err("unsupported client version"@))
    } else if hello.len() < 35 {
        None
    } else if hello.len() < 34 + hello[34] {
        Some(Err("session id too long"@))
    } else if hello.len() < 35 + hello[34] {
        None
    } else {
        after_session(hello.skip(35 + hello[34]))
    }
}

/// The 24-bit length in a handshake header.
pub open spec fn handshake_length(fragment: Seq<u8>) -> int {
    fragment[1] * 65536 + fragment[2] * 256 + fragment[3]
}

/// Reads a handshake message.
pub open spec fn handshake_result(fragment: Seq<u8>) -> HelloResult {
    if fragment.len() < 1 {
        None
    } else if fragment[0] != 1 {
        Some(Err("not client hello"@))
    } else if fragment.len() < 4 {
        None
    } else if fragment.len() < handshake_length(fragment) + 4 {
        Some(Err("fragmented record"@))
    } else {
        hello_result(fragment.subrange(4, 4 + handshake_length(fragment)))
    }
}

/// Reads a whole record that should carry a ClientHello.
pub open spec fn client_hello_result(data: Seq<u8>) -> HelloResult {
    match record_fragment(data) {
        Err(e) => Some(Err(e)),
        Ok(fragment) => if data[1] != 3 {
            Some(Err("unknown tls version"@))
        } else if data[0] != 22 {
            Some(Err("not handshake"@))
        } else {
            handshake_result(fragment)
        },
    }
}

/// Whether an outcome says the same as a specified result.
pub open spec fn agrees(
    r: Option<Result<TlsClientHello<'_>, &'static str>>,
    expected: HelloResult,
) -> bool {
    match expected {
        None => r is None,
        Some(Err(e)) => r matches Some(Err(message)) && message@ == e,
        Some(Ok(None)) => r matches Some(Ok(hello)) && hello.server_name is None,
        Some(Ok(Some(name))) => r matches Some(Ok(hello)) && hello.server_name matches Some(found)
            && found@ == name,
    }
}

/// The view of an optional name.
pub open spec fn name_view(name: Option<&str>) -> Option<Seq<char>> {
    match name {
        None => None,
        Some(s) => Some(s@),
    }
}

/// Splits a record into its header and its fragment.
pub fn parse_tls_record<'a>(data: &'a [u8]) -> (r: Result<TlsRecord<'a>, &'static str>)
    ensures
        match record_fragment(data@) {
            Err(e) => r matches Err(message) && message@ == e,
            Ok(fragment) => r matches Ok(record) && *record.content_type == data@[0]
                && *record.version_major == data@[1] && *record.version_minor == data@[2]
                && record.fragment@ == fragment,
        },
{
    if data.len() < 5 {
        return Err("not enough data");
    }
    let length: usize = (data[3] | data[4]) as usize;
    if data.len() < length + 5 {
        return Err("truncated data");
    }
    Ok(
        TlsRecord {
            content_type: &data[0],
            version_major: &data[1],
            version_minor: &data[2],
            fragment: slice_subrange(data, 5, 5 + length),
        },
    )
}

/// Checks the bytes of a host name entry and hands them back as a name.
pub fn parse_server_name<'a>(value: &'a [u8]) -> (r: Result<&'a str, &'static str>)
    ensures
        match server_name_of(value@) {
            Err(e) => r matches Err(message) && message@ == e,
            Ok(name) => r matches Ok(found) && found@ == name,
        },
{
    let name = match str_from_utf8(value) {
        Some(s) => s,
        None => return Err("server name not utf-8 string"),
    };
    if value.len() > 255 {
        return Err("server name too long");
    }
    let n = name.unicode_len();
    let mut i: usize = 0;
    while i < n
        invariant
            n == name@.len(),
            i <= n,
            name@ == decode_utf8(value@),
            valid_utf8(value@),
            value@.len() <= 255,
            forall|j: int| 0 <= j < i ==> is_name_char(#[trigger] name@[j]),
        decreases n - i,
    {
        let c = name.get_char(i);
        if !(('0' <= c && c <= '9') || ('a' <= c && c <= 'z') || ('A' <= c && c <= 'Z') || c == '.'
            || c == '-' || c == '_') {
            assert(!is_name_char(decode_utf8(value@)[i as int]));
            return Err("illegal char in server name");
        }
        i = i + 1;
    }
    Ok(name)
}

/// Reads a list of names: the last host name in it, or else `name`.
fn scan_names<'a>(list: &'a [u8], name: Option<&'a str>) -> (r: Option<
    Result<Option<&'a str>, &'static str>,
>)
    ensures
        match names_result(list@, name_view(name)) {
            None => r is None,
            Some(Err(e)) => r matches Some(Err(message)) && message@ == e,
            Some(Ok(found)) => r matches Some(Ok(last)) && name_view(last) == found,
        },
{
    let mut data = list;
    let mut server_name = name;
    while data.len() > 3
        invariant
            names_result(data@, name_view(server_name)) == names_result(list@, name_view(name)),
        decreases data@.len(),
    {
        let name_type = data[0];
        let length = read_be16(data, 1);
        if data.len() < 3 + length {
            return None;
        }
        let value = slice_subrange(data, 3, 3 + length);
        data = bytes_from(data, 3 + length);
        if name_type == 0 {
            match parse_server_name(value) {
                Ok(found) => {
                    server_name = Some(found);
                },
                Err(e) => return Some(Err(e)),
            }
        }
    }
    Some(Ok(server_name))
}

/// Reads the extensions of a ClientHello for the last host name in them.
fn scan_extensions<'a>(list: &'a [u8]) -> (r: Option<Result<TlsClientHello<'a>, &'static str>>)
    ensures
        agrees(r, extensions_result(list@, None)),
{
    let mut exts = list;
    let mut server_name: Option<&'a str> = None;
    while exts.len() >= 4
        invariant
            extensions_result(exts@, name_view(server_name)) == extensions_result(list@, None),
        decreases exts@.len(),
    {
        let is_server_name = exts[0] == 0 && exts[1] == 0;
        let length = read_be16(exts, 2);
        if exts.len() < 4 + length {
            return Some(Err("extension data too long"));
        }
        let ext_data = slice_subrange(exts, 4, 4 + length);
        exts = bytes_from(exts, 4 + length);
        if is_server_name {
            if ext_data.len() < 2 {
                return Some(Err("server list too short"));
            }
            match scan_names(bytes_from(ext_data, 2), server_name) {
                None => return None,
                Some(Err(e)) => return Some(Err(e)),
                Some(Ok(found)) => {
                    server_name = found;
                },
            }
        }
    }
    Some(Ok(TlsClientHello { server_name }))
}

/// Reads the body of a ClientHello.
fn scan_hello<'a>(hello: &'a [u8]) -> (r: Option<Result<TlsClientHello<'a>, &'static str>>)
    ensures
        agrees(r, hello_result(hello@)),
{
    if hello.len() < 1 {
        return None;
    }
    // 0..2: client version
    if hello[0] != 3 {
        return Some(Err("unsupported client version"));
    }
    // 2..34: 32-bytes random, ignored
    // 34: 1-byte length of session id
    if hello.len() < 35 {
        return None;
    }
    let length: usize = hello[34] as usize;
    if hello.len() < 34 + length {
        return Some(Err("session id too long"));
    }
    if hello.len() < 35 + length {
        return None;
    }
    let mut remaining = bytes_from(hello, 35 + length);
    // 2-bytes length of cipher suite
    if remaining.len() < 2 {
        return None;
    }
    let length = read_be16(remaining, 0);
    if remaining.len() < 2 + length {
        return Some(Err("cipher suite too long"));
    }
    remaining = bytes_from(remaining, 2 + length);
    // 1-byte length of compression methods
    if remaining.len() < 1 {
        return None;
    }
    let length: usize = remaining[0] as usize;
    if remaining.len() < 1 + length {
        return Some(Err("compression methods too long"));
    }
    remaining = bytes_from(remaining, 1 + length);
    // 2-byte length of extensions
    if remaining.len() < 2 {
        return None;
    }
    let length = read_be16(remaining, 0);
    if remaining.len() < 2 + length {
        return Some(Err("extensions too long"));
    }
    scan_extensions(slice_subrange(remaining, 2, 2 + length))
}

/// Reads a record that should carry a ClientHello. `None` says that a length
/// field inside the message points past the end of the data.
pub fn scan_client_hello<'a>(data: &'a [u8]) -> (r: Option<
    Result<TlsClientHello<'a>, &'static str>,
>)
    ensures
        agrees(r, client_hello_result(data@)),
{
    let record = match parse_tls_record(data) {
        Ok(record) => record,
        Err(e) => return Some(Err(e)),
    };
    let fragment = record.fragment;
    if *record.version_major != 3 {
        return Some(Err("unknown tls version"));
    }
    if *record.content_type != 22 {
        return Some(Err("not handshake"));
    }
    // 0: handshake type
    if fragment.len() < 1 {
        return None;
    }
    if fragment[0] != 1 {
        return Some(Err("not client hello"));
    }
    // 1..4: 3-bytes length
    if fragment.len() < 4 {
        return None;
    }
    let length: usize = (fragment[1] as usize) * 65536 + (fragment[2] as usize) * 256 + (
    fragment[3] as usize);
    if fragment.len() < length + 4 {
        return Some(Err("fragmented record"));
    }
    scan_hello(slice_subrange(fragment, 4, 4 + length))
}

/// Reads a ClientHello whose length fields stay inside the data.
pub fn parse_client_hello<'a>(data: &'a [u8]) -> (r: Result<TlsClientHello<'a>, &'static str>)
    requires
        client_hello_result(data@) is Some,
    ensures
        agrees(Some(r), client_hello_result(data@)),
{
    match scan_client_hello(data) {
        Some(r) => r,
        None => {
            assert(false);
            Err("not enough data")
        },
    }
}

// ---- laws ----

/// An extension of a ClientHello.
pub struct Extension {
    pub kind: u16,
    pub data: Seq<u8>,
}

/// The bytes of an extension.
pub open spec fn extension_bytes(e: Extension) -> Seq<u8> {
    crate::text::be_bytes(e.kind) + crate::text::be_bytes(e.data.len() as u16) + e.data
}

/// The bytes of some extensions.
pub open spec fn extensions_bytes(exts: Seq<Extension>) -> Seq<u8>
    decreases exts.len(),
{
    if exts.len() == 0 {
        Seq::empty()
    } else {
        extension_bytes(exts[0]) + extensions_bytes(exts.skip(1))
    }
}

/// The extension that names the server.
pub open spec fn name_extension(name: Seq<char>) -> Extension {
    let value = encode_utf8(name);
    let entry = seq![0u8] + crate::text::be_bytes(value.len() as u16) + value;
    Extension { kind: 0, data: crate::text::be_bytes(entry.len() as u16) + entry }
}

/// The record that carries the body of a ClientHello.
pub open spec fn record_bytes(body: Seq<u8>) -> Seq<u8> {
    let n = body.len();
    seq![22u8, 3, 1, 0, (n + 4) as u8, 1, 0, 0, n as u8] + body
}

/// What a client says of itself in a ClientHello.
pub struct Hello {
    pub minor: u8,
    pub random: Seq<u8>,
    pub session: Seq<u8>,
    pub ciphers: Seq<u8>,
    pub compression: Seq<u8>,
    pub extensions: Seq<Extension>,
}

impl Hello {
    /// The body of the message.
    pub open spec fn body(self) -> Seq<u8> {
        let exts = extensions_bytes(self.extensions);
        seq![3u8, self.minor] + self.random + seq![self.session.len() as u8] + self.session
            + crate::text::be_bytes(self.ciphers.len() as u16) + self.ciphers
            + seq![self.compression.len() as u8] + self.compression
            + crate::text::be_bytes(exts.len() as u16) + exts
    }

    /// The record that carries the message.
    pub open spec fn record(self) -> Seq<u8> {
        record_bytes(self.body())
    }

    /// Whether the message fits into a record of less than 256 bytes.
    pub open spec fn is_short(self) -> bool {
        self.random.len() == 32 && self.body().len() + 4 < 256
    }
}

/// Whether no extension of a list names a server.
pub open spec fn names_no_server(exts: Seq<Extension>) -> bool {
    forall|i: int| 0 <= i < exts.len() ==> (#[trigger] exts[i]).kind != 0
}

proof fn lemma_other_extension(e: Extension, tail: Seq<u8>, name: Option<Seq<char>>)
    requires
        e.kind != 0,
        e.data.len() < 65536,
    ensures
        extensions_result(extension_bytes(e) + tail, name) == extensions_result(tail, name),
{
    let s = extension_bytes(e) + tail;
    let kind = crate::text::be_bytes(e.kind);
    let length = crate::text::be_bytes(e.data.len() as u16);
    assert(s[0] == kind[0] && s[1] == kind[1] && s[2] == length[0] && s[3] == length[1]);
    assert(crate::text::be16(s, 2) == e.data.len());
    assert(s.skip(4 + e.data.len() as int) =~= tail);
    assert(!(s[0] == 0 && s[1] == 0));
}

proof fn lemma_other_extensions(exts: Seq<Extension>, tail: Seq<u8>, name: Option<Seq<char>>)
    requires
        names_no_server(exts),
        extensions_bytes(exts).len() < 65536,
    ensures
        extensions_result(extensions_bytes(exts) + tail, name) == extensions_result(tail, name),
    decreases exts.len(),
{
    if exts.len() == 0 {
        assert(extensions_bytes(exts) + tail =~= tail);
    } else {
        let others = extensions_bytes(exts.skip(1));
        assert(extensions_bytes(exts) + tail =~= extension_bytes(exts[0]) + (others + tail));
        assert(names_no_server(exts.skip(1))) by {
            assert forall|i: int| 0 <= i < exts.skip(1).len() implies (
            #[trigger] exts.skip(1)[i]).kind != 0 by {
                assert(exts.skip(1)[i] == exts[i + 1]);
            }
        }
        lemma_other_extension(exts[0], others + tail, name);
        lemma_other_extensions(exts.skip(1), tail, name);
    }
}

proof fn lemma_concat(a: Seq<Extension>, b: Seq<Extension>)
    ensures
        extensions_bytes(a + b) == extensions_bytes(a) + extensions_bytes(b),
    decreases a.len(),
{
    if a.len() == 0 {
        assert(a + b =~= b);
        assert(extensions_bytes(a) + extensions_bytes(b) =~= extensions_bytes(b));
    } else {
        lemma_concat(a.skip(1), b);
        assert((a + b).skip(1) =~= a.skip(1) + b);
        assert((a + b)[0] == a[0]);
        assert(extension_bytes(a[0]) + (extensions_bytes(a.skip(1)) + extensions_bytes(b)) =~= (
        extension_bytes(a[0]) + extensions_bytes(a.skip(1))) + extensions_bytes(b));
    }
}

/// Whether a text can be the name of a server.
pub open spec fn is_server_name(name: Seq<char>) -> bool {
    &&& encode_utf8(name).len() <= 255
    &&& forall|i: int| 0 <= i < name.len() ==> is_name_char(#[trigger] name[i])
}

proof fn lemma_name_extension(name: Seq<char>, tail: Seq<u8>)
    requires
        is_server_name(name),
        name.len() > 0,
    ensures
        extensions_result(extension_bytes(name_extension(name)) + tail, None)
            == extensions_result(tail, Some(name)),
{
    let value = encode_utf8(name);
    encode_utf8_valid_utf8(name);
    encode_utf8_decode_utf8(name);
    let e = name_extension(name);
    let s = extension_bytes(e) + tail;
    let length = crate::text::be_bytes(e.data.len() as u16);
    assert(s[2] == length[0] && s[3] == length[1]);
    assert(crate::text::be16(s, 2) == e.data.len());
    assert(s.subrange(4, 4 + e.data.len() as int) =~= e.data);
    assert(s.skip(4 + e.data.len() as int) =~= tail);
    let list = e.data.skip(2);
    let value_length = crate::text::be_bytes(value.len() as u16);
    assert(list =~= seq![0u8] + value_length + value);
    assert(list[1] == value_length[0] && list[2] == value_length[1]);
    assert(crate::text::be16(list, 1) == value.len());
    assert(list.subrange(3, 3 + value.len() as int) =~= value);
    assert(value.len() > 0) by {
        if value.len() == 0 {
            assert(value =~= encode_utf8(Seq::<char>::empty()));
            crate::order::lemma_encoding_injective(name, Seq::<char>::empty());
        }
    }
    assert(names_result(list.skip(3 + value.len() as int), Some(name)) == Some(
        Ok::<Option<Seq<char>>, Seq<char>>(Some(name)),
    ));
    assert(names_result(list, None) == Some(Ok::<Option<Seq<char>>, Seq<char>>(Some(name))));
}

proof fn lemma_after_session(ciphers: Seq<u8>, compression: Seq<u8>, exts: Seq<u8>)
    requires
        ciphers.len() < 256,
        compression.len() < 256,
        exts.len() < 256,
    ensures
        after_session(
            crate::text::be_bytes(ciphers.len() as u16) + ciphers
                + seq![compression.len() as u8] + compression + crate::text::be_bytes(
                exts.len() as u16,
            ) + exts,
        ) == extensions_result(exts, None),
{
    let count = crate::text::be_bytes(ciphers.len() as u16);
    let length = crate::text::be_bytes(exts.len() as u16);
    let s1 = count + ciphers + seq![compression.len() as u8] + compression + length + exts;
    assert(s1[0] == count[0] && s1[1] == count[1]);
    assert(crate::text::be16(s1, 0) == ciphers.len());
    let s2 = s1.skip(2 + ciphers.len() as int);
    assert(s2 =~= seq![compression.len() as u8] + compression + length + exts);
    let s3 = s2.skip(1 + compression.len() as int);
    assert(s3 =~= length + exts);
    assert(s3[0] == length[0] && s3[1] == length[1]);
    assert(crate::text::be16(s3, 0) == exts.len());
    assert(s3.subrange(2, 2 + exts.len() as int) =~= exts);
}

proof fn lemma_body(h: Hello)
    requires
        h.is_short(),
    ensures
        hello_result(h.body()) == extensions_result(extensions_bytes(h.extensions), None),
{
    let body = h.body();
    let exts = extensions_bytes(h.extensions);
    let tail = crate::text::be_bytes(h.ciphers.len() as u16) + h.ciphers
        + seq![h.compression.len() as u8] + h.compression + crate::text::be_bytes(
        exts.len() as u16,
    ) + exts;
    let head = seq![3u8, h.minor] + h.random + seq![h.session.len() as u8] + h.session;
    assert(body =~= head + tail);
    assert(body[0] == head[0] && body[34] == head[34]);
    assert(body.skip(35 + body[34]) =~= tail);
    lemma_after_session(h.ciphers, h.compression, exts);
}

proof fn lemma_fragment(body: Seq<u8>)
    requires
        body.len() + 4 < 256,
    ensures
        client_hello_result(record_bytes(body)) == hello_result(body),
{
    let n = body.len();
    let data = record_bytes(body);
    let low = data[4];
    assert(data[3] == 0 && low == n + 4);
    assert(0u8 | low == low) by (bit_vector);
    let fragment = data.subrange(5, 5 + record_length(data));
    assert(fragment =~= seq![1u8, 0, 0, n as u8] + body);
    assert(fragment.subrange(4, 4 + n as int) =~= body);
}

proof fn lemma_record(h: Hello)
    requires
        h.is_short(),
    ensures
        client_hello_result(h.record()) == extensions_result(
            extensions_bytes(h.extensions),
            None,
        ),
{
    lemma_body(h);
    lemma_fragment(h.body());
}

/// The name of the server is found in a ClientHello that has one, wherever it
/// stands among the extensions.
pub proof fn lemma_server_name_is_found(
    h: Hello,
    before: Seq<Extension>,
    name: Seq<char>,
    after: Seq<Extension>,
)
    requires
        h.is_short(),
        h.extensions == before + seq![name_extension(name)] + after,
        names_no_server(before),
        names_no_server(after),
        is_server_name(name),
        name.len() > 0,
    ensures
        client_hello_result(h.record()) == Some(Ok::<_, Seq<char>>(Some(name))),
{
    lemma_record(h);
    let e = seq![name_extension(name)];
    lemma_concat(before + e, after);
    lemma_concat(before, e);
    reveal_with_fuel(extensions_bytes, 2);
    assert(e.skip(1) =~= Seq::<Extension>::empty());
    assert(extensions_bytes(e) =~= extension_bytes(name_extension(name)));
    let tail = extensions_bytes(after);
    let all = extensions_bytes(h.extensions);
    assert(all =~= extensions_bytes(before) + (extension_bytes(name_extension(name)) + tail));
    assert(all.len() < 256);
    lemma_other_extensions(before, extension_bytes(name_extension(name)) + tail, None);
    lemma_name_extension(name, tail);
    lemma_other_extensions(after, Seq::empty(), Some(name));
    assert(tail + Seq::<u8>::empty() =~= tail);
}

/// No name is found in a ClientHello that has none.
pub proof fn lemma_no_server_name(h: Hello)
    requires
        h.is_short(),
        names_no_server(h.extensions),
    ensures
        client_hello_result(h.record()) == Some(Ok::<Option<Seq<char>>, Seq<char>>(None)),
{
    lemma_record(h);
    assert(extensions_bytes(h.extensions).len() < 256);
    lemma_other_extensions(h.extensions, Seq::empty(), None);
    assert(extensions_bytes(h.extensions) + Seq::<u8>::empty() =~= extensions_bytes(h.extensions));
}

/// Which characters stand in the name of a server: the letters and digits of
/// ASCII, dots, hyphens and underscores.
pub open spec fn has_only_host_chars(name: Seq<char>) -> bool {
    forall|i: int|
        0 <= i < name.len() ==> {
            let c = #[trigger] name[i];
            ('a' <= c && c <= 'z') || ('A' <= c && c <= 'Z') || ('0' <= c && c <= '9') || c == '.'
                || c == '-' || c == '_'
        }
}

/// A name of up to 255 letters and digits of ASCII, dots, hyphens and
/// underscores is read as it is; any other text is refused.
pub proof fn lemma_which_names_are_read(name: Seq<char>)
    ensures
        has_only_host_chars(name) && name.len() <= 255 ==> server_name_of(encode_utf8(name))
            == Ok::<Seq<char>, Seq<char>>(name),
        !has_only_host_chars(name) ==> server_name_of(encode_utf8(name)) is Err,
        name.len() > 255 ==> server_name_of(encode_utf8(name)) is Err,
        !has_only_host_chars(name) && encode_utf8(name).len() <= 255 ==> server_name_of(
            encode_utf8(name),
        ) == Err::<Seq<char>, Seq<char>>("illegal char in server name"@),
        encode_utf8(name).len() > 255 ==> server_name_of(encode_utf8(name)) == Err::<
            Seq<char>,
            Seq<char>,
        >("server name too long"@),
{
    encode_utf8_valid_utf8(name);
    encode_utf8_decode_utf8(name);
    if has_only_host_chars(name) {
        assert(is_ascii_chars(name));
        is_ascii_chars_encode_utf8(name);
    } else {
        let i = choose|i: int|
            0 <= i < name.len() && {
                let c = #[trigger] name[i];
                !(('a' <= c && c <= 'z') || ('A' <= c && c <= 'Z') || ('0' <= c && c <= '9') || c
                    == '.' || c == '-' || c == '_')
            };
        assert(!is_name_char(decode_utf8(encode_utf8(name))[i]));
    }
}

/// Bytes that are no text are no name.
pub proof fn lemma_names_are_text(value: Seq<u8>)
    requires
        !valid_utf8(value),
    ensures
        server_name_of(value) == Err::<Seq<char>, Seq<char>>("server name not utf-8 string"@),
{
}

/// The name of a host is found in a ClientHello that carries it, wherever it
/// stands among the extensions.
pub proof fn lemma_host_name_is_found(
    h: Hello,
    before: Seq<Extension>,
    name: Seq<char>,
    after: Seq<Extension>,
)
    requires
        h.is_short(),
        h.extensions == before + seq![name_extension(name)] + after,
        names_no_server(before),
        names_no_server(after),
        has_only_host_chars(name),
        0 < name.len() <= 255,
    ensures
        client_hello_result(h.record()) == Some(Ok::<_, Seq<char>>(Some(name))),
{
    assert(is_ascii_chars(name));
    is_ascii_chars_encode_utf8(name);
    assert forall|i: int| 0 <= i < name.len() implies is_name_char(#[trigger] name[i]) by {}
    lemma_server_name_is_found(h, before, name, after);
}

proof fn lemma_refused_extension(name: Seq<char>, tail: Seq<u8>)
    requires
        !has_only_host_chars(name),
        encode_utf8(name).len() < 256,
    ensures
        extensions_result(extension_bytes(name_extension(name)) + tail, None) == Some(
            Err::<Option<Seq<char>>, Seq<char>>("illegal char in server name"@),
        ),
{
    let value = encode_utf8(name);
    lemma_which_names_are_read(name);
    let e = name_extension(name);
    let s = extension_bytes(e) + tail;
    let length = crate::text::be_bytes(e.data.len() as u16);
    assert(s[2] == length[0] && s[3] == length[1]);
    assert(crate::text::be16(s, 2) == e.data.len());
    assert(s.subrange(4, 4 + e.data.len() as int) =~= e.data);
    let list = e.data.skip(2);
    let value_length = crate::text::be_bytes(value.len() as u16);
    assert(list =~= seq![0u8] + value_length + value);
    assert(list[1] == value_length[0] && list[2] == value_length[1]);
    assert(crate::text::be16(list, 1) == value.len());
    assert(list.subrange(3, 3 + value.len() as int) =~= value);
    assert(value.len() > 0) by {
        if value.len() == 0 {
            assert(value =~= encode_utf8(Seq::<char>::empty()));
            crate::order::lemma_encoding_injective(name, Seq::<char>::empty());
        }
    }
}

/// A ClientHello that carries a name with any other character is refused.
pub proof fn lemma_other_names_are_refused(
    h: Hello,
    before: Seq<Extension>,
    name: Seq<char>,
    after: Seq<Extension>,
)
    requires
        h.is_short(),
        h.extensions == before + seq![name_extension(name)] + after,
        names_no_server(before),
        !has_only_host_chars(name),
        encode_utf8(name).len() < 256,
    ensures
        client_hello_result(h.record()) == Some(
            Err::<Option<Seq<char>>, Seq<char>>("illegal char in server name"@),
        ),
{
    lemma_record(h);
    let e = seq![name_extension(name)];
    lemma_concat(before + e, after);
    lemma_concat(before, e);
    reveal_with_fuel(extensions_bytes, 2);
    assert(e.skip(1) =~= Seq::<Extension>::empty());
    assert(extensions_bytes(e) =~= extension_bytes(name_extension(name)));
    let tail = extensions_bytes(after);
    let all = extensions_bytes(h.extensions);
    assert(all =~= extensions_bytes(before) + (extension_bytes(name_extension(name)) + tail));
    assert(all.len() < 256);
    lemma_other_extensions(before, extension_bytes(name_extension(name)) + tail, None);
    lemma_refused_extension(name, tail);
}

/// A ClientHello of which some bytes are missing is refused.
pub proof fn lemma_truncated_hello_is_refused(h: Hello, n: int)
    requires
        h.is_short(),
        0 <= n < h.record().len(),
    ensures
        client_hello_result(h.record().take(n)) matches Some(Err(_)),
{
    let data = h.record();
    let part = data.take(n);
    if n >= 5 {
        let low = data[4];
        assert(data[3] == 0 && low == h.body().len() + 4);
        assert(part[3] == data[3] && part[4] == data[4]);
        assert(0u8 | low == low) by (bit_vector);
    }
}

/// What follows a ClientHello does not matter.
pub proof fn lemma_bytes_behind_hello(h: Hello, more: Seq<u8>)
    requires
        h.is_short(),
    ensures
        client_hello_result(h.record() + more) == client_hello_result(h.record()),
{
    let data = h.record();
    let low = data[4];
    assert(data[3] == 0 && low == h.body().len() + 4);
    assert(0u8 | low == low) by (bit_vector);
    let n = record_length(data);
    assert((data + more).subrange(5, 5 + n) =~= data.subrange(5, 5 + n));
}

/// What is no handshake of TLS, or no ClientHello, is refused.
pub proof fn lemma_other_records_are_refused(data: Seq<u8>)
    requires
        data.len() >= 6,
        data[0] != 22 || data[1] != 3 || (data[5] != 1 && (data[3] != 0 || data[4] != 0)),
    ensures
        client_hello_result(data) matches Some(Err(_)),
{
    let a = data[3];
    let b = data[4];
    assert((a | b) == 0 ==> a == 0 && b == 0) by (bit_vector);
}

/// The name of a host of up to 255 characters is found among the extensions,
/// wherever it stands.
pub proof fn lemma_host_name_among_extensions(
    before: Seq<Extension>,
    name: Seq<char>,
    after: Seq<Extension>,
)
    requires
        names_no_server(before),
        names_no_server(after),
        extensions_bytes(before).len() < 65536,
        extensions_bytes(after).len() < 65536,
        has_only_host_chars(name),
        0 < name.len() <= 255,
    ensures
        extensions_result(
            extensions_bytes(before + seq![name_extension(name)] + after),
            None,
        ) == Some(Ok::<Option<Seq<char>>, Seq<char>>(Some(name))),
{
    assert(is_ascii_chars(name));
    is_ascii_chars_encode_utf8(name);
    assert forall|i: int| 0 <= i < name.len() implies is_name_char(#[trigger] name[i]) by {}
    let e = seq![name_extension(name)];
    lemma_concat(before + e, after);
    lemma_concat(before, e);
    reveal_with_fuel(extensions_bytes, 2);
    assert(e.skip(1) =~= Seq::<Extension>::empty());
    assert(extensions_bytes(e) =~= extension_bytes(name_extension(name)));
    let tail = extensions_bytes(after);
    assert(extensions_bytes(before + e + after) =~= extensions_bytes(before) + (extension_bytes(
        name_extension(name),
    ) + tail));
    lemma_other_extensions(before, extension_bytes(name_extension(name)) + tail, None);
    lemma_name_extension(name, tail);
    lemma_other_extensions(after, Seq::empty(), Some(name));
    assert(tail + Seq::<u8>::empty() =~= tail);
}

/// The length of a record is no more than one byte can tell: it is no less than
/// each of the two bytes that announce it, and no more than both together.
pub proof fn lemma_length_of_record(data: Seq<u8>)
    requires
        data.len() >= 5,
    ensures
        0 <= record_length(data) <= 255,
        data[3] <= record_length(data),
        data[4] <= record_length(data),
        record_length(data) <= data[3] + data[4],
        record_fragment(data) matches Ok(fragment) ==> fragment.len() == record_length(data)
            && fragment == data.subrange(5, 5 + record_length(data)),
        record_fragment(data) is Ok <==> data.len() >= 5 + record_length(data),
{
    let a = data[3];
    let b = data[4];
    assert(a <= (a | b) && b <= (a | b) && (a | b) <= a + b) by (bit_vector);
}

/// A part that is announced to be longer than what is there is refused: the
/// message, the cipher suites, the compression methods, the extensions all
/// together and each of them.
pub proof fn lemma_lengths_are_checked(s: Seq<u8>, name: Option<Seq<char>>)
    requires
        s.len() >= 4,
    ensures
        s[0] == 1 && s.len() < 4 + s[1] * 65536 + s[2] * 256 + s[3] ==> handshake_result(s) == Some(
            Err::<Option<Seq<char>>, Seq<char>>("fragmented record"@),
        ),
        s.len() < 2 + s[0] * 256 + s[1] ==> after_session(s) == Some(
            Err::<Option<Seq<char>>, Seq<char>>("cipher suite too long"@),
        ),
        s.len() < 1 + s[0] ==> after_ciphers(s) == Some(
            Err::<Option<Seq<char>>, Seq<char>>("compression methods too long"@),
        ),
        s.len() < 2 + s[0] * 256 + s[1] ==> after_compression(s) == Some(
            Err::<Option<Seq<char>>, Seq<char>>("extensions too long"@),
        ),
        s.len() < 4 + s[2] * 256 + s[3] ==> extensions_result(s, name) == Some(
            Err::<Option<Seq<char>>, Seq<char>>("extension data too long"@),
        ),
{
}

/// Of two names of hosts in a list the last one counts, and a name of another
/// kind does not count.
pub proof fn lemma_last_name_counts(kind: u8, name: Seq<char>, list: Seq<u8>, found: Option<Seq<char>>)
    requires
        has_only_host_chars(name),
        0 < name.len() <= 255,
    ensures
        ({
            let entry = seq![kind, 0u8, name.len() as u8] + encode_utf8(name);
            &&& kind == 0 ==> names_result(entry + list, found) == names_result(list, Some(name))
            &&& kind != 0 ==> names_result(entry + list, found) == names_result(list, found)
            &&& names_result(Seq::empty(), found) == Some(
                Ok::<Option<Seq<char>>, Seq<char>>(found),
            )
        }),
{
    assert(is_ascii_chars(name));
    is_ascii_chars_encode_utf8(name);
    lemma_which_names_are_read(name);
    let value = encode_utf8(name);
    let n = name.len() as int;
    let s = seq![kind, 0u8, name.len() as u8] + value + list;
    assert(s[0] == kind && s[1] == 0 && s[2] == n);
    assert(crate::text::be16(s, 1) == n);
    assert(s.subrange(3, 3 + n) =~= value);
    assert(s.skip(3 + n) =~= list);
}

/// A message of another version is refused, and so are a session that is longer
/// than the message and a list of names without its length.
pub proof fn lemma_other_messages_are_refused(hello: Seq<u8>, a: u8, rest: Seq<u8>)
    requires
        hello.len() >= 35,
    ensures
        hello[0] != 3 ==> hello_result(hello) == Some(
            Err::<Option<Seq<char>>, Seq<char>>("unsupported client version"@),
        ),
        hello[0] == 3 && hello.len() < 34 + hello[34] ==> hello_result(hello) == Some(
            Err::<Option<Seq<char>>, Seq<char>>("session id too long"@),
        ),
        hello[0] == 3 && hello.len() >= 35 + hello[34] ==> hello_result(hello) == after_session(
            hello.skip(35 + hello[34]),
        ),
        extensions_result(seq![0u8, 0, 0, 0] + rest, None) == Some(
            Err::<Option<Seq<char>>, Seq<char>>("server list too short"@),
        ),
        extensions_result(seq![0u8, 0, 0, 1, a] + rest, None) == Some(
            Err::<Option<Seq<char>>, Seq<char>>("server list too short"@),
        ),
        extensions_result(seq![0u8, 0, 0, 2, a, a], None) == Some(
            Ok::<Option<Seq<char>>, Seq<char>>(None),
        ),
{
    let s = seq![0u8, 0, 0, 0] + rest;
    let t = seq![0u8, 0, 0, 1, a] + rest;
    assert(crate::text::be16(s, 2) == 0);
    assert(crate::text::be16(t, 2) == 1);
    assert(s.subrange(4, 4).len() == 0);
    assert(t.subrange(4, 5).len() == 1);
    let u = seq![0u8, 0, 0, 2, a, a];
    assert(crate::text::be16(u, 2) == 2);
    assert(u.subrange(4, 6).skip(2).len() == 0);
    assert(u.skip(6).len() == 0);
    reveal_with_fuel(extensions_result, 2);
}

} // verus!
