//! Connecting through an HTTP proxy server.

use super::Destination;
use crate::text::{push_bytes, push_dec};
use httparse::{Error, Response, Status, EMPTY_HEADER};
use vstd::prelude::*;

verus! {

/// How many more bytes are looked at in one go.
pub const BUF_LEN: usize = 1024;

/// How many bytes an answer may have that is not complete.
pub const MAX_RESPONSE: usize = 64_000;

/// The host and port as the request names them: an IPv6 address is in brackets.
pub open spec fn authority(d: super::DestinationModel) -> Seq<char> {
    super::bracketed_host_text(d.host).push(':') + crate::text::dec(d.port as nat)
}

/// The request to connect to a destination.
pub open spec fn request_text(d: super::DestinationModel) -> Seq<char> {
    "CONNECT "@ + authority(d) + " HTTP/1.1\r\nHost: "@ + authority(d)
        + "\r\nConnection: close\r\n\r\n"@
}

/// The request to connect to a destination.
pub fn build_request(addr: &Destination) -> (s: String)
    ensures
        s@ == request_text(addr@),
{
    let mut host = addr.host.to_bracketed_string();
    host.push(':');
    push_dec(&mut host, addr.port as u64);
    let mut s = "CONNECT ".to_owned();
    s.append(host.as_str());
    s.append(" HTTP/1.1\r\nHost: ");
    s.append(host.as_str());
    s.append("\r\nConnection: close\r\n\r\n");
    s
}

/// What is sent at first: the request, and with it the client's data where that
/// is allowed.
pub open spec fn opening(
    d: super::DestinationModel,
    data: Option<Seq<u8>>,
    with_payload: bool,
) -> Seq<u8> {
    let request = vstd::utf8::encode_utf8(request_text(d));
    match data {
        Some(data) if with_payload => request + data,
        _ => request,
    }
}

/// What is sent once the server has agreed: the client's data, unless it was
/// sent before.
pub open spec fn closing(data: Option<Seq<u8>>, with_payload: bool) -> Option<Seq<u8>> {
    if with_payload {
        None
    } else {
        data
    }
}

/// The client's data is sent once, at first or at last.
pub proof fn lemma_data_is_sent_once(
    d: super::DestinationModel,
    data: Seq<u8>,
    with_payload: bool,
)
    ensures
        opening(d, Some(data), with_payload) + closing(Some(data), with_payload).unwrap_or(
            Seq::empty(),
        ) == vstd::utf8::encode_utf8(request_text(d)) + data,
{
    assert(opening(d, Some(data), with_payload) + closing(Some(data), with_payload).unwrap_or(
        Seq::empty(),
    ) =~= vstd::utf8::encode_utf8(request_text(d)) + data);
}

/// The view of data that may be missing.
pub open spec fn data_view(data: Option<&[u8]>) -> Option<Seq<u8>> {
    match data {
        Some(data) => Some(data@),
        None => None,
    }
}

/// What to send at first.
pub fn opening_bytes(
    addr: &Destination,
    data: Option<&[u8]>,
    with_payload: bool,
) -> (r: Vec<u8>)
    ensures
        r@ == opening(addr@, data_view(data), with_payload),
{
    let request = build_request(addr);
    let mut r: Vec<u8> = Vec::new();
    push_bytes(&mut r, request.as_str().as_bytes());
    assert(r@ =~= vstd::utf8::encode_utf8(request_text(addr@)));
    if let Some(data) = data {
        if with_payload {
            push_bytes(&mut r, data);
        }
    }
    r
}

/// What to send once the server has agreed.
pub fn closing_bytes<'a>(data: Option<&'a [u8]>, with_payload: bool) -> (r: Option<&'a [u8]>)
    ensures
        data_view(r) == closing(data_view(data), with_payload),
{
    if with_payload {
        None
    } else {
        data
    }
}

/// Where bytes break the rules for the head of an answer.
#[derive(Debug, Clone, Copy, PartialEq, Eq, Structural)]
pub enum ParseFault {
    HeaderName,
    HeaderValue,
    NewLine,
    Status,
    Token,
    TooManyHeaders,
    Version,
}

/// What was found at the start of some bytes.
#[derive(Debug, Clone, Copy, PartialEq, Eq, Structural)]
pub enum ParsedResponse {
    /// No answer of a web server.
    Invalid(ParseFault),
    /// A part of an answer; its code, where that is there.
    Partial { status: Option<u16> },
    /// The head of an answer, its length and its code.
    Complete { len: usize, code: u16 },
}

/// What the parser finds at the start of some bytes.
pub uninterp spec fn response_head(bytes: Seq<u8>) -> ParsedResponse;

/// `httparse::Response::parse`, with room for 16 headers, looks for the head of
/// an answer at the start of some bytes, and tells what is wrong where there can
/// be none. A complete head has a code and is no longer than the bytes.
#[verifier::external_body]
fn parse_response(bytes: &[u8]) -> (r: ParsedResponse)
    ensures
        r == response_head(bytes@),
        r matches ParsedResponse::Complete { len, .. } ==> len <= bytes@.len(),
{
    let mut headers = [EMPTY_HEADER; 16];
    let mut response = Response::new(&mut headers);
    match (response.parse(bytes), response.code) {
        (Ok(Status::Partial), status) => ParsedResponse::Partial { status },
        (Ok(Status::Complete(len)), c) => ParsedResponse::Complete { len, code: c.unwrap() },
        (Err(e), _) => ParsedResponse::Invalid(match e {
            Error::HeaderName => ParseFault::HeaderName,
            Error::HeaderValue => ParseFault::HeaderValue,
            Error::NewLine => ParseFault::NewLine,
            Error::Status => ParseFault::Status,
            Error::Token => ParseFault::Token,
            Error::TooManyHeaders => ParseFault::TooManyHeaders,
            Error::Version => ParseFault::Version,
        }),
    }
}

/// Why a server cannot be used.
#[derive(Debug, Clone, Copy, PartialEq, Eq, Structural)]
pub enum HttpError {
    /// The server does not answer as a web server does.
    Parse(ParseFault),
    /// The server refuses.
    Refused { code: u16 },
    /// The answer does not end.
    TooLarge,
}

/// A fault in words.
pub open spec fn fault_text(fault: ParseFault) -> Seq<char> {
    match fault {
        ParseFault::HeaderName => "invalid header name"@,
        ParseFault::HeaderValue => "invalid header value"@,
        ParseFault::NewLine => "invalid new line"@,
        ParseFault::Status => "invalid response status"@,
        ParseFault::Token => "invalid token"@,
        ParseFault::TooManyHeaders => "too many headers"@,
        ParseFault::Version => "invalid HTTP version"@,
    }
}

impl ParseFault {
    /// The fault in words.
    pub fn message(&self) -> (s: &'static str)
        ensures
            s@ == fault_text(*self),
    {
        match self {
            ParseFault::HeaderName => "invalid header name",
            ParseFault::HeaderValue => "invalid header value",
            ParseFault::NewLine => "invalid new line",
            ParseFault::Status => "invalid response status",
            ParseFault::Token => "invalid token",
            ParseFault::TooManyHeaders => "too many headers",
            ParseFault::Version => "invalid HTTP version",
        }
    }
}

impl HttpError {
    /// The error in words.
    pub fn message(&self) -> (s: String)
        ensures
            s@ == match *self {
                HttpError::Parse(fault) => fault_text(fault),
                HttpError::Refused { code } => "proxy return error: "@ + crate::text::dec(
                    code as nat,
                ),
                HttpError::TooLarge => "response too large"@,
            },
    {
        match self {
            HttpError::Parse(fault) => fault.message().to_owned(),
            HttpError::Refused { code } => {
                let mut s = "proxy return error: ".to_owned();
                push_dec(&mut s, *code as u64);
                s
            },
            HttpError::TooLarge => "response too large".to_owned(),
        }
    }
}

/// What comes next.
#[derive(Debug, Clone, Copy, PartialEq, Eq, Structural)]
pub enum HttpStep {
    /// Take as many bytes off the stream and look at more.
    More { consume: usize },
    /// Take as many bytes off the stream: the server has agreed.
    Established { consume: usize },
    /// Give up.
    Failed(HttpError),
}

/// What comes next once `peeked` bytes were looked at behind `before` others.
/// None where the answer ends before the bytes that were looked at last.
pub open spec fn judgement(before: nat, peeked: nat, parsed: ParsedResponse) -> Option<HttpStep> {
    match parsed {
        ParsedResponse::Invalid(fault) => Some(HttpStep::Failed(HttpError::Parse(fault))),
        ParsedResponse::Partial { status } => match status {
            Some(code) if code != 200 => Some(HttpStep::Failed(HttpError::Refused { code })),
            _ => if before + peeked > MAX_RESPONSE {
                Some(HttpStep::Failed(HttpError::TooLarge))
            } else {
                Some(HttpStep::More { consume: peeked as usize })
            },
        },
        ParsedResponse::Complete { len, code } => if code != 200 {
            Some(HttpStep::Failed(HttpError::Refused { code }))
        } else if len < before || len > before + peeked {
            None
        } else {
            Some(HttpStep::Established { consume: (len - before) as usize })
        },
    }
}

/// Decides what comes next.
pub fn judge(before: usize, peeked: usize, parsed: ParsedResponse) -> (r: Option<HttpStep>)
    requires
        before + peeked <= usize::MAX,
    ensures
        r == judgement(before as nat, peeked as nat, parsed),
{
    match parsed {
        ParsedResponse::Invalid(fault) => Some(HttpStep::Failed(HttpError::Parse(fault))),
        ParsedResponse::Partial { status } => {
            if let Some(code) = status {
                if code != 200 {
                    return Some(HttpStep::Failed(HttpError::Refused { code }));
                }
            }
            if before + peeked > MAX_RESPONSE {
                Some(HttpStep::Failed(HttpError::TooLarge))
            } else {
                Some(HttpStep::More { consume: peeked })
            }
        },
        ParsedResponse::Complete { len, code } => if code != 200 {
            Some(HttpStep::Failed(HttpError::Refused { code }))
        } else if len < before || len > before + peeked {
            None
        } else {
            Some(HttpStep::Established { consume: len - before })
        },
    }
}

/// A connection is established with code 200 only, and never more bytes are
/// taken off the stream than were looked at.
pub proof fn lemma_established_means_agreed(before: nat, peeked: nat, parsed: ParsedResponse)
    requires
        before + peeked <= usize::MAX,
    ensures
        judgement(before, peeked, parsed) matches Some(HttpStep::Established { consume }) ==> {
            &&& consume <= peeked
            &&& parsed matches ParsedResponse::Complete { code, .. } && code == 200
        },
        judgement(before, peeked, parsed) matches Some(HttpStep::More { consume }) ==> consume
            == peeked,
{
}

/// The answer of a server as far as it was looked at.
#[derive(Debug)]
pub struct ResponseBuffer {
    pub buf: Vec<u8>,
    pub bytes_read: usize,
}

/// A list made longer or shorter; new bytes are zero.
pub open spec fn resized(s: Seq<u8>, n: nat) -> Seq<u8> {
    Seq::new(
        n,
        |i: int|
            if i < s.len() {
                s[i]
            } else {
                0u8
            },
    )
}

/// A list with other bytes at its start.
pub open spec fn overwritten(s: Seq<u8>, head: Seq<u8>) -> Seq<u8> {
    head + s.skip(head.len() as int)
}

/// What lies in the buffer once further bytes were looked at. They are put at
/// the start of the buffer.
pub open spec fn looked_at(buf: Seq<u8>, bytes_read: nat, peeked: Seq<u8>) -> Seq<u8> {
    overwritten(resized(buf, bytes_read + BUF_LEN as nat), peeked)
}

impl ResponseBuffer {
    /// Nothing was looked at yet.
    pub fn new() -> (r: ResponseBuffer)
        ensures
            r.buf@ == Seq::<u8>::empty(),
            r.bytes_read == 0,
    {
        ResponseBuffer { buf: Vec::new(), bytes_read: 0 }
    }

    /// Takes further bytes and decides what comes next. None where the answer
    /// ends before the bytes that were looked at last.
    pub fn advance(&mut self, peeked: &[u8]) -> (r: Option<HttpStep>)
        requires
            old(self).bytes_read <= MAX_RESPONSE,
            peeked@.len() <= BUF_LEN,
        ensures
            final(self).buf@ == looked_at(old(self).buf@, old(self).bytes_read as nat, peeked@),
            final(self).bytes_read == old(self).bytes_read + peeked@.len(),
            r == judgement(
                old(self).bytes_read as nat,
                peeked@.len(),
                response_head(final(self).buf@.take(final(self).bytes_read as int)),
            ),
            r matches Some(HttpStep::More { .. }) ==> final(self).bytes_read <= MAX_RESPONSE,
    {
        let before = self.bytes_read;
        let size = before + BUF_LEN;
        let n = peeked.len();
        let mut buf: Vec<u8> = Vec::new();
        push_bytes(&mut buf, peeked);
        assert(buf@ =~= peeked@);
        let mut i: usize = n;
        while i < size
            invariant
                n == peeked@.len(),
                n <= i <= size,
                size == before + BUF_LEN,
                buf@ == looked_at(self.buf@, before as nat, peeked@).take(i as int),
            decreases size - i,
        {
            if i < self.buf.len() {
                buf.push(self.buf[i]);
            } else {
                buf.push(0);
            }
            i = i + 1;
            assert(buf@ =~= looked_at(self.buf@, before as nat, peeked@).take(i as int));
        }
        assert(buf@ =~= looked_at(self.buf@, before as nat, peeked@));
        let parsed = parse_response(vstd::slice::slice_subrange(buf.as_slice(), 0, before + n));
        assert(buf@.subrange(0, before + n) =~= buf@.take(before + n));
        self.buf = buf;
        self.bytes_read = before + n;
        judge(before, n, parsed)
    }
}

// ---- laws ----

/// The request names the host and the port twice, and is over with an empty
/// line.
pub proof fn lemma_request_names_host_and_port(name: Seq<char>, port: u16)
    ensures
        ({
            let d = super::DestinationModel { host: super::AddressModel::Domain(name), port };
            let place = name + seq![':'] + crate::text::dec(port as nat);
            request_text(d) == "CONNECT "@ + place + " HTTP/1.1\r\nHost: "@ + place
                + "\r\nConnection: close\r\n\r\n"@
        }),
{
    let place = name + seq![':'] + crate::text::dec(port as nat);
    assert(name.push(':') + crate::text::dec(port as nat) =~= place);
}

/// The client's data goes with the request only where that is allowed, and is
/// sent behind the answer only where it was not.
pub proof fn lemma_when_data_is_sent(d: super::DestinationModel, data: Seq<u8>)
    ensures
        opening(d, Some(data), false) == opening(d, None, false),
        opening(d, None, true) == opening(d, None, false),
        opening(d, Some(data), true) == opening(d, None, false) + data,
        closing(Some(data), false) == Some(data),
        closing(Some(data), true) is None,
        closing(None, false) is None,
{
}

/// Only the code 200 means that the server has agreed. A head that ends among the
/// bytes looked at last is taken off the stream to its end, and not further.
pub proof fn lemma_answer_is_judged(
    before: usize,
    peeked: usize,
    len: usize,
    code: u16,
    fault: ParseFault,
)
    requires
        before + peeked <= usize::MAX,
    ensures
        ({
            let complete = judgement(
                before as nat,
                peeked as nat,
                ParsedResponse::Complete { len, code },
            );
            let partial = judgement(
                before as nat,
                peeked as nat,
                ParsedResponse::Partial { status: Some(code) },
            );
            let unclear = judgement(
                before as nat,
                peeked as nat,
                ParsedResponse::Partial { status: None },
            );
            &&& code != 200 ==> complete == Some(HttpStep::Failed(HttpError::Refused { code }))
            &&& code != 200 ==> partial == Some(HttpStep::Failed(HttpError::Refused { code }))
            &&& code == 200 && before <= len <= before + peeked ==> complete == Some(
                HttpStep::Established { consume: (len - before) as usize },
            )
            &&& before + peeked > 64_000 ==> unclear == Some(HttpStep::Failed(HttpError::TooLarge))
            &&& before + peeked <= 64_000 ==> unclear == Some(HttpStep::More { consume: peeked })
            &&& code == 200 ==> partial == unclear
            &&& judgement(before as nat, peeked as nat, ParsedResponse::Invalid(fault)) == Some(
                HttpStep::Failed(HttpError::Parse(fault)),
            )
        }),
{
}

/// The bytes looked at last stand at the start of the buffer, and behind them
/// what stood there before.
pub proof fn lemma_buffer_after_look(
    buf: Seq<u8>,
    bytes_read: nat,
    peeked: Seq<u8>,
    i: int,
)
    requires
        peeked.len() <= 1024,
        0 <= i < bytes_read + 1024,
    ensures
        looked_at(buf, bytes_read, peeked).len() == bytes_read + 1024,
        i < peeked.len() ==> looked_at(buf, bytes_read, peeked)[i] == peeked[i],
        peeked.len() <= i < buf.len() ==> looked_at(buf, bytes_read, peeked)[i] == buf[i],
        peeked.len() <= i && buf.len() <= i ==> looked_at(buf, bytes_read, peeked)[i] == 0,
{
}

} // verus!
