//! Connecting through an HTTP proxy server, line by line.

use crate::net::SocketAddr;
use crate::proxy::Destination;
use crate::text::{has_prefix, str_from_utf8, trim};
use vstd::prelude::*;
use vstd::slice::slice_subrange;

verus! {

/// How many bytes of the status line are looked at.
pub const MAX_STATUS: usize = 512;

/// How many bytes of the headers are looked at.
pub const MAX_HEADERS: usize = 8192;

/// Why a server cannot be used.
#[derive(Debug)]
pub enum HandshakeError {
    /// The answer is no text; where it stops being one is not told.
    Encoding,
    /// The server refuses, with this status line.
    Refused(String),
}

impl HandshakeError {
    /// The error in words.
    pub fn message(&self) -> (s: String)
        ensures
            s@ == match *self {
                HandshakeError::Encoding => "fail to parse http response"@,
                HandshakeError::Refused(status) => "proxy return error: "@ + status@,
            },
    {
        match self {
            HandshakeError::Encoding => "fail to parse http response".to_owned(),
            HandshakeError::Refused(status) => {
                let mut s = "proxy return error: ".to_owned();
                s.append(status.as_str());
                s
            },
        }
    }
}

/// The request to connect to an address.
pub fn build_request(addr: &SocketAddr) -> (s: String)
    ensures
        s@ == crate::proxy::http::request_text(
            crate::proxy::DestinationModel {
                host: crate::proxy::AddressModel::Ip(addr.ip_spec()),
                port: addr.port_spec(),
            },
        ),
{
    crate::proxy::http::build_request(&Destination::from(*addr))
}

/// Where the line that starts at `from` ends: behind its line break, or where
/// the bytes end.
pub open spec fn line_end(s: Seq<u8>, from: int) -> int
    decreases s.len() - from,
{
    if from >= s.len() {
        s.len() as int
    } else if s[from] == 10 {
        from + 1
    } else {
        line_end(s, from + 1)
    }
}

/// Finds where a line ends.
pub fn find_line_end(s: &[u8], from: usize) -> (r: usize)
    requires
        from <= s@.len(),
    ensures
        r == line_end(s@, from as int),
        from <= r <= s@.len(),
        from < s@.len() ==> from < r,
{
    let n = s.len();
    let mut i: usize = from;
    while i < n
        invariant
            n == s@.len(),
            from <= i <= n,
            line_end(s@, i as int) == line_end(s@, from as int),
        decreases n - i,
    {
        if s[i] == 10 {
            return i + 1;
        }
        i = i + 1;
    }
    n
}

/// What follows from the first line of the answer.
pub open spec fn status_result(line: Seq<u8>) -> Result<(), Option<Seq<char>>> {
    if !vstd::utf8::valid_utf8(line) {
        Err(None)
    } else {
        let text = vstd::utf8::decode_utf8(line);
        if "HTTP/1.1 2"@.is_prefix_of(text) {
            Ok(())
        } else {
            Err(Some(crate::text::trimmed(text)))
        }
    }
}

/// Whether the server agrees, by the first line of its answer.
pub fn check_status(line: &[u8]) -> (r: Result<(), HandshakeError>)
    ensures
        match status_result(line@) {
            Ok(_) => r is Ok,
            Err(None) => r matches Err(HandshakeError::Encoding),
            Err(Some(text)) => r matches Err(HandshakeError::Refused(s)) && s@ == text,
        },
{
    match str_from_utf8(line) {
        None => Err(HandshakeError::Encoding),
        Some(text) => {
            if has_prefix(text, "HTTP/1.1 2") {
                Ok(())
            } else {
                Err(HandshakeError::Refused(trim(text).to_owned()))
            }
        },
    }
}

/// Whether a line ends the headers: it is text and has nothing but white space.
pub open spec fn is_blank(line: Seq<u8>) -> bool {
    vstd::utf8::valid_utf8(line) && crate::text::trimmed(vstd::utf8::decode_utf8(line)).len() == 0
}

/// Whether a line ends the headers.
pub fn is_end_of_headers(line: &[u8]) -> (r: bool)
    ensures
        r == is_blank(line@),
{
    match str_from_utf8(line) {
        None => false,
        Some(text) => trim(text).unicode_len() == 0,
    }
}

/// Where the headers end that start at `from`: behind the first blank line, or
/// where the bytes end.
pub open spec fn headers_end(s: Seq<u8>, from: int) -> int
    decreases s.len() - from,
    when 0 <= from <= s.len()
    via headers_end_decreases
{
    if from >= s.len() {
        s.len() as int
    } else {
        let end = line_end(s, from);
        if is_blank(s.subrange(from, end)) {
            end
        } else {
            headers_end(s, end)
        }
    }
}

proof fn lemma_line_end(s: Seq<u8>, from: int)
    requires
        0 <= from < s.len(),
    ensures
        from < line_end(s, from) <= s.len(),
    decreases s.len() - from,
{
    reveal_with_fuel(line_end, 2);
    if s[from] != 10 && from + 1 < s.len() {
        lemma_line_end(s, from + 1);
    }
}

#[via_fn]
proof fn headers_end_decreases(s: Seq<u8>, from: int) {
    if from < s.len() {
        lemma_line_end(s, from);
    }
}

/// Finds where the headers end.
pub fn skip_headers(s: &[u8]) -> (r: usize)
    ensures
        r == headers_end(s@, 0),
        r <= s@.len(),
{
    let n = s.len();
    let mut at: usize = 0;
    while at < n
        invariant
            n == s@.len(),
            at <= n,
            headers_end(s@, at as int) == headers_end(s@, 0),
        decreases n - at,
    {
        let end = find_line_end(s, at);
        if is_end_of_headers(slice_subrange(s, at, end)) {
            return end;
        }
        at = end;
    }
    n
}

/// The bytes up to a limit.
pub open spec fn limited(s: Seq<u8>, from: int, max: int) -> Seq<u8> {
    if s.len() - from <= max {
        s.skip(from)
    } else {
        s.subrange(from, from + max)
    }
}

/// How an answer is taken: its first line decides, and its headers are skipped.
/// What comes behind them belongs to the connection.
pub open spec fn answer_result(s: Seq<u8>) -> Result<int, Option<Seq<char>>> {
    let head = limited(s, 0, MAX_STATUS as int);
    let end = line_end(head, 0);
    match status_result(head.take(end)) {
        Err(e) => Err(e),
        Ok(_) => Ok(end + headers_end(limited(s, end, MAX_HEADERS as int), 0)),
    }
}

/// Takes the answer of a server, and says where the data of the connection
/// starts.
pub fn take_answer(s: &[u8]) -> (r: Result<usize, HandshakeError>)
    ensures
        match answer_result(s@) {
            Ok(at) => r matches Ok(n) && n == at && n <= s@.len(),
            Err(None) => r matches Err(HandshakeError::Encoding),
            Err(Some(text)) => r matches Err(HandshakeError::Refused(e)) && e@ == text,
        },
{
    let n = s.len();
    let head = slice_subrange(
        s,
        0,
        if n < MAX_STATUS {
            n
        } else {
            MAX_STATUS
        },
    );
    assert(head@ =~= limited(s@, 0, MAX_STATUS as int));
    let end = find_line_end(head, 0);
    let line = slice_subrange(head, 0, end);
    assert(line@ =~= head@.take(end as int));
    match check_status(line) {
        Err(e) => Err(e),
        Ok(_) => {
            let headers = slice_subrange(
                s,
                end,
                if n - end < MAX_HEADERS {
                    n
                } else {
                    end + MAX_HEADERS
                },
            );
            assert(headers@ =~= limited(s@, end as int, MAX_HEADERS as int));
            Ok(end + skip_headers(headers))
        },
    }
}

// ---- laws ----

/// A server has agreed exactly where its first line starts with the version and a
/// code of the third hundred; otherwise the line is told without white space
/// around it, where it is text.
pub proof fn lemma_first_line_decides(more: Seq<char>, text: Seq<char>, bytes: Seq<u8>)
    ensures
        status_result(vstd::utf8::encode_utf8("HTTP/1.1 2"@ + more)) == Ok::<
            (),
            Option<Seq<char>>,
        >(()),
        text.len() < 10 || text.take(10) != "HTTP/1.1 2"@ ==> status_result(
            vstd::utf8::encode_utf8(text),
        ) == Err::<(), Option<Seq<char>>>(Some(crate::text::trimmed(text))),
        !vstd::utf8::valid_utf8(bytes) ==> status_result(bytes) == Err::<(), Option<Seq<char>>>(
            None,
        ),
{
    reveal_strlit("HTTP/1.1 2");
    let good = "HTTP/1.1 2"@ + more;
    vstd::utf8::encode_utf8_valid_utf8(good);
    vstd::utf8::encode_utf8_decode_utf8(good);
    assert("HTTP/1.1 2"@ =~= good.subrange(0, 10));
    vstd::utf8::encode_utf8_valid_utf8(text);
    vstd::utf8::encode_utf8_decode_utf8(text);
    if "HTTP/1.1 2"@.is_prefix_of(text) {
        assert(text.take(10) =~= text.subrange(0, 10));
    }
}

proof fn lemma_line_end_is(line: Seq<u8>, tail: Seq<u8>, i: int)
    requires
        0 <= i <= line.len(),
        forall|j: int| 0 <= j < line.len() ==> (#[trigger] line[j]) != 10,
        tail.len() > 0 ==> tail[0] == 10,
    ensures
        tail.len() > 0 ==> line_end(line + tail, i) == line.len() + 1,
        tail.len() == 0 ==> line_end(line + tail, i) == line.len(),
    decreases line.len() - i,
{
    let s = line + tail;
    if i < line.len() {
        assert(s[i] == line[i]);
        lemma_line_end_is(line, tail, i + 1);
    } else if tail.len() > 0 {
        assert(s[i] == tail[0]);
    }
}

proof fn lemma_line_end_behind(p: Seq<u8>, s: Seq<u8>, i: int)
    requires
        0 <= i <= s.len(),
    ensures
        line_end(p + s, p.len() + i) == p.len() + line_end(s, i),
    decreases s.len() - i,
{
    let t = p + s;
    if i < s.len() {
        assert(t[p.len() + i] == s[i]);
        if s[i] != 10 {
            lemma_line_end_behind(p, s, i + 1);
        }
    }
}

proof fn lemma_headers_end_behind(p: Seq<u8>, s: Seq<u8>, i: int)
    requires
        0 <= i <= s.len(),
    ensures
        headers_end(p + s, p.len() + i) == p.len() + headers_end(s, i),
    decreases s.len() - i,
{
    let t = p + s;
    if i < s.len() {
        lemma_line_end(s, i);
        lemma_line_end_behind(p, s, i);
        let end = line_end(s, i);
        assert(t.subrange(p.len() + i, p.len() + end) =~= s.subrange(i, end));
        lemma_headers_end_behind(p, s, end);
    }
}

/// The headers end behind the first line that is blank; what stands behind it
/// is not looked at. Where no line is blank they end with the bytes.
pub proof fn lemma_headers_line_by_line(line: Seq<u8>, rest: Seq<u8>)
    requires
        forall|j: int| 0 <= j < line.len() ==> (#[trigger] line[j]) != 10,
    ensures
        is_blank(line.push(10)) ==> headers_end(line.push(10) + rest, 0) == line.len() + 1,
        !is_blank(line.push(10)) ==> headers_end(line.push(10) + rest, 0) == line.len() + 1
            + headers_end(rest, 0),
        headers_end(Seq::empty(), 0) == 0,
        !is_blank(line) ==> headers_end(line, 0) == line.len(),
{
    let p = line.push(10);
    let s = p + rest;
    let tail = seq![10u8] + rest;
    assert(s =~= line + tail);
    lemma_line_end_is(line, tail, 0);
    assert(s.subrange(0, p.len() as int) =~= p);
    lemma_headers_end_behind(p, rest, 0);
    lemma_line_end_is(line, Seq::empty(), 0);
    assert(line + Seq::<u8>::empty() =~= line);
    assert(line.subrange(0, line.len() as int) =~= line);
    assert(headers_end(line, line.len() as int) == line.len());
}

/// Of an answer that agrees, the first line and the headers are taken, and what
/// follows belongs to the connection. An answer that does not agree is refused,
/// whatever follows.
pub proof fn lemma_answer_is_taken(line: Seq<u8>, rest: Seq<u8>)
    requires
        forall|j: int| 0 <= j < line.len() ==> (#[trigger] line[j]) != 10,
        line.len() < 512,
    ensures
        status_result(line.push(10)) is Ok && rest.len() <= 8192 ==> answer_result(
            line.push(10) + rest,
        ) == Ok::<int, Option<Seq<char>>>(line.len() + 1 + headers_end(rest, 0)),
        status_result(line.push(10)) is Ok && rest.len() > 8192 ==> answer_result(
            line.push(10) + rest,
        ) == Ok::<int, Option<Seq<char>>>(line.len() + 1 + headers_end(rest.take(8192), 0)),
        status_result(line.push(10)) matches Err(e) ==> answer_result(line.push(10) + rest) == Err::<
            int,
            Option<Seq<char>>,
        >(e),
{
    let p = line.push(10);
    let s = p + rest;
    let head = limited(s, 0, 512);
    let tail = head.skip(line.len() as int);
    assert(head =~= line + tail);
    assert(tail[0] == 10);
    lemma_line_end_is(line, tail, 0);
    assert(head.take(p.len() as int) =~= p);
    assert(limited(s, p.len() as int, 8192) =~= if rest.len() <= 8192 {
        rest
    } else {
        rest.take(8192)
    });
}

} // verus!
