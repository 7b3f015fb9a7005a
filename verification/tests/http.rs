use moproxy::http::{build_request as build_plain_request, check_status, skip_headers, take_answer, HandshakeError};
use moproxy::net::parse_socket_addr;
use moproxy::proxy::http::{
    build_request, closing_bytes, judge, opening_bytes, HttpError, HttpStep, ParseFault, ParsedResponse,
    ResponseBuffer,
};
use moproxy::proxy::Destination;

#[test]
fn requests_name_the_destination() {
    let expected = "CONNECT example.com:443 HTTP/1.1\r\nHost: example.com:443\r\nConnection: close\r\n\r\n";
    assert_eq!(expected, build_request(&Destination::domain("example.com", 443)));
    let six = parse_socket_addr("[2001:db8::1]:80").unwrap();
    let expected =
        "CONNECT [2001:db8::1]:80 HTTP/1.1\r\nHost: [2001:db8::1]:80\r\nConnection: close\r\n\r\n";
    assert_eq!(expected, build_request(&Destination::from(six)));
    assert_eq!(expected, build_plain_request(&six));
    let four = parse_socket_addr("10.0.0.1:8").unwrap();
    assert!(build_plain_request(&four).starts_with("CONNECT 10.0.0.1:8 HTTP/1.1\r\n"));
}

#[test]
fn data_is_sent_with_the_request_or_behind_the_answer() {
    let dest = Destination::domain("a", 1);
    let request = build_request(&dest).into_bytes();
    let mut both = request.clone();
    both.extend(b"data");
    assert_eq!(both, opening_bytes(&dest, Some(b"data"), true));
    assert_eq!(request, opening_bytes(&dest, Some(b"data"), false));
    assert_eq!(request, opening_bytes(&dest, None, true));
    assert_eq!(None, closing_bytes(Some(b"data"), true));
    assert_eq!(Some(&b"data"[..]), closing_bytes(Some(b"data"), false));
    assert_eq!(None, closing_bytes(None, false));
}

#[test]
fn answers_are_judged() {
    assert_eq!(
        Some(HttpStep::Failed(HttpError::Parse(ParseFault::Token))),
        judge(0, 5, ParsedResponse::Invalid(ParseFault::Token))
    );
    assert_eq!(
        Some(HttpStep::More { consume: 5 }),
        judge(0, 5, ParsedResponse::Partial { status: None })
    );
    assert_eq!(
        Some(HttpStep::More { consume: 5 }),
        judge(63_995, 5, ParsedResponse::Partial { status: Some(200) })
    );
    assert_eq!(
        Some(HttpStep::Failed(HttpError::TooLarge)),
        judge(63_996, 5, ParsedResponse::Partial { status: Some(200) })
    );
    assert_eq!(
        Some(HttpStep::Failed(HttpError::Refused { code: 403 })),
        judge(0, 5, ParsedResponse::Partial { status: Some(403) })
    );
    assert_eq!(
        Some(HttpStep::Failed(HttpError::Refused { code: 407 })),
        judge(0, 5, ParsedResponse::Complete { len: 5, code: 407 })
    );
    assert_eq!(
        Some(HttpStep::Established { consume: 2 }),
        judge(3, 5, ParsedResponse::Complete { len: 5, code: 200 })
    );
    assert_eq!(None, judge(6, 5, ParsedResponse::Complete { len: 5, code: 200 }));
}

#[test]
fn the_head_of_an_answer_is_found() {
    let mut response = ResponseBuffer::new();
    assert_eq!(
        Some(HttpStep::Established { consume: 25 }),
        response.advance(b"HTTP/1.1 200 OK\r\nA: b\r\n\r\nrest")
    );
    let mut response = ResponseBuffer::new();
    assert_eq!(
        Some(HttpStep::Failed(HttpError::Refused { code: 502 })),
        response.advance(b"HTTP/1.1 502 Bad Gateway\r\n")
    );
    let mut response = ResponseBuffer::new();
    assert_eq!(
        Some(HttpStep::Failed(HttpError::Parse(ParseFault::Version))),
        response.advance(b"SSH-2.0-OpenSSH\r\n")
    );
    let mut response = ResponseBuffer::new();
    assert_eq!(Some(HttpStep::More { consume: 8 }), response.advance(b"HTTP/1.1"));
    assert_eq!(8, response.bytes_read);
    assert_eq!(&b"HTTP/1.1"[..], &response.buf[..8]);
}

#[test]
fn answers_are_taken_line_by_line() {
    assert!(check_status(b"HTTP/1.1 200 OK\r\n").is_ok());
    assert!(matches!(
        check_status(b"HTTP/1.1 403 Forbidden\r\n"),
        Err(HandshakeError::Refused(line)) if line == "HTTP/1.1 403 Forbidden"
    ));
    assert!(matches!(check_status(b"\xff\n"), Err(HandshakeError::Encoding)));
    let words = |line: &[u8]| check_status(line).unwrap_err().message();
    assert_eq!("fail to parse http response", words(b"\xff\n"));
    assert_eq!("proxy return error: HTTP/1.1 403 Forbidden", words(b"HTTP/1.1 403 Forbidden\r\n"));
    assert_eq!(8, skip_headers(b"A: b\r\n\r\nrest"));
    assert_eq!(3, skip_headers(b" \t\nrest\n\n"));
    assert_eq!(6, skip_headers(b"\xff\xfe\na\n\n"));
    assert_eq!(4, skip_headers(b"rest"));
    let answer = b"HTTP/1.1 200 OK\r\nA: b\r\n\r\nrest";
    assert_eq!(&b"rest"[..], &answer[take_answer(answer).unwrap()..]);
    assert!(take_answer(b"HTTP/1.0 200 OK\r\n\r\n").is_err());
    assert!(take_answer(b"").is_err());
    let mut long = b"HTTP/1.1 200 ".to_vec();
    long.extend([b'x'; 600]);
    long.extend(b"\r\n\r\n");
    assert_eq!(long.len(), take_answer(&long).unwrap());
}

#[test]
fn faults_of_an_answer_are_told() {
    let fault = |bytes: &[u8]| ResponseBuffer::new().advance(bytes);
    let parse = |fault| Some(HttpStep::Failed(HttpError::Parse(fault)));
    assert_eq!(parse(ParseFault::Version), fault(b"HTTP/3.9 200 OK\r\n\r\n"));
    assert_eq!(parse(ParseFault::Status), fault(b"HTTP/1.1 2x0 OK\r\n\r\n"));
    assert_eq!(parse(ParseFault::HeaderName), fault(b"HTTP/1.1 200 OK\r\nA b: c\r\n\r\n"));
    assert_eq!(parse(ParseFault::HeaderValue), fault(b"HTTP/1.1 200 OK\r\nA: b\x00\r\n\r\n"));
    assert_eq!(parse(ParseFault::NewLine), fault(b"HTTP/1.1 200 OK\r\n\rA"));
    let mut many = b"HTTP/1.1 200 OK\r\n".to_vec();
    for _ in 0..17 {
        many.extend(b"A: b\r\n");
    }
    many.extend(b"\r\n");
    assert_eq!(parse(ParseFault::TooManyHeaders), fault(&many));
    assert_eq!("invalid HTTP version", HttpError::Parse(ParseFault::Version).message());
    assert_eq!("too many headers", ParseFault::TooManyHeaders.message());
    assert_eq!("invalid token", ParseFault::Token.message());
    assert_eq!("proxy return error: 407", HttpError::Refused { code: 407 }.message());
    assert_eq!("response too large", HttpError::TooLarge.message());
}
