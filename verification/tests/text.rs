use moproxy::lines::lines_of;
use moproxy::net::{canonical, parse_ip, parse_socket_addr, IpAddr, Ipv4Addr, Ipv6Addr};
use moproxy::number::{parse_bool, parse_i32, parse_unsigned};
use moproxy::order::{standing, Standing};
use moproxy::text::{dec_string, replace_char, trim};

#[test]
fn lines_end_with_line_feeds() {
    assert_eq!(vec![Some("a"), Some("b")], lines_of(b"a\nb"));
    assert_eq!(vec![Some("a"), Some("")], lines_of(b"a\r\n\n"));
    assert_eq!(vec![Some("a\r")], lines_of(b"a\r"));
    assert_eq!(vec![Some("x"), None], lines_of(b"x\n\xff"));
    assert!(lines_of(b"").is_empty());
}

#[test]
fn numbers_are_read() {
    assert_eq!(Some(65535), parse_unsigned("65535", 65535));
    assert_eq!(Some(7), parse_unsigned("+007", 65535));
    assert_eq!(None, parse_unsigned("65536", 65535));
    assert_eq!(None, parse_unsigned("", 65535));
    assert_eq!(None, parse_unsigned("+", 65535));
    assert_eq!(None, parse_unsigned("-1", 65535));
    assert_eq!(None, parse_unsigned(" 1", 65535));
    assert_eq!(Some(i32::MIN), parse_i32("-2147483648"));
    assert_eq!(None, parse_i32("2147483648"));
    assert_eq!(Some(true), parse_bool("true"));
    assert_eq!(Some(false), parse_bool("false"));
    assert_eq!(None, parse_bool("True"));
    assert_eq!("18446744073709551615", dec_string(u64::MAX));
    assert_eq!("0", dec_string(0));
}

#[test]
fn texts_are_trimmed() {
    assert_eq!("a b", trim(" \t\r\na b\u{b}\u{c} "));
    assert_eq!("", trim(" \n"));
    assert_eq!("x", trim("\u{3000}x\u{a0}\u{2003}"));
    assert_eq!("\u{200b}", trim("\u{200b}"));
    assert_eq!("a_b_", replace_char("a.b.", '.', '_'));
}

#[test]
fn strings_are_ordered_by_bytes() {
    assert_eq!(Standing::Before, standing("a", "b"));
    assert_eq!(Standing::Before, standing("a", "aa"));
    assert_eq!(Standing::After, standing("b", "aa"));
    assert_eq!(Standing::Same, standing("é", "é"));
    assert_eq!(Standing::Before, standing("z", "é"));
}

#[test]
fn addresses_are_read() {
    assert_eq!(Some(IpAddr::V4(Ipv4Addr { bits: 0x7f000001 })), parse_ip("127.0.0.1"));
    assert_eq!(Some(IpAddr::V6(Ipv6Addr { bits: 0 })), parse_ip("::"));
    assert_eq!(
        Some(IpAddr::V6(Ipv6Addr { bits: 0x20010db8_00000000_00000000_00000001 })),
        parse_ip("2001:DB8::1")
    );
    assert_eq!(
        Some(IpAddr::V6(Ipv6Addr { bits: 0xffff_7f000001 })),
        parse_ip("::ffff:127.0.0.1")
    );
    assert_eq!(
        Some(IpAddr::V6(Ipv6Addr { bits: 0x00010002_00030004_00050006_00070008 })),
        parse_ip("1:2:3:4:5:6:7:8")
    );
    for bad in [
        "", "1.2.3", "1.2.3.256", "01.2.3.4", "1.2.3.4.5", "1.2.3.4 ", ":::", "1::2::3", "1:2",
        "12345::", "1:2:3:4:5:6:7:8:9", "1:2:3:4:5:6:7::8", "::1%1", "g::",
    ] {
        assert_eq!(None, parse_ip(bad), "{}", bad);
    }
    assert_eq!(
        Some(IpAddr::V4(Ipv4Addr { bits: 0x01020304 })),
        parse_ip("::ffff:1.2.3.4").map(canonical)
    );
}

#[test]
fn addresses_are_written() {
    for (text, expected) in [
        ("1.2.3.4", "1.2.3.4"),
        ("0:0:0:0:0:0:0:0", "::"),
        ("0:0:0:0:0:0:0:1", "::1"),
        ("1:0:0:0:0:0:0:0", "1::"),
        ("1:0:0:2:0:0:0:3", "1:0:0:2::3"),
        ("1:0:0:2:3:0:0:4", "1::2:3:0:0:4"),
        ("2001:db8:0:1:1:1:1:1", "2001:db8:0:1:1:1:1:1"),
        ("::ffff:102:304", "::ffff:1.2.3.4"),
        ("ABCD:ef01::", "abcd:ef01::"),
    ] {
        assert_eq!(expected, parse_ip(text).unwrap().to_string());
    }
    for text in ["1.2.3.4:0", "255.255.255.255:65535", "[::1]:80", "[2001:db8::1]:443"] {
        assert_eq!(text, parse_socket_addr(text).unwrap().to_string());
    }
    for bad in ["1.2.3.4", "1.2.3.4:", "1.2.3.4:65536", "::1:80", "[::1]", "localhost:80"] {
        assert_eq!(None, parse_socket_addr(bad), "{}", bad);
    }
}
