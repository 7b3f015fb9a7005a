use moproxy::net::{parse_socket_addr, IpAddr, Ipv4Addr, Ipv6Addr, SocketAddr};
use moproxy::proxy::score::{error_rate_of, next_average_of, penalty_of};
use moproxy::proxy::{
    Address, AtomicTraffic, Delay, Destination, PortSet, ProxyProto, ProxyServer,
    ProxyServerStatus, Traffic, UserPassAuthCredential,
};
use moproxy::time::Duration;

fn addr(s: &str) -> SocketAddr {
    parse_socket_addr(s).unwrap()
}

fn server(tag: Option<&str>, base: Option<i32>) -> ProxyServer {
    ProxyServer::new(
        addr("127.0.0.1:2001"),
        ProxyProto::socks5(false),
        addr("8.8.8.8:53"),
        Duration::from_secs(4),
        None,
        tag,
        base,
    )
}

#[test]
fn penalties_are_those_of_single_precision() {
    let reference =
        |score: i32, rate: u8| (score as f32 * (rate as f32 / 64f32) * 10f32).round() as i32;
    let scores = [
        0, 1, 2, 3, 7, 10, 33, 99, 100, 101, 250, 1000, 4095, 4097, 12345, 65535, 1_000_003,
        16_777_215, 16_777_216, 16_777_217, 16_777_219, 123_456_789, 2_000_000_001, i32::MAX, -1,
        -3, -77, -12345, -16_777_217, -123_456_789, i32::MIN,
    ];
    for score in scores {
        for rate in 0u8..=64 {
            assert_eq!(reference(score, rate), penalty_of(score, rate), "{} {}", score, rate);
        }
    }
    let mut score = 5i32;
    while score < 200_000_000 {
        for rate in [1u8, 4, 7, 13, 32, 63] {
            assert_eq!(reference(score, rate), penalty_of(score, rate), "{} {}", score, rate);
        }
        score = score * 3 / 2 + 1;
    }
}

#[test]
fn the_lower_one_of_two_error_rates_counts() {
    let reference = |history: u64| {
        let short = (history << 48).count_ones() as f32 / 16f32;
        let long = history.count_ones() as f32 / 64f32;
        short.min(long)
    };
    for history in [0, 1, 0xffff, 0xff0000, u64::MAX, 0xaaaa_aaaa_aaaa_aaaa, 0x8000_0000_0000_0000] {
        assert_eq!(reference(history), error_rate_of(history) as f32 / 64f32);
    }
}

#[test]
fn scores_follow_the_delays() {
    let mut s = server(None, Some(5));
    assert_eq!(None, s.score());
    s.update_delay(Some(Duration::from_millis(100)));
    assert_eq!(Some(105), s.score());
    assert_eq!(Delay::Known(Duration::from_millis(100)), s.status_snapshot().delay);
    // (105 * 8 + 205 * 2) / 10
    s.update_delay(Some(Duration::from_millis(200)));
    assert_eq!(Some(125), s.score());
    // (125 * 9 + 15) / 10
    s.update_delay(Some(Duration::from_millis(10)));
    assert_eq!(Some(114), s.score());
    s.update_delay(None);
    assert_eq!(None, s.score());
    assert_eq!(Delay::TimedOut, s.status_snapshot().delay);
    // (4005 * 9 + 105) / 10
    s.update_delay(Some(Duration::from_millis(100)));
    assert_eq!(Some(3615), s.score());
    assert_eq!(s.score_after(Duration::from_millis(100)), Some(3264));
    s.update_delay_with_score(Some(Duration::from_millis(1)), Some(-7));
    assert_eq!(Some(-7), s.score());
}

#[test]
fn errors_are_punished() {
    let mut s = server(None, None);
    for _ in 0..4 {
        s.update_stats_conn_open();
        s.update_stats_conn_close(true);
    }
    let status = s.status_snapshot();
    assert_eq!(4, status.conn_total);
    assert_eq!(0, status.conn_alive);
    assert_eq!(4, status.conn_error);
    assert_eq!(4, status.recent_error_count(16));
    assert_eq!(2, status.recent_error_count(2));
    // 4 of 64: 100 + 100 * 0.0625 * 10 = 163; (100 * 8 + 163 * 2) / 10
    s.update_delay(Some(Duration::from_millis(100)));
    assert_eq!(Some(112), s.score());
    assert_eq!(0b11110, s.status_snapshot().close_history);
    s.update_stats_conn_open();
    assert_eq!(1, s.status_snapshot().conn_alive);
    s.update_stats_conn_close(false);
    assert_eq!(4, s.status_snapshot().conn_error);
    assert_eq!(ProxyServerStatus::default().close_history, 0);
    let enormous = server(None, Some(i32::MAX));
    assert_eq!(None, enormous.score_after(Duration::from_millis(1)));
}

#[test]
fn traffic_is_counted() {
    let mut s = server(None, None);
    s.add_traffic(Traffic::from((3, 4)));
    s.add_traffic(Traffic { tx_bytes: 10, rx_bytes: 0 });
    assert_eq!(Traffic { tx_bytes: 13, rx_bytes: 4 }, s.traffic());
    assert_eq!(
        Traffic { tx_bytes: 4, rx_bytes: 6 },
        Traffic { tx_bytes: 1, rx_bytes: 2 } + Traffic { tx_bytes: 3, rx_bytes: 4 }
    );
    let mut counter = AtomicTraffic::default();
    counter.add(Traffic { tx_bytes: usize::MAX, rx_bytes: 1 });
    counter.add(Traffic { tx_bytes: 2, rx_bytes: 1 });
    assert_eq!(Traffic { tx_bytes: 1, rx_bytes: 2 }, counter.read());
}

#[test]
fn servers_have_texts() {
    let s = server(None, None);
    assert_eq!("2001", s.tag);
    assert_eq!("2001 (SOCKSv5 127.0.0.1:2001)", s.to_string());
    let t = server(Some("a.b"), None);
    assert_eq!("moproxy.proxy_servers.a_b.delay", t.graphite_path("delay"));
    assert_eq!("DIRECT", ProxyServer::direct(Duration::from_secs(1)).to_string());
    assert_eq!("__DIRECT__", ProxyServer::direct(Duration::from_secs(1)).tag);
    assert_eq!("HTTP", ProxyProto::http(true, None).to_string());
}

#[test]
fn protocols_are_named_in_any_case() {
    assert!(ProxyProto::from_str("SOCKSv5").unwrap().same(&ProxyProto::socks5(false)));
    assert!(ProxyProto::from_str("Socks5").unwrap().same(&ProxyProto::socks5(false)));
    assert!(ProxyProto::from_str("HTTP").unwrap().same(&ProxyProto::http(false, None)));
    assert!(ProxyProto::from_str("ftp").is_err());
    // the Kelvin sign becomes a common letter
    assert!(ProxyProto::from_str("SOC\u{212a}S5").unwrap().same(&ProxyProto::socks5(false)));
    let a = ProxyProto::socks5_with_auth(UserPassAuthCredential::new("u", "p"));
    let b = ProxyProto::socks5_with_auth(UserPassAuthCredential::new("u", "q"));
    assert!(!a.same(&b));
    assert!(a.same(&a.clone()));
}

#[test]
fn servers_are_told_apart() {
    let mut a = server(Some("x"), None);
    let b = server(Some("x"), Some(9));
    assert!(a.same(&b));
    assert!(!a.same(&server(Some("y"), None)));
    a.copy_config_from(&b);
    a.update_delay(Some(Duration::from_millis(1)));
    assert_eq!(Some(10), a.score());
    assert_eq!(Duration::from_secs(4), a.max_wait());
    assert_eq!(addr("8.8.8.8:53"), a.test_dns());
}

#[test]
fn servers_serve_their_ports() {
    let mut ports = PortSet::new();
    assert!(ports.is_empty());
    ports.insert(2081);
    ports.insert(2081);
    ports.insert(2082);
    assert_eq!(&vec![2081, 2082], ports.listed());
    let s = ProxyServer::new(
        addr("[::1]:80"),
        ProxyProto::http(false, None),
        addr("8.8.8.8:53"),
        Duration::from_secs(4),
        Some(ports),
        None,
        None,
    );
    assert!(s.serve_port(2081));
    assert!(s.serve_port(2082));
    assert!(!s.serve_port(80));
    assert!(server(None, None).serve_port(1));
    assert_eq!("80 (HTTP [::1]:80)", s.to_string());
}

#[test]
fn destinations_have_texts() {
    assert_eq!("example.com:443", Destination::domain("example.com", 443).to_string());
    assert_eq!("1.2.3.4:5", Destination::from(addr("1.2.3.4:5")).to_string());
    let six = Destination::from(addr("[2001:db8::1]:80"));
    assert_eq!("[2001:db8::1]:80", format!("{}:{}", six.host.to_bracketed_string(), six.port));
    assert!(matches!(
        Address::from([1, 2, 3, 4]),
        Address::Ip(IpAddr::V4(Ipv4Addr { bits: 0x01020304 }))
    ));
    let mut bytes = [0u8; 16];
    bytes[15] = 9;
    assert!(matches!(
        Address::from(bytes),
        Address::Ip(IpAddr::V6(Ipv6Addr { bits: 9 }))
    ));
    assert!(matches!(Address::from("x".to_string()), Address::Domain(name) if name == "x"));
}

#[test]
fn delays_are_mapped() {
    assert_eq!(Some(3), Delay::Known(Duration::from_secs(3)).map(|d| d.secs));
    assert_eq!(None, Delay::Unknown.map(|d| d.secs));
    assert_eq!(None, Delay::TimedOut.known());
    assert_eq!(Delay::TimedOut, Delay::from(None));
    assert_eq!(Delay::Unknown, Delay::default());
}

#[test]
fn worse_servers_get_no_better_scores() {
    for last in [0i64, 7, 120, 3000] {
        let mut before = i32::MIN;
        for measured in [0i64, 1, 99, 120, 121, 3000, 100_003] {
            let score = next_average_of(last, measured, 5).unwrap();
            assert!(before <= score);
            before = score;
            assert!(score <= next_average_of(last, measured, 6).unwrap());
        }
    }
}
