use moproxy::monitor::traffic::Throughput;
use moproxy::monitor::Monitor;
use moproxy::net::{parse_socket_addr, SocketAddr};
use moproxy::proxy::{ProxyProto, ProxyServer, Traffic};
use moproxy::time::Duration;
use moproxy::web::helpers::{DurationExt, RequestExt, RequestHeaders};
use moproxy::web::prometheus::exporter;
use moproxy::web::{
    basic_route, plaintext_status, response, route, BasicPage, Contents, ListenAddr, Page,
    Resource, ServerTexts, Status, WebServer,
};

fn addr(s: &str) -> SocketAddr {
    parse_socket_addr(s).unwrap()
}

fn server(tag: &str) -> ProxyServer {
    ProxyServer::new(
        addr("127.0.0.1:2001"),
        ProxyProto::socks5(false),
        addr("8.8.8.8:53"),
        Duration::from_secs(4),
        None,
        Some(tag),
        None,
    )
}

fn headers(accept: Option<&str>, agent: Option<&str>) -> RequestHeaders {
    RequestHeaders {
        accept: accept.map(|s| s.to_string()),
        user_agent: agent.map(|s| s.to_string()),
    }
}

#[test]
fn browsers_take_html() {
    let html = |accept, agent| headers(accept, agent).accept_html();
    assert!(html(None, None));
    assert!(html(None, Some("Mozilla/5.0 (X11; Linux x86_64)")));
    assert!(!html(None, Some("curl/7.88.1")));
    assert!(!html(None, Some("Lynx/2.9.0 libwww-FM/2.14")));
    assert!(!html(None, Some("Mozilla/5.0 (Windows NT; en-US) WindowsPowerShell/5.1.19041.1")));
    assert!(html(None, Some("PowerShell/")));
    assert!(html(None, Some("PowerShell/5.1 x")));
    assert!(html(None, Some("xcurl/7")));
    assert!(html(None, Some("")));
    assert!(html(Some("text/html,*/*"), Some("curl/7.88.1")));
    assert!(!html(Some("text/plain"), Some("Mozilla/5.0")));
    assert!(!html(Some("*/*"), Some("curl/7.88.1")));
}

#[test]
fn spans_are_told_by_their_two_largest_units() {
    let text = |secs: u64| Duration::from_secs(secs).format();
    assert_eq!("", text(0));
    assert_eq!("59s", text(59));
    assert_eq!("1m1s", text(61));
    assert_eq!("1h1s", text(3601));
    assert_eq!("1h1m", text(3661));
    assert_eq!("2d3h", text(2 * 86400 + 3 * 3600 + 4 * 60 + 5));
    assert_eq!("1d5s", text(86405));
    assert_eq!("1234 ms", Duration::from_millis(1234).format_millis());
    let huge = Duration { secs: u64::MAX, nanos: 999_999_999 };
    assert_eq!("18446744073709551615999 ms", huge.format_millis());
}

#[test]
fn requests_are_routed() {
    let curl = headers(None, Some("curl/8"));
    let firefox = headers(None, Some("Mozilla/5.0"));
    assert_eq!(Page::NotAllowed, route(false, "/", &curl));
    assert_eq!(Page::Plain, route(true, "/", &curl));
    assert_eq!(Page::Home, route(true, "/", &firefox));
    assert_eq!(Page::Home, route(true, "/index.html", &firefox));
    assert_eq!(Page::Plain, route(true, "/plain", &firefox));
    assert_eq!(Page::Version, route(true, "/version", &firefox));
    assert_eq!(Page::Status, route(true, "/status", &firefox));
    assert_eq!(Page::Metrics, route(true, "/metrics", &firefox));
    assert_eq!(Page::Resource, route(true, "/style.css", &firefox));
    assert_eq!(BasicPage::Home, basic_route(true, "/"));
    assert_eq!(BasicPage::Version, basic_route(true, "/version"));
    assert_eq!(BasicPage::Status, basic_route(true, "/status"));
    assert_eq!(BasicPage::NotFound, basic_route(true, "/plain"));
    assert_eq!(BasicPage::NotFound, basic_route(false, "/"));
}

fn contents(resource: bool) -> Contents {
    Contents {
        resource: if resource {
            Some(Resource { mime: "text/css".to_string(), content: vec![1, 2] })
        } else {
            None
        },
        index: "<html>".to_string(),
        text: "text".to_string(),
        version: "1.2".to_string(),
    }
}

#[test]
fn pages_are_answered() {
    let r = response(Page::NotAllowed, contents(true));
    assert_eq!(405, r.code);
    assert!(r.allow_get);
    assert_eq!(b"only GET is allowed".to_vec(), r.body);
    let r = response(Page::Resource, contents(false));
    assert_eq!((404, "text/plain"), (r.code, r.content_type.as_str()));
    assert_eq!(b"page not found".to_vec(), r.body);
    assert!(!r.allow_get);
    let r = response(Page::Resource, contents(true));
    assert_eq!((200, "text/css"), (r.code, r.content_type.as_str()));
    assert_eq!(vec![1, 2], r.body);
    let r = response(Page::Home, contents(false));
    assert_eq!((200, "text/html"), (r.code, r.content_type.as_str()));
    assert_eq!(b"<html>".to_vec(), r.body);
    assert_eq!("text/css", response(Page::Home, contents(true)).content_type);
    assert_eq!(b"1.2".to_vec(), response(Page::Version, contents(true)).body);
    assert_eq!("application/json", response(Page::Status, contents(true)).content_type);
    assert_eq!("text/plain; charset=utf-8", response(Page::Plain, contents(true)).content_type);
    assert_eq!(b"text".to_vec(), response(Page::Metrics, contents(true)).body);
}

fn status() -> Status {
    let mut a = server("a");
    a.update_delay(Some(Duration::from_millis(120)));
    a.update_stats_conn_open();
    a.update_stats_conn_open();
    a.update_stats_conn_close(true);
    a.add_traffic(Traffic { tx_bytes: 100, rx_bytes: 2048 });
    let monitor = Monitor::new(vec![a, server("b"), server("b")], None);
    let t = |n: usize| Throughput { tx_bps: n, rx_bps: 0 };
    Status::from(&monitor, &vec![t(5), t(0), t(9)], Duration::from_secs(61))
}

#[test]
fn the_same_server_is_counted_once() {
    let status = status();
    assert_eq!(Throughput { tx_bps: 5, rx_bps: 0 }, status.throughput);
    assert!(status.servers[1].throughput.is_some());
    assert!(status.servers[2].throughput.is_none());
}

#[test]
fn the_status_is_told_in_plain_text() {
    let texts = |s: &str| ServerTexts {
        up: s.to_string(),
        down: s.to_string(),
        bps: "5 ".to_string(),
    };
    let page = plaintext_status(
        &status(),
        "0.5.0",
        &vec![texts("1 kB"), texts(""), texts("")],
        "5 bps",
        "0 bps",
    );
    let expected = "\
moproxy (0.5.0) is running. 1m1s
[1] ↑ 5 bps ↓ 0 bps
+--------+-------+--------+-----+-----+--------+------+------+--------+
| Server | Score | Delay  | CUR | TTL | E16:64 | Up   | Down | ↑↓ bps |
| a      |   120 | 120 ms |   1 |   2 |  01:01 | 1 kB | 1 kB |     5  |
| b      |     - |      - |   0 |   0 |  00:00 |      |      |        |
| b      |     - |      - |   0 |   0 |  00:00 |      |      |        |
+--------+-------+--------+-----+-----+--------+------+------+--------+

";
    assert_eq!(expected, page);
}

#[test]
fn the_status_is_told_as_metrics() {
    let text = exporter(&status(), &vec!["0.12".to_string(), String::new(), String::new()]);
    assert!(text.starts_with(
        "\
# HELP moproxy_proxy_server_bytes_tx_total Current total of outgoing bytes
# TYPE moproxy_proxy_server_bytes_tx_total gauge
moproxy_proxy_server_bytes_tx_total{server=\"a\"} 100
moproxy_proxy_server_bytes_tx_total{server=\"b\"} 0
moproxy_proxy_server_bytes_tx_total{server=\"b\"} 0

# HELP moproxy_proxy_server_bytes_rx_total"
    ));
    assert!(text.contains("moproxy_proxy_server_connections_error{server=\"a\"} 1\n"));
    assert!(text.ends_with(
        "\
# HELP moproxy_proxy_server_dns_delay_seconds Total seconds for the last DNS query test
# TYPE moproxy_proxy_server_dns_delay_seconds gauge
moproxy_proxy_server_dns_delay_seconds{server=\"a\"} 0.12

# HELP moproxy_proxy_server_score Score of server based on the last DNS query test
# TYPE moproxy_proxy_server_score gauge
moproxy_proxy_server_score{server=\"a\"} 120

"
    ));
}

#[test]
fn pages_are_served_at_paths_and_addresses() {
    assert!(matches!(
        WebServer::new("/run/web.sock").unwrap().bind_addr,
        ListenAddr::UnixPath(path) if path == "/run/web.sock"
    ));
    assert!(matches!(
        WebServer::new("[::1]:8080").unwrap().bind_addr,
        ListenAddr::TcpSocket(a) if a == addr("[::1]:8080")
    ));
    let err = WebServer::new("localhost").unwrap_err();
    assert_eq!("Not valid TCP socket address for web server", err.message());
}
