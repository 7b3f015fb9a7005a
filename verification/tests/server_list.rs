use moproxy::net::{parse_socket_addr, SocketAddr};
use moproxy::proxy::{ProxyProto, UserPassAuthCredential};
use moproxy::server::{
    client_plan, distinct_ports, is_path, parse_ports, surplus_ports, Section, ServerListConfig,
    ServerListError,
};
use moproxy::time::Duration;

fn addr(s: &str) -> SocketAddr {
    parse_socket_addr(s).unwrap()
}

fn config(allow_direct: bool) -> ServerListConfig {
    ServerListConfig::new(
        addr("8.8.8.8:53"),
        Duration::from_secs(4),
        &vec![addr("127.0.0.1:2001")],
        &vec![addr("127.0.0.1:3128")],
        allow_direct,
    )
}

fn bare() -> ServerListConfig {
    ServerListConfig::new(addr("8.8.8.8:53"), Duration::from_secs(4), &vec![], &vec![], false)
}

fn error(text: &str) -> ServerListError {
    bare().load(Some(text)).unwrap().unwrap_err()
}

#[test]
fn servers_of_the_command_line_come_first() {
    let servers = config(false).load(None).unwrap().unwrap();
    let texts: Vec<String> = servers.iter().map(|s| s.to_string()).collect();
    assert_eq!(
        vec!["2001 (SOCKSv5 127.0.0.1:2001)", "3128 (HTTP 127.0.0.1:3128)"],
        texts
    );
}

#[test]
fn servers_are_read_from_a_file() {
    let text = "\u{feff}
address = 10.0.0.9:1
protocol = http

# two servers
[one]
address=10.0.0.1:1080
protocol=SOCKS5
socks username = me
socks password = secret
score base = -20
test dns = 1.1.1.1:53
max wait = 9
listen ports = 2081, 2082 2083

[two]
tag = second
address=[::1]:8080
protocol=http
http allow connect payload = true
capabilities = b, a
";
    let servers = bare().load(Some(text)).unwrap().unwrap();
    assert_eq!(3, servers.len());
    assert_eq!("1 (HTTP 10.0.0.9:1)", servers[0].to_string());
    let one = &servers[1];
    assert_eq!("one (SOCKSv5 10.0.0.1:1080)", one.to_string());
    assert!(one
        .proto
        .same(&ProxyProto::socks5_with_auth(UserPassAuthCredential::new("me", "secret"))));
    assert_eq!(addr("1.1.1.1:53"), one.test_dns());
    assert_eq!(Duration::from_secs(9), one.max_wait());
    assert!(one.serve_port(2083));
    assert!(!one.serve_port(2084));
    assert_eq!(Some(80), one.score_after(Duration::from_millis(100)));
    let two = &servers[2];
    assert_eq!("second (HTTP [::1]:8080)", two.to_string());
    assert!(two.proto.same(&ProxyProto::http(true, None)));
    assert_eq!(addr("8.8.8.8:53"), two.test_dns());

    let caps = config(true).load_capabilities(Some(text)).unwrap();
    let texts: Vec<String> = caps.iter().map(|c| c.to_string()).collect();
    assert_eq!(vec!["(EMPTY)", "(EMPTY)", "(EMPTY)", "(EMPTY)", "(a OR b)"], texts);
    assert!(config(true).load_capabilities(Some("[x")).is_none());
}

#[test]
fn the_first_thing_that_is_wrong_is_told() {
    assert_eq!(ServerListError::File, error("[x"));
    assert_eq!(ServerListError::AddressMissing, error("[a]\nprotocol=http"));
    assert_eq!(ServerListError::AddressInvalid, error("[a]\naddress=x"));
    assert_eq!(ServerListError::ScoreBaseInvalid, error("[a]\naddress=1.2.3.4:5\nscore base=x"));
    assert_eq!(ServerListError::TestDnsInvalid, error("[a]\naddress=1.2.3.4:5\ntest dns=x"));
    assert_eq!(ServerListError::MaxWaitInvalid, error("[a]\naddress=1.2.3.4:5\nmax wait=-1"));
    assert_eq!(ServerListError::PortInvalid, error("[a]\naddress=1.2.3.4:5\nlisten ports=70000"));
    assert_eq!(ServerListError::ProtocolMissing, error("[a]\naddress=1.2.3.4:5"));
    assert_eq!(ServerListError::ProtocolUnknown, error("[a]\naddress=1.2.3.4:5\nprotocol=ftp"));
    assert_eq!(
        ServerListError::BooleanInvalid,
        error("[a]\naddress=1.2.3.4:5\nprotocol=socksv5\nsocks fake handshaking=1")
    );
    assert_eq!(
        ServerListError::CredentialEmpty,
        error("[a]\naddress=1.2.3.4:5\nprotocol=socks5\nsocks username=me")
    );
    let long = format!(
        "[a]\naddress=1.2.3.4:5\nprotocol=socks5\nsocks username={}\nsocks password=x",
        "m".repeat(256)
    );
    assert_eq!(ServerListError::CredentialTooLong, error(&long));
    assert_eq!(
        ServerListError::ColonInUsername,
        error("[a]\naddress=1.2.3.4:5\nprotocol=http\nhttp username=a:b")
    );
    assert_eq!(ServerListError::Empty, error("# nothing"));
    assert_eq!("missing server list", ServerListError::Empty.message());
    // a tag with a space
    assert!(bare().load(Some("[a b]\naddress=1.2.3.4:5\nprotocol=http")).is_none());
}

#[test]
fn no_server_is_needed_where_clients_may_go_without() {
    let config =
        ServerListConfig::new(addr("8.8.8.8:53"), Duration::from_secs(4), &vec![], &vec![], true);
    assert!(config.load(None).unwrap().unwrap().is_empty());
}

#[test]
fn the_first_value_of_a_property_counts() {
    let section = Section {
        name: None,
        props: vec![
            ("tag".to_string(), "a".to_string()),
            ("tag".to_string(), "b".to_string()),
        ],
    };
    assert_eq!(Some("a"), section.get("tag"));
    assert_eq!(None, section.get("address"));
    assert!(section.capabilities().is_empty());
}

#[test]
fn ports_are_separated_by_blanks_and_commas() {
    let ports = parse_ports(" 1,2 ,,3 ").unwrap();
    assert!(ports.contains(1) && ports.contains(2) && ports.contains(3));
    assert!(!ports.contains(4));
    assert!(parse_ports("").unwrap().is_empty());
    assert!(parse_ports("1;2").is_none());
    assert!(distinct_ports(&vec![5, 5, 6]).contains(5));
}

#[test]
fn names_are_looked_for_on_one_port() {
    assert_eq!((true, 3), client_plan(true, 443, 3));
    assert_eq!((false, 0), client_plan(true, 80, 3));
    assert_eq!((false, 0), client_plan(false, 443, 3));
    assert!(is_path("/run/moproxy.sock"));
    assert!(!is_path("127.0.0.1:8080"));
    assert!(!is_path(""));
}

#[test]
fn ports_where_nobody_listens_are_found() {
    let ports = parse_ports("2081 2083, 2082 2083").unwrap();
    let listened = distinct_ports(&vec![2080, 2081]);
    assert_eq!(vec![2083, 2082], surplus_ports(&ports, &listened));
    assert!(surplus_ports(&listened, &listened).is_empty());
    assert!(surplus_ports(&distinct_ports(&vec![]), &listened).is_empty());
}
