use moproxy::net::{IpAddr, Ipv4Addr, Ipv6Addr};
use moproxy::policy::capabilities::{CapRequirements, CapSet};
use moproxy::policy::parser::{
    capabilities, comment, domain_name, filter_default, filter_dst_domain, filter_dst_ip,
    filter_listen_port, ip_network, line_no_ending, port_number, rule, rule_action, Filter, Rule,
};
use moproxy::policy::ActionType;

fn caps(names: &[&str]) -> CapSet {
    CapSet::new(names.iter().map(|s| s.to_string()).collect())
}

#[test]
fn test_parse_domain_name_root() {
    let (empty, parts) = domain_name(".").unwrap();
    assert!(empty.is_empty());
    assert_eq!(".", parts);
}

#[test]
fn test_parse_domain_name() {
    let (rem, parts) = domain_name("Test_-123.Example.Com.\n").unwrap();
    assert_eq!("\n", rem);
    assert_eq!("test_-123.example.com", parts);

    let (rem, parts) = domain_name("example\n").unwrap();
    assert_eq!("\n", rem);
    assert_eq!("example", parts);
}

#[test]
fn test_listen_port_filter() {
    let (rem, port) = filter_listen_port("listen port 1234\n").unwrap();
    assert_eq!("\n", rem);
    assert!(Filter::ListenPort(1234).same(&port));
}

#[test]
fn test_dst_domain_filter() {
    let (rem, parts) = filter_dst_domain("dst domain test\n").unwrap();
    assert_eq!("\n", rem);
    assert!(Filter::Sni("test".to_string()).same(&parts));
}

#[test]
fn test_dst_default_filter() {
    let (rem, parts) = filter_default("default\n").unwrap();
    assert_eq!("\n", rem);
    assert!(Filter::Default.same(&parts));
}

#[test]
fn test_action() {
    let (rem, action) = rule_action("require a or b\n").unwrap();
    assert_eq!("\n", rem);
    assert!(matches!(
        action.action,
        ActionType::Require(reqs) if reqs.listed().first().unwrap().same(&caps(&["a", "b"])),
    ));
    let (_, action) = rule_action("direct\n").unwrap();
    assert!(ActionType::Direct.same(&action.action));
    let (_, action) = rule_action("reject\n").unwrap();
    assert!(ActionType::Reject.same(&action.action));
}

#[test]
fn test_action_priority() {
    let (_, action) = rule_action("require a").unwrap();
    assert_eq!(0, action.priority);
    let (_, action) = rule_action("require! a").unwrap();
    assert_eq!(1, action.priority);
    let (_, action) = rule_action("direct!!").unwrap();
    assert_eq!(2, action.priority);
    let (_, action) = rule_action("reject!!!!!").unwrap();
    assert_eq!(5, action.priority);
    assert!(rule_action("reject!!!!!!").is_err());
    assert!(rule_action("require!!!1 a").is_err());
}

#[test]
fn test_rule() {
    let (_, result) = rule("listen port 1 require!! a\n").unwrap();
    let mut set = CapRequirements::new();
    set.add_caps(caps(&["a"]));
    assert!(Rule {
        filter: Filter::ListenPort(1),
        action: ActionType::Require(set).wrap(2)
    }
    .same(&result));
    assert!(rule("default require!!!1 a\n").is_err());
    assert!(rule("default require ! a\n").is_err());
}

#[test]
fn test_comment() {
    comment("# test\n").unwrap();
    comment("#\n").unwrap();
}

#[test]
fn test_line_no_ending() {
    let (_, rules) = line_no_ending("").unwrap();
    assert!(rules.is_none());
    let (_, rules) = line_no_ending("  \t ").unwrap();
    assert!(rules.is_none());
    let (_, rules) = line_no_ending("#").unwrap();
    assert!(rules.is_none());
    let (_, rules) = line_no_ending(" # test ").unwrap();
    assert!(rules.is_none());
    let (_, rules) = line_no_ending("dst domain test require a #1").unwrap();
    assert!(rules.is_some());
}

#[test]
fn test_line_no_ending_error() {
    assert!(line_no_ending("dst").is_err());
    assert!(line_no_ending("dst domain test error").is_err());
    assert!(line_no_ending("dst domain require a b").is_err());
}

#[test]
fn test_capabilities() {
    let (_, found) = capabilities("a b  c ").unwrap();
    assert!(caps(&["a", "b", "c"]).same(&found));
    let (_, found) = capabilities("a, b  ,c,d,").unwrap();
    assert!(caps(&["a", "b", "c", "d"]).same(&found));
    let (_, found) = capabilities("  ").unwrap();
    assert!(found.is_empty());
}

#[test]
fn ports_are_numbers_above_zero() {
    assert_eq!(("", 1), port_number("1").unwrap());
    assert_eq!((" x", 65535), port_number("65535 x").unwrap());
    assert!(port_number("65536").is_err());
    assert!(port_number("0").is_err());
    assert!(port_number("x").is_err());
}

#[test]
fn networks_have_nothing_behind_their_prefix() {
    let (rem, (ip, len)) = ip_network("10.0.0.0/8 ").unwrap();
    assert_eq!(" ", rem);
    assert_eq!(IpAddr::V4(Ipv4Addr { bits: 0x0a000000 }), ip);
    assert_eq!(8, len);
    let (_, (ip, len)) = ip_network("::1").unwrap();
    assert_eq!(IpAddr::V6(Ipv6Addr { bits: 1 }), ip);
    assert_eq!(128, len);
    assert!(ip_network("10.1.0.0/8").is_err());
    assert!(ip_network("10.0.0.0/33").is_err());
    let (_, filter) = filter_dst_ip("DST IP 0.0.0.0/0").unwrap();
    assert!(Filter::DstIp((IpAddr::V4(Ipv4Addr { bits: 0 }), 0)).same(&filter));
}

#[test]
fn keywords_are_read_in_any_case() {
    let (_, a) = line_no_ending("Listen Port 80 REQUIRE! x OR Y").unwrap();
    let (_, b) = line_no_ending("listen port 80 require! x or Y").unwrap();
    assert!(a.unwrap().same(&b.unwrap()));
}

#[test]
fn port_rules_are_read_back() {
    for port in [1u16, 9, 10, 443, 65535] {
        let line = format!("listen port {} direct", port);
        let (rem, found) = line_no_ending(&line).unwrap();
        assert_eq!("", rem);
        assert!(found.unwrap().same(&Rule {
            filter: Filter::ListenPort(port),
            action: ActionType::Direct.wrap(0),
        }));
        let line = format!("listen port {} reject", port);
        let (_, found) = line_no_ending(&line).unwrap();
        assert!(found.unwrap().same(&Rule {
            filter: Filter::ListenPort(port),
            action: ActionType::Reject.wrap(0),
        }));
    }
}

#[test]
fn names_beyond_ascii_are_lowered() {
    let (_, name) = domain_name("BÜCHER.Example").unwrap();
    assert_eq!("bücher.example", name);
    let (rem, name) = domain_name("\u{130}x").unwrap();
    assert_eq!("", rem);
    assert_eq!("\u{130}x".to_lowercase(), name);
    assert!(domain_name("!").is_err());
}

#[test]
fn domain_names_are_put_in_lower_case() {
    assert_eq!(("", "dé.example".to_string()), domain_name("DÉ.Example.").unwrap());
    assert_eq!((" x", "a-b.c".to_string()), domain_name("A-b.C x").unwrap());
}
