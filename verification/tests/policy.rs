use moproxy::net::{parse_ip, parse_socket_addr, IpAddr, Ipv4Addr};
use moproxy::policy::capabilities::{CapRequirements, CapSet, CheckAllCapsMeet};
use moproxy::policy::parser::{Filter, Rule};
use moproxy::policy::select::{candidates, select, Selection};
use moproxy::policy::{Action, ActionType, Policy, PolicyError, RequestFeatures};
use moproxy::proxy::{PortSet, ProxyProto, ProxyServer};
use moproxy::time::Duration;

fn caps(names: &[&str]) -> CapSet {
    CapSet::new(names.iter().map(|s| s.to_string()).collect())
}

fn required(action: ActionType) -> CapRequirements {
    match action {
        ActionType::Require(a) => a,
        _ => panic!(),
    }
}

#[test]
fn test_policy_listen_port() {
    let rules = "
        listen port 1 require a
        listen port 2 require b
        listen port 2 require c or d
    ";
    let policy = Policy::load(rules.as_bytes()).unwrap();
    assert_eq!(3, policy.rule_count());
    let mut features: RequestFeatures = Default::default();
    features.listen_port = Some(1);
    let p1 = match policy.matches(&features).action {
        ActionType::Require(a) => a,
        _ => panic!(),
    };
    features.listen_port = Some(2);
    let p2 = match policy.matches(&features).action {
        ActionType::Require(a) => a,
        _ => panic!(),
    };
    let abc = caps(&["a", "b", "c"]);
    let bc = caps(&["b", "c"]);
    let c = caps(&["c"]);
    assert!(p1.all_meet_by(&abc));
    assert!(!p1.all_meet_by(&bc));
    assert!(!p1.all_meet_by(&c));
    assert!(p2.all_meet_by(&abc));
    assert!(p2.all_meet_by(&bc));
    assert!(!p2.all_meet_by(&c));
}

#[test]
fn test_policy_dst_ip() {
    let rules = "
        dst ip 0.0.0.0/0 require a4
        dst ip ::1 require a6
        dst ip 127.0.0.0/8 require b4
        dst ip 127.0.0.1 direct
    ";
    let policy = Policy::load(rules.as_bytes()).unwrap();
    assert_eq!(4, policy.rule_count());

    let mut features: RequestFeatures = Default::default();

    // Match 0.0.0.0/0
    features.dst_ip = parse_ip("1.2.3.4");
    assert!(features.dst_ip.is_some());
    let action = policy.matches(&features).action;
    assert!(matches!(action, ActionType::Require(a) if a.len() == 1));

    // Match 0.0.0.0/0 & 127.0.0.0/8
    features.dst_ip = parse_ip("127.1.1.1");
    let action1 = policy.matches(&features).action;
    features.dst_ip = parse_ip("::ffff:127.1.1.1");
    assert!(features.dst_ip.is_some());
    let action2 = policy.matches(&features).action;
    assert!(action1.same(&action2));
    assert!(matches!(action1, ActionType::Require(a) if a.len() == 2));

    // Match 0.0.0.0/0 & 127.0.0.0/8, then override by 127.0.0.1/32 DIRECT
    features.dst_ip = parse_ip("127.0.0.1");
    let action = policy.matches(&features).action;
    assert!(matches!(action, ActionType::Direct));

    // Match ::1/128
    features.dst_ip = parse_ip("::1");
    assert!(features.dst_ip.is_some());
    let action = policy.matches(&features).action;
    assert!(matches!(action, ActionType::Require(a) if a.len() == 1));
}

#[test]
fn test_policy_get_domain_caps_requirements() {
    let policy = Policy::load(
        "
        dst domain . require root
        dst domain com. require com
        dst domain example.com require example
    "
        .as_bytes(),
    )
    .unwrap();
    let set = policy.dst_domain_ruleset;
    assert_eq!(3, set.get_recursive("test.example.com").len());
    assert_eq!(3, set.get_recursive("example.com").len());
    assert_eq!(2, set.get_recursive("com").len());
    assert_eq!(1, set.get_recursive("net").len());
}

#[test]
fn test_policy_action() {
    let rules = "
        default require def
        listen port 1 require a
        listen port 2 direct
        dst domain test require c
        dst domain d.test direct
    ";
    let policy = Policy::load(rules.as_bytes()).unwrap();
    // listen-port/direct override default/require
    let direct1 = policy.matches(&RequestFeatures {
        listen_port: Some(2),
        dst_domain: Some("abcd"),
        ..Default::default()
    });
    assert!(matches!(direct1.action, ActionType::Direct));
    // d.test/direct override others
    let direct2 = policy.matches(&RequestFeatures {
        listen_port: Some(1),
        dst_domain: Some("a.d.test"),
        ..Default::default()
    });
    assert!(matches!(direct2.action, ActionType::Direct));
    // just default/require
    let require1 = policy.matches(&RequestFeatures {
        listen_port: Some(3),
        dst_domain: Some("abcd"),
        ..Default::default()
    });
    assert!(matches!(require1.action, ActionType::Require(a) if a.len() == 1));
    // default/require + dst-domain/require
    let require2 = policy.matches(&RequestFeatures {
        dst_domain: Some("test"),
        ..Default::default()
    });
    assert!(matches!(require2.action, ActionType::Require(a) if a.len() == 2));
    // default/require + dst-domain/require + listen-port/require
    let require3 = policy.matches(&RequestFeatures {
        listen_port: Some(1),
        dst_domain: Some("test"),
        ..Default::default()
    });
    assert!(matches!(require3.action, ActionType::Require(a) if a.len() == 3));
}

#[test]
fn test_policy_action_priority() {
    let rules = "
        default require! def
        listen port 1 reject # always ignore
        dst domain a require! a
        dst domain a.a reject! # same-level override
        dst domain a.a.a require!! aaa # level override
        dst domain a.a.a.a require!! aaaa #same-level append
    ";
    let policy = Policy::load(rules.as_bytes()).unwrap();
    let mut features: RequestFeatures = Default::default();

    features.listen_port = Some(10);
    let def = policy.matches(&features);
    assert!(matches!(&def.action, ActionType::Require(a) if a.len() == 1));
    assert_eq!(1, def.priority);

    features.listen_port = Some(1);
    let action = policy.matches(&features);
    assert!(def.same(&action));

    features.dst_domain = Some("a.a");
    let action = policy.matches(&features);
    assert!(matches!(&action.action, ActionType::Reject));

    features.dst_domain = Some("a.a.a");
    let action = policy.matches(&features);
    assert!(matches!(&action.action, ActionType::Require(a) if a.len() == 1));
    assert_eq!(2, action.priority);

    features.dst_domain = Some("a.a.a.a");
    let action = policy.matches(&features);
    assert!(matches!(&action.action, ActionType::Require(a) if a.len() == 2));
    assert_eq!(2, action.priority);
}

#[test]
fn test_action_type_display() {
    assert_eq!(
        "DIRECT",
        Action {
            action: ActionType::Direct,
            priority: 0
        }
        .to_string()
    );
    assert_eq!(
        "REJECT!!",
        Action {
            action: ActionType::Reject,
            priority: 2
        }
        .to_string()
    );
    assert_eq!("REQUIRE NOTHING", Action::default().to_string());
    let mut set = CapRequirements::new();
    set.add_caps(caps(&["a"]));
    set.add_caps(caps(&["b", "c"]));
    let action = ActionType::Require(set);
    assert_eq!(
        "REQUIRE! a AND (b OR c)",
        Action {
            action,
            priority: 1
        }
        .to_string()
    );
}

#[test]
fn the_first_bad_line_is_told() {
    let err = Policy::load(b"default direct\n\nlisten port x direct\n\xff").err().unwrap();
    assert!(matches!(err, PolicyError::Syntax { line: 2 }));
    let err = Policy::load(b"default direct\n\xff\nbad").err().unwrap();
    assert!(matches!(err, PolicyError::Encoding { line: 1 }));
    let policy = Policy::load(b"default direct\r\n# nothing\r\n").unwrap();
    assert_eq!(0, policy.rule_count());
    assert!(matches!(policy.default_action.action, ActionType::Direct));
    assert_eq!(0, Policy::load(b"").unwrap().rule_count());
}

#[test]
fn rules_can_be_added_one_by_one() {
    let mut policy = Policy::default();
    policy.add_rule(Rule {
        filter: Filter::DstIp((IpAddr::V4(Ipv4Addr { bits: 0x0a000000 }), 8)),
        action: ActionType::Reject.wrap(0),
    });
    policy.add_rule(Rule {
        filter: Filter::DstIp((IpAddr::V4(Ipv4Addr { bits: 0x0a000000 }), 8)),
        action: ActionType::Direct.wrap(0),
    });
    let ten = RequestFeatures {
        dst_ip: parse_ip("10.255.0.1"),
        ..Default::default()
    };
    // the later one holds
    assert!(matches!(policy.matches(&ten).action, ActionType::Direct));
    let eleven = RequestFeatures {
        dst_ip: parse_ip("11.0.0.1"),
        ..Default::default()
    };
    assert_eq!(0, required(policy.matches(&eleven).action).len());
}

#[test]
fn longer_prefixes_hold_over_shorter_ones() {
    let rules = "
        dst ip 2001:db8::/32 reject
        dst ip 2001:db8:1::/48 direct
        dst ip 2001:db8:1:2::/64 reject
        dst ip 2001:db8:1:2::3 require x
    ";
    let policy = Policy::load(rules.as_bytes()).unwrap();
    let action = |ip: &str| {
        policy
            .matches(&RequestFeatures {
                dst_ip: parse_ip(ip),
                ..Default::default()
            })
            .to_string()
    };
    assert_eq!("REQUIRE NOTHING", action("2001:db7::1"));
    assert_eq!("REJECT", action("2001:db8::1"));
    assert_eq!("DIRECT", action("2001:db8:1::1"));
    assert_eq!("REJECT", action("2001:db8:1:2::1"));
    assert_eq!("REQUIRE x", action("2001:db8:1:2::3"));
    assert!(Policy::load(b"dst ip 10.0.0.1/8 direct").is_err());
    assert!(Policy::load(b"dst ip 10.0.0.0/33 direct").is_err());
}

#[test]
fn actions_are_combined() {
    let direct = ActionType::Direct.wrap(1);
    let reject = ActionType::Reject.wrap(1);
    let weak = ActionType::Reject.wrap(0);
    let mut a = direct.clone();
    a.extend(reject.clone());
    assert!(a.same(&reject));
    let mut b = direct.clone();
    b.extend(weak);
    assert!(b.same(&direct));
    let mut c = Action::from(ActionType::Direct);
    assert_eq!(0, c.priority);
    c.extend(direct.clone());
    assert_eq!(1, c.priority);
    let mut x = ActionType::Require(CapRequirements::only(caps(&["x"]))).wrap(0);
    x.extend(ActionType::Require(CapRequirements::only(caps(&["y"]))).wrap(0));
    assert_eq!("REQUIRE x AND y", x.to_string());
    assert_eq!(2, x.len());
    x.extend(Action::default());
    assert_eq!(2, x.len());
}

#[test]
fn servers_are_chosen_by_capabilities() {
    let servers = vec![caps(&["a"]), caps(&["a", "b"]), caps(&[])];
    let policy = Policy::load(b"listen port 1 require a\nlisten port 1 require b or c\nlisten port 2 direct\nlisten port 3 reject").unwrap();
    let on = |port: u16| {
        let action = policy.matches(&RequestFeatures {
            listen_port: Some(port),
            ..Default::default()
        });
        select(&action, &servers)
    };
    assert!(matches!(on(1), Selection::Proxies(list) if list == vec![1]));
    assert!(matches!(on(2), Selection::Direct));
    assert!(matches!(on(3), Selection::Reject));
    assert!(matches!(on(4), Selection::Proxies(list) if list == vec![0, 1, 2]));
}

#[test]
fn ports_are_delegated_to_servers() {
    let servers = vec![caps(&["cap1"]), caps(&["cap2"])];
    let rules = b"listen port 2081 require cap1\nlisten port 2082 require cap2";
    let policy = Policy::load(rules).unwrap();
    let on = |port: u16| {
        let action = policy.matches(&RequestFeatures {
            listen_port: Some(port),
            ..Default::default()
        });
        select(&action, &servers)
    };
    assert!(matches!(on(2081), Selection::Proxies(list) if list == vec![0]));
    assert!(matches!(on(2082), Selection::Proxies(list) if list == vec![1]));
    assert!(matches!(on(2083), Selection::Proxies(list) if list == vec![0, 1]));
}

#[test]
fn servers_are_tried_by_capability_and_port() {
    let server = |tag: &str, port: Option<u16>| {
        let ports = port.map(|port| {
            let mut ports = PortSet::new();
            ports.insert(port);
            ports
        });
        let dns = parse_socket_addr("8.8.8.8:53").unwrap();
        let addr = parse_socket_addr("127.0.0.1:2001").unwrap();
        let wait = Duration::from_secs(4);
        ProxyServer::new(addr, ProxyProto::socks5(false), dns, wait, ports, Some(tag), None)
    };
    let listed = vec![server("x", None), server("y", Some(2081)), server("z", None)];
    let capabilities = vec![caps(&["a"]), caps(&["a"]), caps(&["b"])];
    let servers = vec![
        server("z", None),
        server("y", Some(2081)),
        server("unknown", None),
        server("x", None),
    ];
    let a = ActionType::Require(CapRequirements::only(caps(&["a"]))).wrap(0);
    let tried = |action: &Action, port: u16| {
        candidates(&servers, &listed, &capabilities, action, port)
    };
    assert!(matches!(tried(&a, 2081), Selection::Proxies(list) if list == vec![1, 3]));
    assert!(matches!(tried(&a, 2082), Selection::Proxies(list) if list == vec![3]));
    let any = Action::default();
    assert!(matches!(tried(&any, 2082), Selection::Proxies(list) if list == vec![0, 2, 3]));
    assert!(matches!(tried(&ActionType::Direct.wrap(0), 1), Selection::Direct));
    assert!(matches!(tried(&ActionType::Reject.wrap(0), 1), Selection::Reject));
}
