use moproxy::policy::capabilities::{CapSet, CheckAllCapsMeet};
use moproxy::policy::policy::Policy;
use moproxy::policy::PolicyError;
use moproxy::route::parser::{line_no_ending, RuleFilter};
use moproxy::route::router::Router;

fn caps(names: &[&str]) -> CapSet {
    CapSet::new(names.iter().map(|s| s.to_string()).collect())
}

#[test]
fn policy_test_router_listen_port() {
    let rules = "
        listen-port 1 require a
        listen-port 2 require b
        listen-port 2 require c or d
    ";
    let router = Policy::from_file(rules.as_bytes()).unwrap();
    assert_eq!(3, router.rule_count());
    let p1 = router.get_rules(Some(1), None);
    let p2 = router.get_rules(Some(2), None);
    let abc = caps(&["a", "b", "c"]);
    let bc = caps(&["b", "c"]);
    let c = caps(&["c"]);
    assert!(p1.all_meet_by(&abc));
    assert!(!p1.all_meet_by(&bc));
    assert!(!p1.all_meet_by(&c));
    assert!(p2.all_meet_by(&abc));
    assert!(p2.all_meet_by(&bc));
    assert!(!p2.all_meet_by(&c));
}

#[test]
fn test_router_get_sni_caps_requirements() {
    let router = Policy::from_file(
        "
        sni . require root
        sni com. require com
        sni example.com require example
    "
        .as_bytes(),
    )
    .unwrap();
    assert_eq!(3, router.sni_ruleset.get("test.example.com").len());
    assert_eq!(3, router.sni_ruleset.get("example.com").len());
    assert_eq!(2, router.sni_ruleset.get("com").len());
    assert_eq!(1, router.sni_ruleset.get("net").len());
}

#[test]
fn router_test_router_listen_port() {
    let rules = "
        listen-port 1 require a
        listen-port 2 require b
        listen-port 2 require c or d
    ";
    let router = Router::from_file(rules.as_bytes()).unwrap();
    assert_eq!(3, router.rule_count());
    let p1 = router.listen_port_caps.get(&1).unwrap();
    let p2 = router.listen_port_caps.get(&2).unwrap();
    let abc = caps(&["a", "b", "c"]);
    let bc = caps(&["b", "c"]);
    let c = caps(&["c"]);
    assert!(p1.meet(&abc));
    assert!(!p1.meet(&bc));
    assert!(!p1.meet(&c));
    assert!(p2.meet(&abc));
    assert!(p2.meet(&bc));
    assert!(!p2.meet(&c));
}

#[test]
fn requirements_of_port_and_name_are_joined() {
    let policy = Policy::from_file(b"listen-port 1 require a\nsni com require b\nsni x.com require c").unwrap();
    let rules = policy.get_rules(Some(1), Some("x.com"));
    assert_eq!(3, rules.len());
    assert_eq!(2, policy.get_rules(Some(1), Some("y.com")).len());
    assert_eq!(1, policy.get_rules(Some(2), Some("com")).len());
    assert_eq!(0, policy.get_rules(None, None).len());
}

#[test]
fn bad_lines_of_routes_are_told() {
    assert!(matches!(
        Router::from_file(b"\nlisten-port 70000 require a").unwrap_err(),
        PolicyError::Syntax { line: 1 }
    ));
    assert!(matches!(
        Router::from_file(b"\xff").unwrap_err(),
        PolicyError::Encoding { line: 0 }
    ));
    let (_, found) = line_no_ending(" sni Example.COM. require a or b # comment").unwrap();
    let found = found.unwrap();
    assert!(matches!(found.filter, RuleFilter::Sni(name) if name == "example.com"));
    let (_, nothing) = line_no_ending("# x").unwrap();
    assert!(nothing.is_none());
    assert!(line_no_ending("sni a").is_err());
}
