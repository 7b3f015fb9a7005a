use moproxy::policy::capabilities::{CapRequirements, CapSet, CheckAllCapsMeet};

fn caps(names: &[&str]) -> CapSet {
    CapSet::new(names.iter().map(|s| s.to_string()).collect())
}

#[test]
fn test_capset_intersection() {
    let abc = caps(&["a", "b", "c"]);
    let def = caps(&["d", "e", "f"]);
    let bcg = caps(&["b", "c", "g"]);
    let aeg = caps(&["a", "e", "g"]);
    assert!(!abc.has_intersection(&def));
    assert!(!def.has_intersection(&abc));
    assert!(!def.has_intersection(&bcg));
    assert!(!bcg.has_intersection(&def));
    assert!(def.has_intersection(&aeg));
    assert!(aeg.has_intersection(&def));
    assert!(abc.has_intersection(&aeg));
}

#[test]
fn test_capset_display() {
    assert_eq!("(EMPTY)", CapSet::default().to_string());
    assert_eq!("a", caps(&["a"]).to_string());
    assert_eq!("(a OR b)", caps(&["a", "b"]).to_string());
}

#[test]
fn capsets_do_not_depend_on_the_order_of_names() {
    assert!(caps(&["b", "a"]).same(&caps(&["a", "b"])));
    assert!(!caps(&["b", "a"]).same(&caps(&["a"])));
    assert_eq!(&vec!["B".to_string(), "a".to_string(), "é".to_string()], caps(&["é", "a", "B"]).names());
    assert!(caps(&[]).is_empty());
    assert!(!caps(&["a"]).is_empty());
}

#[test]
fn requirements_are_met_together() {
    let mut reqs = CapRequirements::new();
    assert!(reqs.meet(&caps(&[])));
    reqs.add_caps(caps(&["a", "b"]));
    reqs.add_caps(caps(&["c"]));
    reqs.add_caps(caps(&["b", "a"]));
    assert_eq!(2, reqs.len());
    assert!(reqs.meet(&caps(&["b", "c"])));
    assert!(!reqs.all_meet_by(&caps(&["a", "b"])));
    assert!(!reqs.all_meet_by(&caps(&[])));
    assert!(reqs.contains(&caps(&["c"])));
    assert!(!reqs.contains(&caps(&["a"])));
    let listed: Vec<String> = reqs.listed().iter().map(|c| c.to_string()).collect();
    assert_eq!(vec!["(a OR b)".to_string(), "c".to_string()], listed);
}

#[test]
fn requirements_are_joined() {
    let a = CapRequirements::only(caps(&["a"]));
    let b = CapRequirements::only(caps(&["b"]));
    let ab = a.clone().plus(b.clone());
    let ba = b.clone().plus(a.clone());
    assert!(ab.same(&ba));
    assert!(!ab.same(&a));
    let mut aa = a.clone();
    aa.extend(a.clone());
    assert!(aa.same(&a));
    assert!(CapRequirements::default().same(&CapRequirements::new()));
}
