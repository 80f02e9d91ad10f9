use rind::names::Name;
use rind::services::Service;
use rind::services::ServiceState;
use rind::units::{Unit, Units};

fn svc(name: &str, executable: &str, restart: bool) -> Service {
    Service {
        name: name.to_string(),
        executable: executable.to_string(),
        args: Vec::new(),
        restart,
        child: None,
        last_state: ServiceState::Inactive,
    }
}

fn unit_with(services: Vec<Service>) -> Unit {
    Unit { service: Some(services), socket: None, mount: None }
}

#[test]
fn insert_replaces_last_write_wins() {
    let mut units = Units::new();
    units.insert_unit(Name::new("a"), unit_with(vec![svc("one", "/bin/true", false)]));
    units.insert_unit(Name::new("b"), unit_with(vec![svc("two", "/bin/true", false)]));
    units.insert_unit(Name::new("a"), unit_with(vec![svc("three", "/bin/true", false)]));
    // Three inserts, two distinct names: the count is the distinct-name count.
    assert_eq!(units.unit_count(), 2);
    // The most recently inserted unit per name is retained.
    let u = units.unit("a").expect("unit a is loaded");
    assert_eq!(u.service.as_ref().unwrap()[0].name, "three");
    let u = units.unit("b").expect("unit b is loaded");
    assert_eq!(u.service.as_ref().unwrap()[0].name, "two");
    assert!(units.unit("c").is_none());
}

#[test]
fn insert_keeps_registry_order() {
    let mut units = Units::new();
    units.insert_unit(Name::new("x"), unit_with(vec![]));
    units.insert_unit(Name::new("y"), unit_with(vec![]));
    units.insert_unit(Name::new("x"), unit_with(vec![svc("s", "/bin/true", false)]));
    let names: Vec<String> = units.names().iter().map(|n| n.to_string()).collect();
    assert_eq!(names, vec!["x".to_string(), "y".to_string()]);
}

#[test]
fn parse_enabled_is_additive_and_idempotent() {
    let mut units = Units::new();
    units.parse_enabled("a\nb");
    units.parse_enabled("b\nc");
    let mut enabled: Vec<String> = units.enabled_names().iter().map(|n| n.to_string()).collect();
    enabled.sort();
    assert_eq!(enabled, vec!["a".to_string(), "b".to_string(), "c".to_string()]);
    // Merging the same text again adds nothing.
    units.parse_enabled("a\nb");
    assert_eq!(units.enabled_names().len(), 3);
}

#[test]
fn parse_enabled_trims_and_skips_blank_lines() {
    let mut units = Units::new();
    units.parse_enabled("  a  \n\n\t\n b\r\n");
    let mut enabled: Vec<String> = units.enabled_names().iter().map(|n| n.to_string()).collect();
    enabled.sort();
    assert_eq!(enabled, vec!["a".to_string(), "b".to_string()]);
    assert!(units.is_enabled("a"));
    assert!(units.is_enabled("b"));
    assert!(!units.is_enabled(""));
    assert!(!units.is_enabled("c"));
}

#[test]
fn enabled_text_joins_names_with_newlines() {
    let mut units = Units::new();
    units.parse_enabled("a\nb\nc");
    assert_eq!(units.enabled_text(), "a\nb\nc");
    let empty = Units::new();
    assert_eq!(empty.enabled_text(), "");
}

#[test]
fn enabled_name_without_unit_is_inert() {
    let mut units = Units::new();
    units.parse_enabled("ghost");
    assert!(units.is_enabled("ghost"));
    assert!(units.unit("ghost").is_none());
    assert_eq!(units.unit_count(), 0);
}

#[test]
fn lookup_qualified_resolves_exact_unit() {
    let mut units = Units::new();
    units.insert_unit(Name::new("net"), unit_with(vec![svc("dhcp", "/bin/true", false)]));
    units.insert_unit(Name::new("base"), unit_with(vec![svc("shell", "/bin/sh", false)]));
    let s: Option<&Service> = units.lookup("net@dhcp");
    assert_eq!(s.expect("qualified lookup hits").name, "dhcp");
    let missing: Option<&Service> = units.lookup("net@shell");
    assert!(missing.is_none());
    let no_unit: Option<&Service> = units.lookup("none@dhcp");
    assert!(no_unit.is_none());
}

#[test]
fn lookup_bare_scans_all_units() {
    let mut units = Units::new();
    units.insert_unit(Name::new("net"), unit_with(vec![svc("dhcp", "/bin/true", false)]));
    units.insert_unit(Name::new("base"), unit_with(vec![svc("shell", "/bin/sh", false)]));
    let s: Option<&Service> = units.lookup("shell");
    assert_eq!(s.expect("bare lookup hits").name, "shell");
    let missing: Option<&Service> = units.lookup("nope");
    assert!(missing.is_none());
}

#[test]
fn lookup_for_units_is_inert_placeholder() {
    let mut units = Units::new();
    units.insert_unit(Name::new("net"), unit_with(vec![]));
    let u: Option<&Unit> = units.lookup("net");
    assert!(u.is_none());
}

#[test]
fn name_round_trips_text() {
    let n = Name::new("hello");
    assert_eq!(n.to_string(), "hello");
    assert_eq!(n.as_str(), "hello");
    let m = n.clone();
    assert!(n.same(&m));
    assert!(n.same_str("hello"));
    assert!(!n.same_str("world"));
}

#[test]
fn services_flattens_across_units_regardless_of_enabled() {
    let mut units = Units::new();
    units.insert_unit(
        Name::new("a"),
        unit_with(vec![svc("one", "/bin/true", false), svc("two", "/bin/true", false)]),
    );
    units.insert_unit(Name::new("b"), unit_with(vec![svc("three", "/bin/true", false)]));
    units.parse_enabled("a");
    let flat = units.services();
    let pairs: Vec<(String, String)> =
        flat.iter().map(|(n, s)| (n.to_string(), s.name.clone())).collect();
    assert_eq!(
        pairs,
        vec![
            ("a".to_string(), "one".to_string()),
            ("a".to_string(), "two".to_string()),
            ("b".to_string(), "three".to_string()),
        ]
    );
}

#[test]
fn enabled_indices_pick_enabled_units_in_order() {
    let mut units = Units::new();
    units.insert_unit(Name::new("a"), unit_with(vec![]));
    units.insert_unit(Name::new("b"), unit_with(vec![]));
    units.insert_unit(Name::new("c"), unit_with(vec![]));
    units.parse_enabled("c\na");
    assert_eq!(units.enabled_indices(), vec![0, 2]);
    assert!(units.enabled_at_index(0));
    assert!(!units.enabled_at_index(1));
    assert!(units.enabled_at_index(2));
}
