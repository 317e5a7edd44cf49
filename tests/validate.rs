use vigil::{
    Config, ConfigProbe, ConfigProbeService, ConfigProbeServiceGroup, ConfigProbeServiceNode,
    ConfigReader, DuplicateIdentifier, IdentifierScope,
};

fn node(id: &str) -> ConfigProbeServiceNode {
    ConfigProbeServiceNode { id: id.to_string() }
}

fn group(id: &str, nodes: &[&str]) -> ConfigProbeServiceGroup {
    ConfigProbeServiceGroup {
        id: id.to_string(),
        node: nodes.iter().map(|n| node(n)).collect(),
    }
}

fn service(
    id: &str,
    nodes: Option<&[&str]>,
    groups: Option<Vec<ConfigProbeServiceGroup>>,
) -> ConfigProbeService {
    ConfigProbeService {
        id: id.to_string(),
        node: nodes.map(|ns| ns.iter().map(|n| node(n)).collect()),
        group: groups,
    }
}

fn config(services: Vec<ConfigProbeService>) -> Config {
    Config {
        probe: ConfigProbe { service: services },
    }
}

fn failure(c: &Config) -> DuplicateIdentifier {
    match ConfigReader::validate(c) {
        Ok(()) => panic!("expected a duplicate identifier"),
        Err(e) => e,
    }
}

#[test]
fn two_distinct_services_validate() {
    let c = config(vec![service("a", None, None), service("b", None, None)]);
    assert!(ConfigReader::validate(&c).is_ok());
}

#[test]
fn repeated_service_id_fails() {
    let c = config(vec![service("a", None, None), service("a", None, None)]);
    let e = failure(&c);
    assert_eq!(e.scope, IdentifierScope::Service);
    assert_eq!(e.id, "a");
    assert_eq!(e.service, None);
    assert_eq!(e.group, None);
}

#[test]
fn node_id_reused_across_groups_validates() {
    let c = config(vec![service(
        "a",
        None,
        Some(vec![group("g", &["n"]), group("h", &["n"])]),
    )]);
    assert!(ConfigReader::validate(&c).is_ok());
}

#[test]
fn repeated_node_in_group_fails() {
    let c = config(vec![service("a", None, Some(vec![group("g", &["n", "n"])]))]);
    let e = failure(&c);
    assert_eq!(e.scope, IdentifierScope::NodeInGroup);
    assert_eq!(e.id, "n");
    assert_eq!(e.group, Some("g".to_string()));
    assert_eq!(e.service, Some("a".to_string()));
}

#[test]
fn direct_node_and_group_node_share_an_id() {
    let c = config(vec![service(
        "a",
        Some(&["n", "m"]),
        Some(vec![group("g", &["n", "m"])]),
    )]);
    assert!(ConfigReader::validate(&c).is_ok());
}

#[test]
fn repeated_direct_node_fails() {
    let c = config(vec![service("a", Some(&["x", "n", "n"]), None)]);
    let e = failure(&c);
    assert_eq!(e.scope, IdentifierScope::NodeInService);
    assert_eq!(e.id, "n");
    assert_eq!(e.service, Some("a".to_string()));
    assert_eq!(e.group, None);
}

#[test]
fn repeated_group_id_fails() {
    let c = config(vec![service(
        "a",
        None,
        Some(vec![group("g", &["n"]), group("h", &[]), group("g", &["m"])]),
    )]);
    let e = failure(&c);
    assert_eq!(e.scope, IdentifierScope::GroupInService);
    assert_eq!(e.id, "g");
    assert_eq!(e.service, Some("a".to_string()));
    assert_eq!(e.group, None);
}

#[test]
fn scopes_distinct_everywhere_validate() {
    let c = config(vec![
        service("a", Some(&["n1", "n2"]), Some(vec![group("g", &["n1"]), group("h", &["n2", "n3"])])),
        service("b", Some(&["n1"]), Some(vec![group("g", &["n1"])])),
        service("c", None, Some(vec![])),
        service("d", Some(&[]), None),
    ]);
    assert!(ConfigReader::validate(&c).is_ok());
    assert!(ConfigReader::validate_identifiers(&c).is_ok());
}

#[test]
fn empty_configuration_validates() {
    let c = config(vec![]);
    assert!(ConfigReader::validate(&c).is_ok());
}

#[test]
fn repeated_service_reported_when_it_comes_first() {
    let c = config(vec![
        service("a", Some(&["n"]), None),
        service("b", None, None),
        service("a", Some(&["n", "n"]), None),
    ]);
    let e = failure(&c);
    assert_eq!(e.scope, IdentifierScope::Service);
    assert_eq!(e.id, "a");
}

#[test]
fn first_violation_in_traversal_order_is_reported() {
    let c = config(vec![
        service("a", None, Some(vec![group("g", &["n", "n"]), group("g", &[])])),
        service("a", None, None),
    ]);
    let e = failure(&c);
    assert_eq!(e.scope, IdentifierScope::NodeInGroup);
    assert_eq!(e.id, "n");
    assert_eq!(e.group, Some("g".to_string()));
}

#[test]
fn same_ids_in_two_services_validate() {
    let c = config(vec![
        service("a", Some(&["n"]), Some(vec![group("g", &["n"])])),
        service("b", Some(&["n"]), Some(vec![group("g", &["n"])])),
    ]);
    assert!(ConfigReader::validate(&c).is_ok());
}
