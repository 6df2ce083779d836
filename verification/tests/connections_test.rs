use modular_agent_core::connections::{
    connection_not_found, position_of, validate_connection, ConnectionSpec, ConnectionTable,
};
use modular_agent_core::AgentError;

fn conn(source: &str, sh: &str, target: &str, th: &str) -> ConnectionSpec {
    ConnectionSpec {
        source: source.to_string(),
        source_handle: sh.to_string(),
        target: target.to_string(),
        target_handle: th.to_string(),
    }
}

fn pairs(v: &[(&str, &str)]) -> Vec<(String, String)> {
    v.iter().map(|(a, b)| (a.to_string(), b.to_string())).collect()
}

#[test]
fn connections_route_values_by_port_in_insertion_order() {
    let mut t = ConnectionTable::new();
    t.add(&conn("1", "out", "2", "in")).unwrap();
    t.add(&conn("1", "err", "3", "in")).unwrap();
    t.add(&conn("1", "out", "4", "config:limit")).unwrap();
    assert_eq!(t.route("1", "out"), pairs(&[("2", "in"), ("4", "config:limit")]));
    assert_eq!(t.route("1", "err"), pairs(&[("3", "in")]));
    assert!(t.route("2", "out").is_empty());
    assert_eq!(t.targets("1").len(), 3);
}

#[test]
fn duplicate_connections_are_rejected() {
    let mut t = ConnectionTable::new();
    t.add(&conn("1", "out", "2", "in")).unwrap();
    match t.add(&conn("1", "out", "2", "in")) {
        Err(AgentError::ConnectionAlreadyExists) => {}
        other => panic!("expected ConnectionAlreadyExists, got {:?}", other),
    }
    assert_eq!(t.targets("1").len(), 1);
}

#[test]
fn add_then_remove_restores_the_graph() {
    let mut t = ConnectionTable::new();
    t.add(&conn("1", "out", "2", "in")).unwrap();
    let c = conn("1", "out", "3", "in");
    t.add(&c).unwrap();
    t.remove(&c);
    assert_eq!(t.route("1", "out"), pairs(&[("2", "in")]));
    t.remove(&conn("1", "out", "2", "in"));
    assert!(t.targets("1").is_empty());
    // Removing something absent changes nothing.
    t.remove(&conn("9", "x", "8", "y"));
    assert!(t.targets("9").is_empty());
}

#[test]
fn removing_an_agent_drops_its_connections() {
    let mut t = ConnectionTable::new();
    t.add(&conn("1", "out", "2", "in")).unwrap();
    t.add(&conn("1", "out", "3", "in")).unwrap();
    t.add(&conn("2", "out", "3", "in")).unwrap();
    t.add(&conn("4", "out", "2", "in")).unwrap();
    t.remove_agent("2");
    assert_eq!(t.route("1", "out"), pairs(&[("3", "in")]));
    assert!(t.targets("2").is_empty());
    assert!(t.targets("4").is_empty());
    // A connection can be added again after its agent was removed.
    t.add(&conn("4", "out", "3", "in")).unwrap();
    assert_eq!(t.route("4", "out"), pairs(&[("3", "in")]));
}

#[test]
fn connections_compare_field_by_field() {
    assert!(conn("1", "a", "2", "b").same_as(&conn("1", "a", "2", "b")));
    assert!(!conn("1", "a", "2", "b").same_as(&conn("1", "a", "2", "c")));
}

#[test]
fn new_connections_are_checked_in_order() {
    let c = conn("1", "out", "2", "in");
    assert!(validate_connection(&c, true, true).is_ok());
    match validate_connection(&c, false, false) {
        Err(AgentError::AgentNotFound(id)) => assert_eq!(id, "1"),
        other => panic!("unexpected {:?}", other),
    }
    match validate_connection(&c, true, false) {
        Err(AgentError::AgentNotFound(id)) => assert_eq!(id, "2"),
        other => panic!("unexpected {:?}", other),
    }
    assert!(matches!(
        validate_connection(&conn("1", "", "2", ""), true, true),
        Err(AgentError::EmptySourceHandle)
    ));
    assert!(matches!(
        validate_connection(&conn("1", "out", "2", ""), true, true),
        Err(AgentError::EmptyTargetHandle)
    ));
}

#[test]
fn missing_connections_are_reported_by_label() {
    match connection_not_found(&conn("1", "out", "2", "in")) {
        AgentError::ConnectionNotFound(label) => assert_eq!(label, "1:out->2:in"),
        other => panic!("unexpected {:?}", other),
    }
    let list = vec![conn("1", "a", "2", "b"), conn("3", "a", "4", "b"), conn("3", "a", "4", "b")];
    assert_eq!(position_of(&list, &conn("3", "a", "4", "b")), Some(1));
    assert_eq!(position_of(&list, &conn("9", "a", "4", "b")), None);
}
