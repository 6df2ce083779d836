use modular_agent_core::spec::{AgentSpec, PatchValue};
use modular_agent_core::value::AgentValue;
use modular_agent_core::AgentError;

type Spec = AgentSpec<Vec<(String, i64)>, ()>;

fn json(v: AgentValue) -> PatchValue<Vec<(String, i64)>> {
    PatchValue::Json(v)
}

fn text(s: &str) -> AgentValue {
    AgentValue::String(s.to_string())
}

fn field(k: &str, v: PatchValue<Vec<(String, i64)>>) -> (String, PatchValue<Vec<(String, i64)>>) {
    (k.to_string(), v)
}

#[test]
fn known_fields_take_values_of_their_type() {
    let mut spec = Spec::new("1".to_string(), "echo".to_string());
    let r = spec.update(vec![
        field("id", json(text("7"))),
        field("def_name", json(AgentValue::Integer(3))),
        field("inputs", json(AgentValue::Array(vec![text("in"), AgentValue::Integer(1), text("aux")]))),
        field("outputs", json(text("out"))),
        field("disabled", json(AgentValue::Boolean(true))),
    ]);
    assert!(r.is_ok());
    assert_eq!(spec.id, "7");
    assert_eq!(spec.def_name, "echo");
    assert_eq!(spec.inputs, Some(vec!["in".to_string(), "aux".to_string()]));
    assert_eq!(spec.outputs, None);
    assert!(spec.disabled);
}

#[test]
fn extension_fields_are_set_in_place_and_removed_by_null() {
    let mut spec = Spec::new("1".to_string(), "echo".to_string());
    spec.update(vec![
        field("x", json(AgentValue::Integer(10))),
        field("title", json(text("Echo"))),
        field("x", json(AgentValue::Integer(20))),
    ])
    .unwrap();
    let keys: Vec<&String> = spec.extensions.keys().collect();
    assert_eq!(keys, vec!["x", "title"]);
    assert!(matches!(spec.extensions.get("x"), Some(AgentValue::Integer(20))));
    spec.update(vec![field("x", json(AgentValue::Unit))]).unwrap();
    let keys: Vec<&String> = spec.extensions.keys().collect();
    assert_eq!(keys, vec!["title"]);
}

#[test]
fn configs_take_the_parsed_values_and_failures_keep_earlier_fields() {
    let mut spec = Spec::new("1".to_string(), "echo".to_string());
    spec.update(vec![field("configs", PatchValue::Configs(Ok(vec![("n".to_string(), 1)])))]).unwrap();
    assert_eq!(spec.configs, Some(vec![("n".to_string(), 1)]));
    let r = spec.update(vec![
        field("disabled", json(AgentValue::Boolean(true))),
        field("configs", PatchValue::Configs(Err("invalid type: string".to_string()))),
        field("id", json(text("9"))),
    ]);
    match r {
        Err(AgentError::SerializationError(m)) => assert_eq!(m, "invalid type: string"),
        other => panic!("unexpected {:?}", other),
    }
    assert!(spec.disabled);
    assert_eq!(spec.id, "1");
    assert_eq!(spec.configs, Some(vec![("n".to_string(), 1)]));
}

use modular_agent_core::connections::ConnectionSpec;
use modular_agent_core::spec::PresetSpec;

fn conn(s: &str, t: &str) -> ConnectionSpec {
    ConnectionSpec {
        source: s.to_string(),
        source_handle: "out".to_string(),
        target: t.to_string(),
        target_handle: "in".to_string(),
    }
}

#[test]
fn presets_add_and_remove_agents_and_connections() {
    let mut preset: PresetSpec<Vec<(String, i64)>, ()> = PresetSpec::new();
    preset.add_agent(Spec::new("1".to_string(), "a".to_string()));
    preset.add_agent(Spec::new("2".to_string(), "b".to_string()));
    preset.add_agent(Spec::new("3".to_string(), "c".to_string()));
    preset.remove_agent("2");
    let ids: Vec<&str> = preset.agents.iter().map(|a| a.id.as_str()).collect();
    assert_eq!(ids, vec!["1", "3"]);
    preset.add_connection(conn("1", "3"));
    preset.add_connection(conn("3", "1"));
    let removed = preset.remove_connection(&conn("1", "3"));
    assert_eq!(removed.map(|c| c.target), Some("3".to_string()));
    assert_eq!(preset.connections.len(), 1);
    assert!(preset.remove_connection(&conn("1", "3")).is_none());
    assert_eq!(preset.connections.len(), 1);
}
