use modular_agent_core::llm::{tool_result_content, ContentBlock, MessageContent};
use modular_agent_core::tool::{assemble_step_results, coerce_by_schema, validate_tool_args};
use modular_agent_core::value::AgentValue;

fn j(text: &str) -> serde_json::Value {
    serde_json::from_str(text).unwrap()
}

fn value(v: &serde_json::Value) -> AgentValue {
    match v {
        serde_json::Value::Null => AgentValue::Unit,
        serde_json::Value::Bool(b) => AgentValue::Boolean(*b),
        serde_json::Value::Number(n) => match n.as_i64() {
            Some(i) => AgentValue::Integer(i),
            None => AgentValue::Number(n.to_string()),
        },
        serde_json::Value::String(s) => AgentValue::String(s.clone()),
        serde_json::Value::Array(items) => AgentValue::Array(items.iter().map(value).collect()),
        serde_json::Value::Object(map) => {
            AgentValue::Object(map.iter().map(|(k, x)| (k.clone(), value(x))).collect())
        }
    }
}

fn to_json(v: &AgentValue) -> serde_json::Value {
    match v {
        AgentValue::Unit => serde_json::Value::Null,
        AgentValue::Boolean(b) => serde_json::Value::Bool(*b),
        AgentValue::Integer(i) => serde_json::Value::from(*i),
        AgentValue::Number(t) => serde_json::from_str(t).unwrap(),
        AgentValue::String(s) | AgentValue::Image(s) => serde_json::Value::String(s.clone()),
        AgentValue::Array(items) => serde_json::Value::Array(items.iter().map(to_json).collect()),
        AgentValue::Object(fields) => serde_json::Value::Object(
            fields.iter().map(|(k, x)| (k.clone(), to_json(x))).collect(),
        ),
    }
}

fn number(s: &str) -> Option<AgentValue> {
    s.parse::<f64>()
        .ok()
        .and_then(serde_json::Number::from_f64)
        .map(|n| AgentValue::Number(n.to_string()))
}

fn coerce(v: serde_json::Value, schema: serde_json::Value) -> serde_json::Value {
    let mut v = value(&v);
    coerce_by_schema(&mut v, &value(&schema), &number);
    to_json(&v)
}

fn validate(args: serde_json::Value, schema: serde_json::Value) -> (Result<(), String>, serde_json::Value) {
    let mut a = value(&args);
    let r = validate_tool_args(&value(&schema), &mut a, &number);
    (r, to_json(&a))
}

#[test]
fn coerce_does_not_truncate_float_string_to_integer() {
    assert_eq!(coerce(j(r#""42.5""#), j(r#"{"type": "integer"}"#)), j(r#""42.5""#));
}

#[test]
fn coerce_number_accepts_float_string_and_keeps_integer() {
    assert_eq!(coerce(j(r#""42.5""#), j(r#"{"type": "number"}"#)), j(r#"42.5"#));
    assert_eq!(coerce(j(r#"3"#), j(r#"{"type": "number"}"#)), j(r#"3"#));
}

#[test]
fn coerce_array_items() {
    let schema = j(r#"{"type": "array", "items": {"type": "integer"}}"#);
    assert_eq!(coerce(j(r#"["1", 2, "3"]"#), schema), j(r#"[1, 2, 3]"#));
}

#[test]
fn string_primitives_are_coerced_before_validation() {
    let schema = j(r#"{ "type": "object", "properties": {"count": {"type": "integer"}, "flag": {"type": "boolean"}}, "required": ["count", "flag"] }"#);
    let (r, args) = validate(j(r#"{"count": "42", "flag": "true"}"#), schema);
    assert_eq!(r, Ok(()));
    assert_eq!(args, j(r#"{"count": 42, "flag": true}"#));
}

#[test]
fn validation_reports_every_error() {
    let schema = j(r#"{ "type": "object", "properties": {"count": {"type": "integer"}, "flag": {"type": "boolean"}}, "required": ["count", "flag"] }"#);
    let (r, _) = validate(j(r#"{"count": "abc", "flag": "xyz"}"#), schema);
    let text = r.unwrap_err();
    assert!(text.contains("at '/count'"));
    assert!(text.contains("at '/flag'"));
    assert!(text.contains("; "));
}

#[test]
fn uncompilable_schema_skips_validation_and_coercion() {
    let (r, args) = validate(j(r#"{"x": "1"}"#), j(r#"{"type": 123}"#));
    assert_eq!(r, Ok(()));
    assert_eq!(args, j(r#"{"x": "1"}"#));
}

#[test]
fn any_of_coercion_picks_the_validating_variant() {
    let schema = j(r#"{ "type": "object", "properties": {"v": {"anyOf": [{"type": "integer"}, {"type": "boolean"}]}} }"#);
    assert_eq!(validate(j(r#"{"v": "true"}"#), schema.clone()).1, j(r#"{"v": true}"#));
    assert_eq!(validate(j(r#"{"v": "7"}"#), schema.clone()).1, j(r#"{"v": 7}"#));
    assert_eq!(validate(j(r#"{"v": 5}"#), schema).1, j(r#"{"v": 5}"#));
}

#[test]
fn any_of_with_sibling_properties_still_coerces_them() {
    let schema = j(r#"{ "type": "object", "properties": {"a": {"type": "integer"}, "b": {"type": "integer"}}, "anyOf": [{"required": ["a"]}, {"required": ["b"]}] }"#);
    let (r, args) = validate(j(r#"{"a": "5"}"#), schema);
    assert_eq!(r, Ok(()));
    assert_eq!(args, j(r#"{"a": 5}"#));
}

#[test]
fn step_results_fill_missing_slots_with_aborted_results() {
    let slots = vec![Some("r0"), None, Some("r2"), None];
    let aborted = vec!["a0", "a1", "a2", "a3"];
    assert_eq!(assemble_step_results(slots, aborted), vec!["r0", "a1", "r2", "a3"]);
    assert_eq!(assemble_step_results::<&str>(vec![], vec![]), Vec::<&str>::new());
}

#[test]
fn image_results_become_image_blocks() {
    let image = AgentValue::Image("data:image/png;base64,AAAA".to_string());
    assert_eq!(
        tool_result_content(&image),
        MessageContent::Blocks(vec![ContentBlock::Image {
            data: "AAAA".to_string(),
            mime_type: "image/png".to_string()
        }])
    );
    let mixed = AgentValue::Array(vec![
        AgentValue::String("caption".to_string()),
        AgentValue::Image("data:image/png;base64,BBBB".to_string()),
        AgentValue::Integer(7),
    ]);
    assert_eq!(
        tool_result_content(&mixed),
        MessageContent::Blocks(vec![
            ContentBlock::Text { text: "\"caption\"".to_string() },
            ContentBlock::Image { data: "BBBB".to_string(), mime_type: "image/png".to_string() },
            ContentBlock::Text { text: "7".to_string() },
        ])
    );
}

#[test]
fn other_results_keep_their_json_text() {
    let v = value(&j(r#"{"ok": true, "n": [1, 2]}"#));
    match tool_result_content(&v) {
        MessageContent::Text(t) => {
            let parsed: serde_json::Value = serde_json::from_str(&t).unwrap();
            assert_eq!(parsed, j(r#"{"ok": true, "n": [1, 2]}"#));
        }
        other => panic!("unexpected {:?}", other),
    }
    assert_eq!(
        tool_result_content(&AgentValue::String("done".to_string())),
        MessageContent::Text("\"done\"".to_string())
    );
}
