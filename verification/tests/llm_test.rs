use modular_agent_core::llm::{
    absorb_legacy_thinking, message_from_value, png_base64_payload, ContentBlock, MessageContent,
    Usage,
};
use modular_agent_core::value::AgentValue;
use modular_agent_core::AgentError;
use modular_agent_core::text::trim_str;

#[test]
fn test_message_thinking_redacts_and_joins_with_newline() {
    let content = MessageContent::Blocks(vec![
        ContentBlock::Thinking {
            thinking: "Let me think...".to_string(),
            signature: Some("sig".to_string()),
            redacted: false,
        },
        ContentBlock::Thinking {
            thinking: "EqQBCgIYAg-ciphertext".to_string(),
            signature: None,
            redacted: true,
        },
        ContentBlock::Text {
            text: "answer".to_string(),
        },
    ]);
    assert_eq!(content.thinking().as_deref(), Some("Let me think...\n[redacted]"));
}

#[test]
fn text_concatenates_text_blocks_in_order() {
    let content = MessageContent::Blocks(vec![
        ContentBlock::Text { text: "before".to_string() },
        ContentBlock::Thinking {
            thinking: "mid".to_string(),
            signature: Some("s".to_string()),
            redacted: false,
        },
        ContentBlock::Image {
            data: "AAAA".to_string(),
            mime_type: "image/png".to_string(),
        },
        ContentBlock::Text { text: "after".to_string() },
    ]);
    assert_eq!(content.text(), "beforeafter");
    assert_eq!(content.thinking().as_deref(), Some("mid"));
    assert_eq!(MessageContent::from_str("plain").text(), "plain");
    assert_eq!(MessageContent::from_str("plain").thinking(), None);
    assert_eq!(MessageContent::Blocks(vec![]).thinking(), None);
    assert_eq!(MessageContent::default(), MessageContent::Text(String::new()));
    assert_eq!(MessageContent::from("x".to_string()), MessageContent::Text("x".to_string()));
}

#[test]
fn legacy_thinking_is_absorbed_as_leading_block() {
    let lead = ContentBlock::Thinking {
        thinking: "why".to_string(),
        signature: None,
        redacted: false,
    };
    assert_eq!(
        absorb_legacy_thinking(MessageContent::Text(String::new()), "why".to_string()),
        MessageContent::Blocks(vec![lead.clone()])
    );
    assert_eq!(
        absorb_legacy_thinking(MessageContent::Text("hi".to_string()), "why".to_string()),
        MessageContent::Blocks(vec![lead.clone(), ContentBlock::Text { text: "hi".to_string() }])
    );
    let image = ContentBlock::Image {
        data: "d".to_string(),
        mime_type: "image/png".to_string(),
    };
    assert_eq!(
        absorb_legacy_thinking(MessageContent::Blocks(vec![image.clone()]), "why".to_string()),
        MessageContent::Blocks(vec![lead, image])
    );
}

#[test]
fn usage_defaults_to_zero() {
    assert_eq!(
        Usage::default(),
        Usage {
            input_tokens: 0,
            output_tokens: 0,
            cache_read_tokens: 0,
            cache_write_tokens: 0
        }
    );
}

#[test]
fn trimming_follows_unicode_whitespace() {
    assert_eq!(trim_str("  a b \t\n"), "a b");
    assert_eq!(trim_str("\u{3000}x\u{2029}"), "x");
    assert_eq!(trim_str(" \u{85} "), "");
    assert_eq!(trim_str("\u{200B}x"), "\u{200B}x");
}

fn text(s: &str) -> AgentValue {
    AgentValue::String(s.to_string())
}

fn object(fields: Vec<(&str, AgentValue)>) -> AgentValue {
    AgentValue::Object(fields.into_iter().map(|(k, v)| (k.to_string(), v)).collect())
}

fn decode_error(v: &AgentValue) -> String {
    match message_from_value(v, Ok(Vec::new()), None) {
        Err(AgentError::InvalidValue(m)) => m,
        Err(other) => panic!("unexpected error {:?}", other),
        Ok(_) => panic!("expected an error"),
    }
}

#[test]
fn test_message_from_string_value() {
    let value = text("Just a simple message");
    let msg = message_from_value(&value, Ok(Vec::new()), None).unwrap();
    assert_eq!(msg.role, "user");
    assert_eq!(msg.content.text(), "Just a simple message");
}

#[test]
fn test_message_from_invalid_value() {
    let value = AgentValue::Integer(42);
    assert!(message_from_value(&value, Ok(Vec::new()), None).is_err());
}

#[test]
fn message_objects_are_read_field_by_field() {
    let value = object(vec![
        ("role", text("assistant")),
        ("content", text("Here is some information.")),
        ("id", text("m1")),
        ("streaming", AgentValue::Boolean(true)),
        ("is_error", AgentValue::Boolean(false)),
        ("stop_reason", text("tool_use")),
        ("usage", object(vec![("input_tokens", AgentValue::Integer(3))])),
    ]);
    let usage = Usage { input_tokens: 3, output_tokens: 0, cache_read_tokens: 0, cache_write_tokens: 0 };
    let msg = message_from_value(&value, Ok(Vec::new()), Some(usage)).unwrap();
    assert_eq!(msg.role, "assistant");
    assert_eq!(msg.content.text(), "Here is some information.");
    assert_eq!(msg.id.as_deref(), Some("m1"));
    assert!(msg.streaming);
    assert_eq!(msg.is_error, Some(false));
    assert_eq!(msg.stop_reason.as_deref(), Some("tool_use"));
    assert_eq!(msg.usage, Some(usage));
    assert!(msg.tool_calls.is_none());
}

#[test]
fn message_defaults_and_legacy_thinking() {
    let value = object(vec![("content", text("answer")), ("thinking", text("hmm"))]);
    // The usage parse is ignored without a `usage` field.
    let msg = message_from_value(&value, Ok(Vec::new()), Some(Usage::default())).unwrap();
    assert_eq!(msg.role, "user");
    assert!(!msg.streaming);
    assert_eq!(msg.usage, None);
    assert_eq!(msg.content.thinking().as_deref(), Some("hmm"));
    assert_eq!(msg.content.text(), "answer");
}

#[test]
fn content_arrays_take_the_parsed_blocks() {
    let value = object(vec![("content", AgentValue::Array(vec![object(vec![("type", text("text"))])]))]);
    let blocks = vec![ContentBlock::Text { text: "hi".to_string() }];
    let msg = message_from_value(&value, Ok(blocks.clone()), None).unwrap();
    assert_eq!(msg.content, MessageContent::Blocks(blocks));
    match message_from_value(&value, Err("missing field `text`".to_string()), None) {
        Err(AgentError::InvalidValue(m)) => assert_eq!(m, "Invalid content blocks: missing field `text`"),
        _ => panic!("expected an error"),
    }
}

#[test]
fn message_decoding_errors_are_exact() {
    assert_eq!(
        decode_error(&object(vec![("some_key", text("some_value"))])),
        "Message object missing 'content' field"
    );
    assert_eq!(
        decode_error(&object(vec![("content", AgentValue::Integer(1))])),
        "'content' field must be a string or an array of content blocks"
    );
    assert_eq!(
        decode_error(&object(vec![("content", text("x")), ("tool_name", AgentValue::Boolean(true))])),
        "'tool_name' field must be a string"
    );
    assert_eq!(
        decode_error(&object(vec![("content", text("x")), ("tool_calls", text("no"))])),
        "'tool_calls' field must be an array"
    );
    let call = |f: AgentValue| object(vec![("content", text("x")), ("tool_calls", AgentValue::Array(vec![f]))]);
    assert_eq!(decode_error(&call(object(vec![]))), "Tool call missing 'function' field");
    assert_eq!(
        decode_error(&call(object(vec![("function", object(vec![]))]))),
        "Tool call function missing 'name' field"
    );
    assert_eq!(
        decode_error(&call(object(vec![("function", object(vec![("name", text("f"))]))]))),
        "Tool call function missing 'parameters' field"
    );
    assert_eq!(decode_error(&AgentValue::Unit), "Cannot convert AgentValue to Message");
}

#[test]
fn tool_calls_are_read_in_order() {
    let call = |id: Option<&str>, name: &str| {
        let mut fields = vec![(
            "function",
            object(vec![("name", text(name)), ("parameters", object(vec![("q", AgentValue::Integer(1))]))]),
        )];
        if let Some(id) = id {
            fields.push(("id", text(id)));
        }
        object(fields)
    };
    let value = object(vec![
        ("role", text("assistant")),
        ("content", text("")),
        ("tool_calls", AgentValue::Array(vec![call(Some("call1"), "search"), call(None, "write")])),
    ]);
    let msg = message_from_value(&value, Ok(Vec::new()), None).unwrap();
    let calls = msg.tool_calls.unwrap();
    assert_eq!(calls.len(), 2);
    assert_eq!(calls[0].id.as_deref(), Some("call1"));
    assert_eq!(calls[0].name, "search");
    assert!(matches!(calls[0].parameters, AgentValue::Object(ref f) if f.len() == 1));
    assert_eq!(calls[1].id, None);
    assert_eq!(calls[1].name, "write");
}

#[test]
fn image_values_become_user_messages_with_the_image() {
    let value = AgentValue::Image("data:image/png;base64,AAAA".to_string());
    let msg = message_from_value(&value, Ok(Vec::new()), None).unwrap();
    assert_eq!(msg.role, "user");
    assert_eq!(msg.content.text(), "");
    assert!(matches!(msg.image, Some(AgentValue::Image(_))));
    assert_eq!(png_base64_payload("data:image/png;base64,AAAA"), "AAAA");
    assert_eq!(png_base64_payload("data:image/png;base64,data:image/png;base64,B"), "B");
    assert_eq!(png_base64_payload("AAAA"), "AAAA");
}
