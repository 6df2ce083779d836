use modular_agent_core::server::{
    bearer_authorized, check_connection_ports, compact_default, config_port_key, constant_time_eq, definition_line,
    plan_preset_save, validate_config_keys, validate_preset_name, ConfigSummary,
};

#[test]
fn preset_name_validation() {
    assert!(validate_preset_name("MyPreset").is_ok());
    assert!(validate_preset_name("Folder/MyPreset").is_ok());
    assert!(validate_preset_name("").is_err());
    assert!(validate_preset_name("../escape").is_err());
    assert!(validate_preset_name("/absolute").is_err());
    assert!(validate_preset_name("a\\b").is_err());
    assert!(validate_preset_name("a/./b").is_err());
}

#[test]
fn preset_name_errors_are_exact() {
    assert_eq!(validate_preset_name("").unwrap_err(), "Preset name must not be empty");
    assert_eq!(
        validate_preset_name("a\\b").unwrap_err(),
        "Preset name must use '/' as the folder separator"
    );
    assert_eq!(
        validate_preset_name("a//b").unwrap_err(),
        "Invalid preset name \"a//b\": must be a relative path without empty, \".\" or \"..\" components"
    );
    assert!(validate_preset_name("trailing/").is_err());
    assert!(validate_preset_name("C:/x").is_err());
    assert!(validate_preset_name("..").is_err());
    assert!(validate_preset_name("a/..b/.c").is_ok());
}

#[test]
fn constant_time_eq_matches_exactly() {
    assert!(constant_time_eq(b"secret", b"secret"));
    assert!(!constant_time_eq(b"secret", b"secreT"));
    assert!(!constant_time_eq(b"secret", b"secret2"));
    assert!(!constant_time_eq(b"", b"x"));
    assert!(constant_time_eq(b"", b""));
}

#[test]
fn config_key_validation_rejects_global_and_unknown_keys() {
    let configs = vec!["channel".to_string()];
    let globals = vec!["slack_bot_token".to_string()];

    assert!(validate_config_keys("test", Some(&globals), Some(&configs), &vec!["channel".to_string()]).is_ok());

    let err = validate_config_keys("test", Some(&globals), Some(&configs), &vec!["slack_bot_token".to_string()])
        .expect_err("global key must be rejected");
    assert!(err.contains("GLOBAL"));

    let err = validate_config_keys("test", Some(&globals), Some(&configs), &vec!["nope".to_string()])
        .expect_err("unknown key must be rejected");
    assert!(err.contains("channel"));
}

#[test]
fn config_key_errors_are_exact_and_first_failure_wins() {
    let configs = vec!["a".to_string(), "b".to_string()];
    assert_eq!(
        validate_config_keys("d", None, Some(&configs), &vec!["a".to_string(), "x".to_string(), "y".to_string()])
            .unwrap_err(),
        "Unknown config \"x\" for d. Valid configs: [a, b]"
    );
    assert_eq!(
        validate_config_keys("d", Some(&vec!["k".to_string()]), None, &vec!["k".to_string()]).unwrap_err(),
        "\"k\" is a GLOBAL configuration of d. Global configs (API keys, tokens, secrets) are set by the user in the application settings and must never be set on an agent instance."
    );
    assert_eq!(
        validate_config_keys("d", None, None, &vec!["k".to_string()]).unwrap_err(),
        "Unknown config \"k\" for d. Valid configs: []"
    );
    assert!(validate_config_keys("d", None, None, &vec![]).is_ok());
}

#[test]
fn config_ports_are_recognized() {
    assert_eq!(config_port_key("config:limit"), Some("limit".to_string()));
    assert_eq!(config_port_key("config:"), Some(String::new()));
    assert_eq!(config_port_key("value"), None);
    assert_eq!(config_port_key("conf"), None);
}

#[test]
fn connection_ports_are_checked_against_the_agents() {
    let outputs = vec!["value".to_string(), "message".to_string()];
    let inputs = vec!["in".to_string()];
    let config_keys = vec!["limit".to_string(), "mode".to_string()];
    let check = |sh: &str, th: &str| {
        check_connection_ports("1", "A", &outputs, sh, "2", "B", &inputs, &config_keys, th)
    };
    assert!(check("value", "in").is_ok());
    assert!(check("err", "config:limit").is_ok());
    assert_eq!(
        check("nope", "in").unwrap_err(),
        "Invalid source_handle \"nope\" for agent 1 (A). Valid source handles: [value, message] or \"err\"."
    );
    assert_eq!(
        check("value", "config:other").unwrap_err(),
        "Invalid target_handle \"config:other\" for agent 2 (B). Valid target handles: [in] or [config:limit, config:mode]."
    );
    assert!(check("message", "limit").is_err());
}

#[test]
fn long_defaults_are_compacted() {
    assert_eq!(compact_default("\"short\""), "\"short\"");
    let long = "x".repeat(41);
    assert_eq!(compact_default(&long), format!("{}\u{2026}", "x".repeat(40)));
    assert_eq!(compact_default(&"y".repeat(40)), "y".repeat(40));
    // Characters, not bytes, are counted.
    let wide = "é".repeat(41);
    assert_eq!(compact_default(&wide), format!("{}\u{2026}", "é".repeat(40)));
}

#[test]
fn definition_lines_are_compact() {
    let configs = vec![
        ConfigSummary {
            key: "model".to_string(),
            value_type: Some("string".to_string()),
            default_json: "\"gpt\"".to_string(),
            hidden: false,
            readonly: false,
        },
        ConfigSummary {
            key: "secret".to_string(),
            value_type: None,
            default_json: "null".to_string(),
            hidden: true,
            readonly: false,
        },
        ConfigSummary {
            key: "n".to_string(),
            value_type: None,
            default_json: "1".to_string(),
            hidden: false,
            readonly: false,
        },
    ];
    let line = definition_line(
        "lib::Chat",
        &Some("Chat".to_string()),
        &None,
        &Some("  Talks to a model.\nMore details.".to_string()),
        &Some(vec!["message".to_string(), "reset".to_string()]),
        &Some(vec!["message".to_string()]),
        &configs,
    );
    assert_eq!(
        line,
        "lib::Chat | Chat (-) | Talks to a model. | in: message,reset | out: message | configs: model:string=\"gpt\", n:any=1"
    );
    let bare = definition_line("x", &None, &None, &None, &None, &None, &vec![]);
    assert_eq!(bare, "x | - (-) |  | in:  | out:  | configs: ");
}

#[test]
fn preset_saves_are_planned() {
    assert_eq!(
        plan_preset_save(false, Some("a".to_string()), None).err().unwrap(),
        "Saving is unavailable: this MCP server was started without a presets directory."
    );
    assert_eq!(
        plan_preset_save(true, None, None).err().unwrap(),
        "Preset has no name; pass the \"name\" parameter to save it."
    );
    let plan = plan_preset_save(true, None, Some("Old".to_string())).ok().unwrap();
    assert_eq!(plan.name, "Old");
    assert_eq!(plan.renamed_from, None);
    let plan = plan_preset_save(true, Some("New".to_string()), Some("Old".to_string())).ok().unwrap();
    assert_eq!(plan.name, "New");
    assert_eq!(plan.renamed_from, Some("Old".to_string()));
    assert!(plan_preset_save(true, Some("../x".to_string()), None).is_err());
}

#[test]
fn bearer_header_must_carry_the_exact_token() {
    assert!(bearer_authorized(Some("Bearer s3cret"), "s3cret"));
    assert!(!bearer_authorized(Some("Bearer s3cre"), "s3cret"));
    assert!(!bearer_authorized(Some("Bearer s3cret "), "s3cret"));
    assert!(!bearer_authorized(Some("bearer s3cret"), "s3cret"));
    assert!(!bearer_authorized(Some("s3cret"), "s3cret"));
    assert!(!bearer_authorized(None, "s3cret"));
    assert!(bearer_authorized(Some("Bearer "), ""));
}
