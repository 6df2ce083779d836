use modular_agent_core::tool::{
    concurrency_from_config, description_warning, effective_concurrency, is_valid_tool_name,
    parse_i64, pattern_lines, plan_tool_steps, timeout_limit, timeout_message,
    tool_names_matching, Coerced, ExecutionMode, ToolRegistry, ToolStep, coerce_string,
    invalid_patterns_error, failure_result_text, CallFailure,
};
use modular_agent_core::AgentError;

#[test]
fn test_is_valid_tool_name_accepts_valid() {
    assert!(is_valid_tool_name("a"));
    assert!(is_valid_tool_name("my_tool"));
    assert!(is_valid_tool_name("my-tool"));
    assert!(is_valid_tool_name("Tool_123-ABC"));
    assert!(is_valid_tool_name(&"x".repeat(64)));
}

#[test]
fn test_is_valid_tool_name_rejects_invalid() {
    assert!(!is_valid_tool_name(""));
    assert!(!is_valid_tool_name(&"x".repeat(65)));
    assert!(!is_valid_tool_name("my tool"));
    assert!(!is_valid_tool_name("my.tool"));
    assert!(!is_valid_tool_name("ツール"));
    assert!(!is_valid_tool_name("tool@1"));
}

#[test]
fn test_description_warning_flags_weak_descriptions() {
    let warning = description_warning("my_tool", "").expect("empty should warn");
    assert!(warning.contains("my_tool"));

    let warning = description_warning("my_tool", "  \t\n  ").expect("whitespace should warn");
    assert!(warning.contains("my_tool"));

    // 9 characters (including the space) is below the threshold.
    let warning = description_warning("my_tool", "too short").expect("short should warn");
    assert!(warning.contains("my_tool"));
    assert!(warning.contains("too short"));
}

#[test]
fn test_description_warning_accepts_adequate_descriptions() {
    assert!(description_warning("t", "0123456789").is_none());
    assert!(description_warning("t", "Fetches the current weather for a given city.").is_none());
    // Threshold counts characters, not bytes: 12 chars, 36 bytes.
    assert!(description_warning("t", "ツールの詳細な説明です。").is_none());
}

#[test]
fn description_warning_texts_are_exact() {
    assert_eq!(
        description_warning("t", " \n").unwrap(),
        "Tool 't' is registered without a description; the description is the most important factor for tool-calling performance and should explain what the tool does, when to use it, and what its parameters mean"
    );
    // The short description is trimmed and quoted with escapes.
    assert_eq!(
        description_warning("t", "  a\"b  ").unwrap(),
        "Tool 't' has a very short description \"a\\\"b\"; detailed descriptions (3-4+ sentences) significantly improve tool-calling performance"
    );
    // Nine characters warn, ten do not.
    assert!(description_warning("t", "123456789").is_some());
    assert!(description_warning("t", " 1234567890 ").is_none());
}

#[test]
fn default_execution_mode_is_sequential() {
    assert_eq!(ExecutionMode::default(), ExecutionMode::Sequential);
}

const P: ExecutionMode = ExecutionMode::Parallel;
const S: ExecutionMode = ExecutionMode::Sequential;

fn step(start: usize, end: usize, parallel: bool) -> ToolStep {
    ToolStep { start, end, parallel }
}

#[test]
fn parallel_runs_are_batched_between_sequential_barriers() {
    assert_eq!(plan_tool_steps(&vec![]), vec![]);
    assert_eq!(
        plan_tool_steps(&vec![P, P, S, P, S, S, P]),
        vec![
            step(0, 2, true),
            step(2, 3, false),
            step(3, 4, true),
            step(4, 5, false),
            step(5, 6, false),
            step(6, 7, true),
        ]
    );
    assert_eq!(plan_tool_steps(&vec![S, S]), vec![step(0, 1, false), step(1, 2, false)]);
    assert_eq!(plan_tool_steps(&vec![P, P, P]), vec![step(0, 3, true)]);
}

#[test]
fn concurrency_below_one_is_one() {
    assert_eq!(effective_concurrency(0), 1);
    assert_eq!(effective_concurrency(1), 1);
    assert_eq!(effective_concurrency(8), 8);
    assert_eq!(concurrency_from_config(-3), 1);
    assert_eq!(concurrency_from_config(0), 1);
    assert_eq!(concurrency_from_config(12), 12);
}

#[test]
fn preset_tool_timeouts() {
    assert_eq!(timeout_limit(0), None);
    assert_eq!(timeout_limit(-5), None);
    assert_eq!(timeout_limit(60), Some(60));
    assert_eq!(timeout_message(60), "Tool call timed out after 60 seconds");
    assert_eq!(timeout_message(-1), "Tool call timed out after -1 seconds");
}

#[test]
fn registry_registers_replaces_and_unregisters() {
    let mut reg: ToolRegistry<u32> = ToolRegistry::new();
    assert!(reg.register_tool("echo".to_string(), "Echoes its input back to the caller.", 1).is_none());
    let warning = reg.register_tool("short".to_string(), "tiny", 2);
    assert_eq!(
        warning.as_deref(),
        Some("Tool 'short' has a very short description \"tiny\"; detailed descriptions (3-4+ sentences) significantly improve tool-calling performance")
    );
    assert_eq!(reg.len(), 2);
    assert_eq!(reg.get_tool("echo"), Some(&1));
    // Same name replaces in place.
    reg.register_tool("echo".to_string(), "Echoes its input back to the caller.", 3);
    assert_eq!(reg.len(), 2);
    assert_eq!(reg.get_tool("echo"), Some(&3));
    assert_eq!(reg.names(), vec!["echo".to_string(), "short".to_string()]);
    reg.unregister_tool("echo");
    assert_eq!(reg.get_tool("echo"), None);
    assert_eq!(reg.names(), vec!["short".to_string()]);
    // Unknown names are ignored.
    reg.unregister_tool("missing");
    assert_eq!(reg.len(), 1);
}

#[test]
fn pattern_text_is_split_into_trimmed_lines() {
    assert_eq!(
        pattern_lines("  ^a.*\n\n b$ \r\n"),
        vec!["^a.*".to_string(), "b$".to_string()]
    );
    assert!(pattern_lines("").is_empty());
    assert!(pattern_lines(" \n \n").is_empty());
}

#[test]
fn tool_names_are_filtered_by_patterns() {
    let names = vec![
        "web_search".to_string(),
        "slack_post".to_string(),
        "web_fetch".to_string(),
    ];
    assert_eq!(
        tool_names_matching("^web_\n", &names).unwrap(),
        vec!["web_search".to_string(), "web_fetch".to_string()]
    );
    assert_eq!(
        tool_names_matching("post$\nfetch", &names).unwrap(),
        vec!["slack_post".to_string(), "web_fetch".to_string()]
    );
    // Only blank lines: no pattern, nothing matches.
    assert!(tool_names_matching(" \n", &names).unwrap().is_empty());
    // An invalid pattern reports the regex error.
    assert!(tool_names_matching("(", &names).is_err());
    match invalid_patterns_error("oops") {
        AgentError::InvalidValue(m) => assert_eq!(m, "Invalid regex patterns: oops"),
        other => panic!("unexpected {:?}", other),
    }
}

#[test]
fn integer_strings_parse_like_std() {
    assert_eq!(parse_i64("42"), Some(42));
    assert_eq!(parse_i64("+7"), Some(7));
    assert_eq!(parse_i64("-0012"), Some(-12));
    assert_eq!(parse_i64("9223372036854775807"), Some(i64::MAX));
    assert_eq!(parse_i64("-9223372036854775808"), Some(i64::MIN));
    assert_eq!(parse_i64("9223372036854775808"), None);
    assert_eq!(parse_i64("-9223372036854775809"), None);
    assert_eq!(parse_i64("99999999999999999999999"), None);
    assert_eq!(parse_i64("42.5"), None);
    assert_eq!(parse_i64(""), None);
    assert_eq!(parse_i64("-"), None);
    assert_eq!(parse_i64("+"), None);
    assert_eq!(parse_i64(" 1"), None);
    assert_eq!(parse_i64("1 "), None);
    assert_eq!(parse_i64("+-1"), None);
    for s in ["0", "-1", "123456789", "-9223372036854775808", "12a", "--1"] {
        assert_eq!(parse_i64(s), s.parse::<i64>().ok());
    }
}

#[test]
fn string_primitives_are_coerced_by_schema_type() {
    assert_eq!(coerce_string("integer", "42"), Some(Coerced::Integer(42)));
    // "42.5" is never truncated to an integer.
    assert_eq!(coerce_string("integer", "42.5"), None);
    assert_eq!(coerce_string("boolean", "true"), Some(Coerced::Boolean(true)));
    assert_eq!(coerce_string("boolean", "false"), Some(Coerced::Boolean(false)));
    assert_eq!(coerce_string("boolean", "yes"), None);
    assert_eq!(coerce_string("string", "42"), None);
}

#[test]
fn failed_call_results_are_explained() {
    assert_eq!(failure_result_text(&CallFailure::Aborted), "Operation aborted");
    assert_eq!(
        failure_result_text(&CallFailure::UnparsedArguments("EOF".to_string())),
        "Tool call arguments could not be parsed as JSON; the call was not executed. Re-issue the call with valid JSON arguments. EOF"
    );
    assert_eq!(
        failure_result_text(&CallFailure::InvalidArguments("at '': bad".to_string())),
        "Tool call arguments failed schema validation; the call was not executed. Re-issue the call with corrected arguments. Errors: at '': bad"
    );
    assert_eq!(failure_result_text(&CallFailure::Failed("boom".to_string())), "boom");
}
