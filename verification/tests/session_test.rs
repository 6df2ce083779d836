use modular_agent_core::session::{
    complete_lines_len, default_version, empty_session_error, invalid_entry_error,
    invalid_header_error, new_entry_id, plan_context, session_lines, session_not_found, timestamp_now,
    ContextPlan, EntryHead, JsonlSessionStore, SessionMeta,
};
use modular_agent_core::AgentError;
use std::path::PathBuf;

fn message(id: &str) -> EntryHead {
    EntryHead::Message { id: id.to_string() }
}

fn compaction(summary: &str, first_kept_id: &str) -> EntryHead {
    EntryHead::Compaction {
        summary: summary.to_string(),
        first_kept_id: first_kept_id.to_string(),
    }
}

/// The texts of a context: the summary (if any) followed by the texts of
/// the included message entries.
fn context_texts(plan: &ContextPlan, texts: &[&str]) -> Vec<String> {
    let mut out = Vec::new();
    if let Some(s) = &plan.summary {
        out.push(s.clone());
    }
    for &i in &plan.messages {
        out.push(texts[i].to_string());
    }
    out
}

#[test]
fn test_build_context_no_compaction() {
    let entries = vec![message("e1"), message("e2")];
    let context = context_texts(&plan_context(&entries), &["a", "b"]);
    assert_eq!(context.len(), 2);
    assert_eq!(context[0], "a");
    assert_eq!(context[1], "b");
}

#[test]
fn test_build_context_with_compaction_drops_prefix() {
    let entries = vec![
        message("e1"),
        message("e2"),
        message("e3"),
        message("e4"),
        compaction("the summary", "e3"),
    ];
    let context = context_texts(
        &plan_context(&entries),
        &["old1", "old2", "kept", "tail", ""],
    );
    assert_eq!(context.len(), 3);
    assert_eq!(context[0], "[Conversation summary]\nthe summary");
    assert_eq!(context[1], "kept");
    assert_eq!(context[2], "tail");
}

#[test]
fn test_build_context_last_compaction_wins() {
    let entries = vec![
        message("e1"),
        compaction("first summary", "e1"),
        message("e2"),
        message("e3"),
        compaction("second summary", "e3"),
        message("e4"),
    ];
    let context = context_texts(&plan_context(&entries), &["a", "", "b", "c", "", "d"]);
    assert_eq!(context.len(), 3);
    assert_eq!(context[0], "[Conversation summary]\nsecond summary");
    assert_eq!(context[1], "c");
    assert_eq!(context[2], "d");
}

#[test]
fn test_build_context_first_kept_id_not_found_falls_back() {
    let entries = vec![
        message("e1"),
        compaction("the summary", "nonexistent"),
        message("e2"),
        message("e3"),
    ];
    let context = context_texts(&plan_context(&entries), &["old", "", "after1", "after2"]);
    assert_eq!(context.len(), 3);
    assert_eq!(context[0], "[Conversation summary]\nthe summary");
    assert_eq!(context[1], "after1");
    assert_eq!(context[2], "after2");
}

#[test]
fn empty_log_has_empty_context() {
    let plan = plan_context(&vec![]);
    assert!(plan.summary.is_none());
    assert!(plan.messages.is_empty());
}

#[test]
fn test_generated_ids_are_unique() {
    let m1 = SessionMeta::new();
    let m2 = SessionMeta::new();
    assert_ne!(m1.id, m2.id);
    let e1 = new_entry_id();
    let e2 = new_entry_id();
    assert_ne!(e1, e2);
}

#[test]
fn session_meta_shape() {
    let meta = SessionMeta::new();
    assert_eq!(meta.version, 1);
    assert_eq!(default_version(), 1);
    assert_eq!(meta.parent_session, None);
    assert_eq!(meta.id.len(), 36);
    assert_eq!(meta.id.as_bytes()[14], b'4');
    assert!(meta.id.chars().all(|c| c == '-' || c.is_ascii_hexdigit() && !c.is_ascii_uppercase()));
    assert!(!meta.created_at.is_empty());
}

#[test]
fn crash_truncated_tails_are_cut() {
    assert_eq!(complete_lines_len(""), 0);
    assert_eq!(complete_lines_len("{}\n"), 3);
    assert_eq!(complete_lines_len("{}\n{\"type\":\"mes"), 3);
    assert_eq!(complete_lines_len("partial"), 0);
    assert_eq!(complete_lines_len("a\nb\n"), 4);
}

#[test]
fn session_files_live_in_the_store_directory() {
    let store = JsonlSessionStore::new(PathBuf::from("/tmp/sessions"));
    assert_eq!(store.session_path("abc"), PathBuf::from("/tmp/sessions/abc.jsonl"));
    let copy = store.clone();
    assert_eq!(copy.dir(), &PathBuf::from("/tmp/sessions"));
    match session_not_found("s1") {
        AgentError::Other(m) => assert_eq!(m, "Session not found: s1"),
        other => panic!("unexpected {:?}", other),
    }
}

#[test]
fn session_lines_keep_only_complete_lines() {
    assert_eq!(session_lines(""), Vec::<String>::new());
    assert_eq!(session_lines("{\"id\":\"s\"}"), Vec::<String>::new());
    assert_eq!(session_lines("head\n"), vec!["head".to_string()]);
    assert_eq!(
        session_lines("head\nfirst\r\n\nsecond\n{\"trunc"),
        vec![
            "head".to_string(),
            "first".to_string(),
            String::new(),
            "second".to_string()
        ]
    );
}

#[test]
fn session_lines_agree_with_the_complete_prefix() {
    let content = "h\ne1\ne2\npartial";
    let n = complete_lines_len(content);
    let expected: Vec<String> = content[..n].lines().map(|l| l.to_string()).collect();
    assert_eq!(session_lines(content), expected);
}

fn parse_error_text(e: AgentError) -> String {
    match e {
        AgentError::JsonParseError(m) => m,
        other => panic!("expected a JSON parse error, got {:?}", other),
    }
}

#[test]
fn session_load_error_texts() {
    assert_eq!(
        parse_error_text(empty_session_error("abc")),
        "Session file for abc is empty (missing header line)"
    );
    assert_eq!(
        parse_error_text(invalid_header_error("abc", "expected value")),
        "Invalid session header for abc: expected value"
    );
    assert_eq!(
        parse_error_text(invalid_entry_error(0, "abc", "EOF")),
        "Invalid entry at line 2 of session abc: EOF"
    );
    assert_eq!(
        parse_error_text(invalid_entry_error(9, "abc", "EOF")),
        "Invalid entry at line 11 of session abc: EOF"
    );
}

#[test]
fn garbage_complete_line_is_kept_but_truncated_tail_is_dropped() {
    let with_garbage = "{\"id\":\"s\"}\n{\"type\":\"message\"}\nnot json\n";
    assert_eq!(session_lines(with_garbage).last().map(String::as_str), Some("not json"));
    let truncated = "{\"id\":\"s\"}\n{\"type\":\"message\"}\n{\"type\":\"message\",\"id\":\"e2";
    assert_eq!(complete_lines_len(truncated), "{\"id\":\"s\"}\n{\"type\":\"message\"}\n".len());
    assert_eq!(session_lines(truncated).len(), 2);
}

#[test]
fn appended_lines_are_read_back_and_fragments_ignored() {
    let base = "{\"id\":\"s\"}\n";
    let mut grown = base.to_string();
    grown.push_str("{\"id\":\"e1\"}\n");
    let mut expected = session_lines(base);
    expected.push("{\"id\":\"e1\"}".to_string());
    assert_eq!(session_lines(&grown), expected);
    let mut torn = grown.clone();
    torn.push_str("{\"id\":\"e2");
    assert_eq!(session_lines(&torn), session_lines(&grown));
}

#[test]
fn timestamps_are_rfc3339_in_utc() {
    let t = timestamp_now();
    assert!(t.len() >= 25);
    assert!(t.ends_with("+00:00"));
    assert_eq!(&t[10..11], "T");
}

#[test]
fn a_repaired_file_takes_appends_on_their_own_lines() {
    let content = "{\"id\":\"s\"}\n{\"id\":\"e1\"}\n{\"id\":\"e2";
    let mut repaired = content[..complete_lines_len(content)].to_string();
    assert_eq!(session_lines(&repaired), session_lines(content));
    repaired.push_str("{\"id\":\"e3\"}\n");
    let mut expected = session_lines(content);
    expected.push("{\"id\":\"e3\"}".to_string());
    assert_eq!(session_lines(&repaired), expected);
}
