use modular_agent_core::tracking::{
    dispatch_tool_calls, Dispatch,
    loop_limit_notice, select_tool_calls, truncated_call_notice, CallRef, ExecutedCalls, FlowTable,
    LoopAction, LoopCounts, LoopInput, MAX_TRACKED_CTX_KEYS,
};

fn some(s: &str) -> Option<String> {
    Some(s.to_string())
}

/// A final assistant message with one tool call.
fn final_with_calls(id: Option<String>) -> LoopInput {
    LoopInput {
        role: "assistant".to_string(),
        streaming: false,
        tool_call_count: 1,
        id,
    }
}

/// A streaming partial of an assistant message with one tool call.
fn partial(id: Option<String>) -> LoopInput {
    LoopInput {
        streaming: true,
        ..final_with_calls(id)
    }
}

#[test]
fn streaming_partials_are_not_double_counted() {
    // Only the final (countable) delivery of a streaming turn counts.
    let mut counts = LoopCounts::new();
    assert_eq!(counts.observe("flow", Some(&partial(some("m1"))), 25), LoopAction::Forward);
    assert_eq!(counts.observe("flow", Some(&partial(some("m1"))), 25), LoopAction::Forward);
    assert_eq!(counts.observe("flow", Some(&final_with_calls(some("m1"))), 25), LoopAction::Forward);
    assert_eq!(counts.get("flow"), Some((1, some("m1"))));
}

#[test]
fn same_id_final_redelivered_counts_once() {
    let mut counts = LoopCounts::new();
    assert_eq!(counts.observe("flow", Some(&final_with_calls(some("m1"))), 25), LoopAction::Forward);
    assert_eq!(counts.observe("flow", Some(&final_with_calls(some("m1"))), 25), LoopAction::Forward);
    assert_eq!(counts.get("flow"), Some((1, some("m1"))));
}

#[test]
fn blocks_after_max_iterations_and_drops_redelivery() {
    let mut counts = LoopCounts::new();
    assert_eq!(counts.observe("flow", Some(&final_with_calls(some("m1"))), 2), LoopAction::Forward);
    assert_eq!(counts.observe("flow", Some(&final_with_calls(some("m2"))), 2), LoopAction::Forward);
    assert_eq!(counts.observe("flow", Some(&final_with_calls(some("m3"))), 2), LoopAction::LimitExceeded);
    // A re-delivered duplicate of the blocked message is neither forwarded
    // nor reported again.
    assert_eq!(counts.observe("flow", Some(&final_with_calls(some("m3"))), 2), LoopAction::Drop);
    assert_eq!(counts.get("flow"), Some((3, some("m3"))));
    assert_eq!(
        loop_limit_notice(2),
        "Loop limit reached: the tool-call cycle exceeded the configured max_iterations of 2 and has been stopped."
    );
}

#[test]
fn uncounted_values_pass_even_over_limit_and_limits_can_be_disabled() {
    let mut counts = LoopCounts::new();
    assert_eq!(counts.observe("flow", Some(&final_with_calls(some("m1"))), 1), LoopAction::Forward);
    assert_eq!(counts.observe("flow", Some(&final_with_calls(some("m2"))), 1), LoopAction::LimitExceeded);
    assert_eq!(counts.observe("flow", None, 1), LoopAction::Forward);
    let mut unlimited = LoopCounts::new();
    for i in 0..50 {
        assert_eq!(unlimited.observe("flow", Some(&final_with_calls(Some(format!("m{i}")))), 0), LoopAction::Forward);
    }
    assert_eq!(unlimited.get("flow"), Some((50, some("m49"))));
    // Messages without an id cannot be deduplicated and are always counted.
    let mut anon = LoopCounts::new();
    anon.observe("flow", Some(&final_with_calls(None)), -1);
    anon.observe("flow", Some(&final_with_calls(None)), -1);
    assert_eq!(anon.get("flow"), Some((2, None)));
}

#[test]
fn separate_flows_count_independently_and_clear_resets() {
    let mut counts = LoopCounts::new();
    assert_eq!(counts.observe("a", Some(&final_with_calls(some("a1"))), 1), LoopAction::Forward);
    assert_eq!(counts.observe("a", Some(&final_with_calls(some("a2"))), 1), LoopAction::LimitExceeded);
    assert_eq!(counts.observe("b", Some(&final_with_calls(some("b1"))), 1), LoopAction::Forward);
    assert_eq!(counts.len(), 2);
    counts.clear();
    assert_eq!(counts.len(), 0);
    assert_eq!(counts.observe("a", Some(&final_with_calls(some("a3"))), 1), LoopAction::Forward);
}

#[test]
fn flow_table_evicts_the_oldest_flow() {
    let mut table: FlowTable<u32> = FlowTable::new();
    for i in 0..MAX_TRACKED_CTX_KEYS {
        table.record(&format!("k{i}"), i as u32);
    }
    assert_eq!(table.len(), MAX_TRACKED_CTX_KEYS);
    // Updating an existing flow does not evict.
    table.record("k0", 99);
    assert_eq!(table.get("k0"), Some(&99));
    table.record("new", 7);
    assert_eq!(table.len(), MAX_TRACKED_CTX_KEYS);
    assert_eq!(table.get("k0"), None);
    assert_eq!(table.get("k1"), Some(&1));
    assert_eq!(table.get("new"), Some(&7));
    table.clear();
    assert_eq!(table.len(), 0);
}

fn call(name: &str, id: Option<&str>) -> CallRef {
    CallRef {
        name: name.to_string(),
        id: id.map(str::to_string),
    }
}

#[test]
fn executed_calls_are_skipped_on_redelivery() {
    let mut executed = ExecutedCalls::new();
    let calls = vec![call("a", Some("c1")), call("b", None), call("a", Some("c2"))];
    assert_eq!(select_tool_calls(&mut executed, "flow", &calls, None), vec![0, 1, 2]);
    assert!(executed.is_executed("flow", "c1"));
    assert!(executed.is_executed("flow", "c2"));
    assert!(!executed.is_executed("other", "c1"));
    // The same final message again: only the call without an id runs.
    assert_eq!(select_tool_calls(&mut executed, "flow", &calls, None), vec![1]);
    // Another flow has its own record.
    assert_eq!(select_tool_calls(&mut executed, "other", &calls, None), vec![0, 1, 2]);
    executed.clear();
    assert_eq!(executed.len(), 0);
}

#[test]
fn calls_to_tools_outside_the_filter_are_dropped() {
    let mut executed = ExecutedCalls::new();
    let calls = vec![call("a", Some("c1")), call("b", Some("c2"))];
    let allowed = vec!["b".to_string()];
    assert_eq!(select_tool_calls(&mut executed, "flow", &calls, Some(&allowed)), vec![1]);
    // The dropped call was not recorded.
    assert!(!executed.is_executed("flow", "c1"));
    assert!(executed.is_executed("flow", "c2"));
}

#[test]
fn truncated_calls_are_reported() {
    assert_eq!(
        truncated_call_notice("web_search"),
        "Tool call \"web_search\" was not executed: output hit the token limit; arguments may be truncated. Re-issue with complete arguments."
    );
}

#[test]
fn executed_ids_are_per_flow_and_capped() {
    let mut executed = ExecutedCalls::new();
    for i in 0..=MAX_TRACKED_CTX_KEYS {
        executed.mark_executed(&format!("f{i}"), "id".to_string());
    }
    assert_eq!(executed.len(), MAX_TRACKED_CTX_KEYS);
    assert!(!executed.is_executed("f0", "id"));
    assert!(executed.is_executed("f1", "id"));
}

#[test]
fn only_final_assistant_messages_with_calls_are_counted() {
    let mut counts = LoopCounts::new();
    let user = LoopInput { role: "user".to_string(), ..final_with_calls(some("u1")) };
    let no_calls = LoopInput { tool_call_count: 0, ..final_with_calls(some("n1")) };
    assert_eq!(counts.observe("flow", Some(&user), 1), LoopAction::Forward);
    assert_eq!(counts.observe("flow", Some(&no_calls), 1), LoopAction::Forward);
    assert_eq!(counts.observe("flow", Some(&partial(some("p1"))), 1), LoopAction::Forward);
    assert_eq!(counts.observe("flow", None, 1), LoopAction::Forward);
    assert_eq!(counts.get("flow"), None);
    assert_eq!(counts.observe("flow", Some(&final_with_calls(some("a1"))), 1), LoopAction::Forward);
    assert_eq!(counts.get("flow"), Some((1, some("a1"))));
}

#[test]
fn dispatch_handles_only_final_messages_with_calls() {
    let mut executed = ExecutedCalls::new();
    let calls = vec![
        CallRef { name: "search".to_string(), id: some("c1") },
        CallRef { name: "write".to_string(), id: some("c2") },
    ];
    assert_eq!(
        dispatch_tool_calls(&mut executed, "flow", true, Some(&calls), None, None),
        Dispatch::Ignore
    );
    assert_eq!(dispatch_tool_calls(&mut executed, "flow", false, None, None, None), Dispatch::Ignore);
    assert!(!executed.is_executed("flow", "c1"));
    assert_eq!(
        dispatch_tool_calls(&mut executed, "flow", false, Some(&calls), None, Some("stop")),
        Dispatch::Execute(vec![0, 1])
    );
    assert!(executed.is_executed("flow", "c1"));
    assert_eq!(
        dispatch_tool_calls(&mut executed, "flow", false, Some(&calls), None, None),
        Dispatch::Execute(vec![])
    );
}

#[test]
fn dispatch_reports_truncated_calls_once() {
    let mut executed = ExecutedCalls::new();
    let calls = vec![CallRef { name: "search".to_string(), id: some("c1") }];
    assert_eq!(
        dispatch_tool_calls(&mut executed, "flow", false, Some(&calls), None, Some("length")),
        Dispatch::ReportTruncated(vec![0])
    );
    assert_eq!(
        dispatch_tool_calls(&mut executed, "flow", false, Some(&calls), None, Some("length")),
        Dispatch::ReportTruncated(vec![])
    );
}
