use modular_agent_core::agent::{plan_start, AgentStatus, StartAction};
use modular_agent_core::AgentError;
use modular_agent_core::connections::ConnectionSpec;
use modular_agent_core::ids::{board_name_for_var, channel_name_for_local, new_id, remap_connections};
use modular_agent_core::mcp::mcp_tool_name;

#[test]
fn ids_are_decimal_counter_values() {
    assert_eq!(new_id(1), "1");
    assert_eq!(new_id(0), "0");
    assert_eq!(new_id(1234), "1234");
}

#[test]
fn scoped_names() {
    assert_eq!(board_name_for_var("7", "count"), "%7/count");
    assert_eq!(channel_name_for_local("p", ""), "%p/");
    assert_eq!(mcp_tool_name("files", "read"), "files::read");
}

#[test]
fn connections_follow_renamed_agents() {
    let olds = vec!["a".to_string(), "b".to_string(), "a".to_string()];
    let news = vec!["1".to_string(), "2".to_string(), "3".to_string()];
    let connections = vec![
        ConnectionSpec {
            source: "a".into(),
            source_handle: "out".into(),
            target: "b".into(),
            target_handle: "in".into(),
        },
        ConnectionSpec {
            source: "x".into(),
            source_handle: "o".into(),
            target: "a".into(),
            target_handle: "i".into(),
        },
    ];
    let r = remap_connections(&olds, &news, &connections);
    // The last agent with an old id decides its new id.
    assert_eq!(r[0].source, "3");
    assert_eq!(r[0].target, "2");
    assert_eq!(r[0].source_handle, "out");
    assert_eq!(r[0].target_handle, "in");
    // Ids of no agent are kept.
    assert_eq!(r[1].source, "x");
    assert_eq!(r[1].target, "3");
}

#[test]
fn only_fresh_agents_start_and_only_running_ones_stop() {
    assert_eq!(AgentStatus::default(), AgentStatus::Init);
    assert!(AgentStatus::Init.needs_start());
    assert!(!AgentStatus::Start.needs_start());
    assert!(!AgentStatus::Stop.needs_start());
    assert!(AgentStatus::Start.needs_stop());
    assert!(!AgentStatus::Init.needs_stop());
}

#[test]
fn starting_an_agent_is_planned_from_its_status_and_definition() {
    assert!(matches!(
        plan_start("a1", false, Some(true), &AgentStatus::Init),
        Err(AgentError::AgentNotFound(id)) if id == "a1"
    ));
    assert!(matches!(
        plan_start("a1", true, None, &AgentStatus::Init),
        Err(AgentError::AgentDefinitionNotFound(id)) if id == "a1"
    ));
    assert_eq!(plan_start("a1", true, Some(false), &AgentStatus::Init).unwrap(), StartAction::SpawnTask);
    assert_eq!(plan_start("a1", true, Some(true), &AgentStatus::Init).unwrap(), StartAction::SpawnThread);
    assert_eq!(plan_start("a1", true, Some(true), &AgentStatus::Start).unwrap(), StartAction::AlreadyStarted);
    assert_eq!(plan_start("a1", true, Some(false), &AgentStatus::Stop).unwrap(), StartAction::AlreadyStarted);
}
