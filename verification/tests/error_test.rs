use modular_agent_core::AgentError;
use modular_agent_core::server::preset_error_text;

#[test]
fn retryable_variants_are_retryable() {
    assert!(
        AgentError::RateLimited {
            message: "slow down".into(),
            retry_after: None,
        }
        .is_retryable()
    );
    assert!(AgentError::Overloaded("busy".into()).is_retryable());
    assert!(AgentError::Timeout("deadline exceeded".into()).is_retryable());
}

#[test]
fn non_retryable_variants_are_not_retryable() {
    assert!(!AgentError::ContextOverflow("too long".into()).is_retryable());
    assert!(!AgentError::Cancelled.is_retryable());
    assert!(!AgentError::InvalidValue("bad".into()).is_retryable());
    assert!(!AgentError::IoError("disk full".into()).is_retryable());
}

#[test]
fn error_messages_follow_the_display_forms() {
    assert_eq!(AgentError::InvalidValue("bad".into()).to_string(), "Invalid bad value");
    assert_eq!(
        AgentError::InvalidArrayValue("integer".into()).to_string(),
        "Invalid integer value in array"
    );
    assert_eq!(
        AgentError::InvalidDefinition("kind".into(), "echo".into()).to_string(),
        "kind: Agent definition \"echo\" is invalid"
    );
    assert_eq!(
        AgentError::MissingDefinition("kind".into(), "echo".into()).to_string(),
        "kind: Agent definition \"echo\" is missing"
    );
    assert_eq!(AgentError::AgentNotFound("7".into()).to_string(), "Agent 7 not found");
    assert_eq!(AgentError::ConnectionAlreadyExists.to_string(), "Connection already exists");
    assert_eq!(AgentError::EmptySourceHandle.to_string(), "Source handle is empty");
    assert_eq!(AgentError::EmptyTargetHandle.to_string(), "Target handle is empty");
    assert_eq!(
        AgentError::PresetNameExists("p".into()).to_string(),
        "Preset name \"p\" already exists"
    );
    assert_eq!(
        AgentError::RateLimited {
            message: "slow".into(),
            retry_after: Some(std::time::Duration::from_secs(3)),
        }
        .to_string(),
        "Rate limited: slow"
    );
    assert_eq!(AgentError::Cancelled.to_string(), "Cancelled");
    assert_eq!(AgentError::Other("x".into()).to_string(), "Agent error: x");
    assert_eq!(AgentError::IoError("disk full".into()).to_string(), "IO error: disk full");
    assert_eq!(AgentError::TxNotInitialized.to_string(), "Message sender not initialized");
}

#[test]
fn rate_limited_with_retry_after_is_still_retryable() {
    assert!(
        AgentError::RateLimited {
            message: "later".into(),
            retry_after: Some(std::time::Duration::from_secs(30)),
        }
        .is_retryable()
    );
    assert!(!AgentError::Other("boom".into()).is_retryable());
}

#[test]
fn preset_error_text_guides_on_taken_names() {
    let text = preset_error_text(AgentError::PresetNameExists("Flow".into()));
    assert_eq!(
        text,
        "Preset name \"Flow\" already exists. Use list_presets to see open presets (and their ids), then pick a different name or work with the existing preset."
    );
    assert_eq!(
        preset_error_text(AgentError::PresetNotFound("9".into())),
        "Preset 9 not found"
    );
}
