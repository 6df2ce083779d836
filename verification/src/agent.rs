//! The lifecycle status of an agent instance.

use vstd::prelude::*;
use crate::error::AgentError;

verus! {

/// The lifecycle status of an agent.
#[derive(Debug, Clone, PartialEq, Structural)]
pub enum AgentStatus {
    /// Created, not started yet.
    Init,
    /// Running.
    Start,
    /// Stopped.
    Stop,
}

impl Default for AgentStatus {
    fn default() -> (r: Self)
        ensures
            r == AgentStatus::Init,
    {
        AgentStatus::Init
    }
}

impl AgentStatus {
    /// Whether an agent in this status gets started by `start_agent`: only
    /// a freshly created one is; starting a running or stopped agent does
    /// nothing.
    pub fn needs_start(&self) -> (r: bool)
        ensures
            r == (*self == AgentStatus::Init),
    {
        match self {
            AgentStatus::Init => true,
            _ => false,
        }
    }

    /// Whether stopping an agent in this status calls its `stop`: only a
    /// running one is stopped.
    pub fn needs_stop(&self) -> (r: bool)
        ensures
            r == (*self == AgentStatus::Start),
    {
        match self {
            AgentStatus::Start => true,
            _ => false,
        }
    }
}


/// What starting an agent does once its definition is known.
#[derive(Debug, Clone, Copy, PartialEq, Eq, Structural)]
pub enum StartAction {
    /// Nothing: the agent is running or stopped already.
    AlreadyStarted,
    /// Run the agent's message loop as a task of the async runtime.
    SpawnTask,
    /// Run the agent's message loop on a thread of its own, as its
    /// definition asks.
    SpawnThread,
}

/// The decisions of starting the agent `agent_id`, from whether it exists,
/// whether its definition uses a native thread (`None` when the definition
/// is not registered) and its status: the agent must exist and its
/// definition be registered; only an agent never started gets its message
/// loop, on a thread of its own or as a task as the definition asks.
pub fn plan_start(
    agent_id: &str,
    agent_found: bool,
    native_thread: Option<bool>,
    status: &AgentStatus,
) -> (r: Result<StartAction, AgentError>)
    ensures
        !agent_found ==> (r matches Err(AgentError::AgentNotFound(id)) && id@ == agent_id@),
        agent_found && native_thread is None ==> (r matches Err(
            AgentError::AgentDefinitionNotFound(id),
        ) && id@ == agent_id@),
        agent_found && native_thread is Some ==> r == Ok::<StartAction, AgentError>(
            if *status != AgentStatus::Init {
                StartAction::AlreadyStarted
            } else if native_thread->0 {
                StartAction::SpawnThread
            } else {
                StartAction::SpawnTask
            },
        ),
{
    if !agent_found {
        return Err(AgentError::AgentNotFound(agent_id.to_owned()));
    }
    let native = match native_thread {
        Some(n) => n,
        None => return Err(AgentError::AgentDefinitionNotFound(agent_id.to_owned())),
    };
    if !status.needs_start() {
        Ok(StartAction::AlreadyStarted)
    } else if native {
        Ok(StartAction::SpawnThread)
    } else {
        Ok(StartAction::SpawnTask)
    }
}

} // verus!
