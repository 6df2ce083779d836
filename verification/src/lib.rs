//! Core logic of a modular multi-agent orchestration framework: error
//! classification, LLM message content, tool-call bookkeeping, connection
//! routing, session logs and the MCP server's event buffer, each with a
//! verified contract.

pub mod agent;
pub mod connections;
pub mod error;
pub mod events;
pub mod ids;
pub mod json;
pub mod llm;
pub mod mcp;
pub mod preset;
pub mod server;
pub mod session;
pub mod spec;
pub mod text;
pub mod tool;
pub mod tracking;
pub mod value;

pub use error::AgentError;
