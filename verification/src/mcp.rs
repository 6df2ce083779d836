//! Configuration of the external MCP servers whose tools are registered
//! for LLM function calling.

use std::collections::HashMap;
use vstd::prelude::*;
use crate::text::concat3;

verus! {

/// MCP configuration: the servers to start, by name (the `mcpServers`
/// object of an `mcp.json` file).
#[derive(Debug)]
pub struct MCPConfig {
    /// Map of server names to their configurations.
    pub mcp_servers: HashMap<String, MCPServerConfig>,
}

/// Configuration for a single MCP server: how to start its process.
#[derive(Debug, Clone)]
pub struct MCPServerConfig {
    /// The command to execute (e.g., "npx", "node", "python").
    pub command: String,
    /// Arguments to pass to the command.
    pub args: Vec<String>,
    /// Optional environment variables for the process.
    pub env: Option<HashMap<String, String>>,
}

/// The registered name of a tool of an MCP server: `server::tool`.
pub open spec fn mcp_tool_text(server: Seq<char>, tool: Seq<char>) -> Seq<char> {
    server + "::"@ + tool
}

/// The name under which a tool of an MCP server is registered.
pub fn mcp_tool_name(server: &str, tool: &str) -> (r: String)
    ensures
        r@ == mcp_tool_text(server@, tool@),
{
    concat3(server, "::", tool)
}

} // verus!
