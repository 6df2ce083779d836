# modular_agent_core

The core of a modular multi-agent orchestration framework, written in Verus:
every function in `src/` carries a `requires`/`ensures` contract that Verus
proves.

## Layout

- `src/` – the verified library:
  - `value`, `json`, `llm` – values passed between agents, and decoding chat
    messages (text or content blocks, tool calls, usage) from them and tool
    results into message content.
  - `spec` – agent and preset specifications and the update of an agent spec
    from a JSON patch.
  - `connections` – the connection graph between agents and routing by port.
  - `tool`, `tracking` – tool names and descriptions, the tool registry, the
    schedule of a batch of calls and the assembly of its results, coercion
    and validation of tool arguments against their JSON Schema, call
    deduplication per flow, and the loop guard.
  - `events`, `server` – the event buffer of the flow-editing MCP server and
    its request checks and messages.
  - `session` – session headers, the JSONL file layout, truncation repair and
    the context sent to the model after compaction.
  - `error`, `ids`, `agent`, `preset`, `mcp`, `text` – errors, id renaming,
    agent status and start decisions, preset info, MCP server configuration
    and string helpers.
- `tests/` – tests run against the compiled library.
- `app/` – the unverified runtime around it: serde forms, file and network
  I/O, asynchronous tool execution and MCP connections.

Each public proof function named `law_*` states a property relating several
operations, such as paging the event buffer without loss or repetition, or a
re-delivered message executing no tool call twice.
