# llm-tool-registry

A registry of tool definitions for LLM agents, verified with Verus.

- `src/order.rs`: the order of names (by UTF-8 bytes, as `str` compares) and
  a verified three-way comparison.
- `src/keyed.rs`: sequences of named entries kept in ascending name order,
  read as maps from name to entry, and the search that places a name in one.
- `src/tool.rs`: `ParamDef` and `ToolDef` with their fluent builders.
- `src/schema.rs`: `ToolSchema`, the schema of a tool (`name`,
  `description`, `input_schema` with `type`, `properties`, `required`), and
  `ToolDef::to_schema`.
- `src/registry.rs`: `ToolRegistry`, keyed by tool name.
- `src/laws.rs`: properties that relate several operations.
- `app/lib.rs`: turns a `ToolSchema` into a `serde_json::Value`.
