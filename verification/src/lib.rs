//! A registry of tool definitions for LLM agents, with the tool schemas that
//! LLM APIs expect.
//!
//! Define tools with [`ToolDef`], collect them in a [`ToolRegistry`], and
//! produce their schemas with [`ToolDef::to_schema`] and
//! [`ToolRegistry::schemas`].
pub mod order;
pub mod keyed;
pub mod tool;
pub mod schema;
pub mod registry;
pub mod laws;

pub use registry::ToolRegistry;
pub use schema::{InputSchema, PropertySchema, ToolSchema};
pub use tool::{ParamDef, ToolDef};
