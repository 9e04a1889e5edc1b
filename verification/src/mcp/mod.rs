//! The agent-facing MCP tools: their request shapes and the logic they run on
//! what the host and the laboratories hand back.

pub mod common;
pub mod hello;
pub mod list_skills;
pub mod load_skill;
