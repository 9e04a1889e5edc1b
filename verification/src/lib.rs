//! arcanum: the verified core of an ObjectiveAI plugin that lists and loads
//! laboratory skills and keeps a loaded skill re-injected into an agent's
//! context as its token usage grows.

pub mod commands;
pub mod config;
pub mod mcp;
pub mod monitor;
pub mod text;
