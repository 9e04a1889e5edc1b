//! The command-line surface.

pub mod mcp;
