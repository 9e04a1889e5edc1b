//! The `mcp arcanum` command group.

use vstd::prelude::*;

pub mod begin;

verus! {

/// The `mcp arcanum` subcommands.
pub enum Commands {
    /// Ensure the daemon's MCP server is up and announce its URL on stdout.
    Begin(begin::Args),
}

} // verus!
