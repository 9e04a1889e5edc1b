//! The `mcp` command group.

use vstd::prelude::*;

pub mod arcanum;

verus! {

/// The `mcp` subcommands.
pub enum Commands {
    /// arcanum MCP server commands. Nested under the server's name so the
    /// host's `mcp <name> begin` plugin-launch convention resolves here
    /// (`<name>` = `arcanum`).
    Arcanum { command: arcanum::Commands },
}

} // verus!
