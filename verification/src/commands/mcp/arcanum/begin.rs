//! `mcp arcanum begin`: its arguments.

use vstd::prelude::*;

verus! {

/// The arguments of `mcp arcanum begin`.
pub struct Args {
    /// Re-inject the loaded skill each time the agent's `total_tokens` grows past
    /// this many tokens. Recorded for this agent's token-usage monitor.
    pub token_repeat: u64,
}

} // verus!
