//! Usage telemetry summaries.

use vstd::prelude::*;

verus! {

/// How many commands were recorded, in total and per command.
#[derive(Debug, Clone)]
pub struct TelemetrySummary {
    pub total_commands: i64,
    pub by_command: Vec<(String, i64)>,
}

} // verus!
