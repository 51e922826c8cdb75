//! Function-level analyses built on the CFG core: risk factors, refactoring
//! suggestions, statistics, and the plain report types of the
//! inter-procedural layer.

pub mod analysis_types;
pub mod call_graph;
pub mod json_types;
pub mod risk;
pub mod severity;
pub mod stats;
pub mod suggest;
pub mod telemetry;
