//! Report types of the inter-procedural layer: call-graph cycles, loops,
//! dead code and blast zones.

use vstd::prelude::*;
use std::collections::HashMap;
use crate::analysis::json_types::{DeadSymbolJson, SymbolInfoJson};

verus! {

/// Kind of a call-graph cycle.
#[derive(Debug, Clone, Copy, PartialEq, Eq, Structural)]
pub enum CycleKind {
    /// Several functions calling each other
    MutualRecursion,
    /// A function calling itself
    SelfLoop,
}

/// Name of a cycle kind.
pub open spec fn cycle_kind_text(k: CycleKind) -> Seq<char> {
    match k {
        CycleKind::MutualRecursion => "MutualRecursion"@,
        CycleKind::SelfLoop => "SelfLoop"@,
    }
}

/// A member's display name: its qualified name, or `<unknown>`.
pub open spec fn member_name(fqn: Option<String>) -> Seq<char> {
    match fqn {
        Some(f) => f@,
        None => "<unknown>"@,
    }
}

/// A call-graph cycle as reported.
#[derive(Debug, Clone)]
pub struct CycleInfo {
    pub members: Vec<String>,
    pub cycle_type: String,
    pub size: usize,
}

impl CycleInfo {
    /// The report of a cycle with members of the given qualified names.
    pub fn from_members(member_fqns: &Vec<Option<String>>, kind: CycleKind) -> (r: CycleInfo)
        ensures
            r.members@.len() == member_fqns@.len(),
            forall|i: int| 0 <= i < r.members@.len() ==> (#[trigger] r.members@[i])@ == member_name(member_fqns@[i]),
            r.cycle_type@ == cycle_kind_text(kind),
            r.size == member_fqns@.len(),
    {
        let mut members: Vec<String> = Vec::new();
        let mut i: usize = 0;
        while i < member_fqns.len()
            invariant
                i <= member_fqns.len(),
                members@.len() == i,
                forall|k: int| 0 <= k < i ==> (#[trigger] members@[k])@ == member_name(member_fqns@[k]),
            decreases member_fqns.len() - i,
        {
            let name = match &member_fqns[i] {
                Some(f) => f.clone(),
                None => "<unknown>".to_owned(),
            };
            members.push(name);
            i = i + 1;
        }
        let cycle_type = match kind {
            CycleKind::MutualRecursion => "MutualRecursion".to_owned(),
            CycleKind::SelfLoop => "SelfLoop".to_owned(),
        };
        CycleInfo { members, cycle_type, size: member_fqns.len() }
    }
}

/// A natural loop of a function as reported.
#[derive(Debug, Clone)]
pub struct LoopInfo {
    pub header: usize,
    pub back_edge_from: usize,
    pub body_size: usize,
    pub nesting_level: usize,
    pub body_blocks: Vec<usize>,
}

/// Call-graph cycles together with each function's loops.
#[derive(Debug, Clone)]
pub struct EnhancedCycles {
    pub call_graph_cycles: Vec<CycleInfo>,
    pub function_loops: HashMap<String, Vec<LoopInfo>>,
    pub total_cycles: usize,
}

/// Uncalled functions together with each function's unreachable blocks.
#[derive(Debug, Clone)]
pub struct EnhancedDeadCode {
    pub uncalled_functions: Vec<DeadSymbolJson>,
    pub unreachable_blocks: HashMap<String, Vec<usize>>,
    pub total_dead_count: usize,
}

/// What a change to a symbol can reach, forwards and backwards.
#[derive(Debug, Clone)]
pub struct EnhancedBlastZone {
    pub target: String,
    pub forward_reachable: Vec<SymbolInfoJson>,
    pub backward_reachable: Vec<SymbolInfoJson>,
    pub path_impact: Option<PathImpactSummary>,
}

/// The blocks one execution path touches.
#[derive(Debug, Clone)]
pub struct PathImpactSummary {
    pub path_id: Option<String>,
    pub path_length: usize,
    pub blocks_affected: Vec<usize>,
    pub unique_blocks_count: usize,
}

} // verus!
