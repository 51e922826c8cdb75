//! Control-flow graph data structures shared by the MIR and AST pipelines.

pub mod analysis;
pub mod ast;
pub mod block_graph;
pub mod edges_from_rows;
pub mod coordinates;
pub mod export;
pub mod git_utils;
pub mod diff;
pub mod dominance;
pub mod dominance_frontiers;
pub mod dominators;
pub mod edge;
pub mod graph;
pub mod hotpaths;
pub mod icfg;
pub mod icfg_builder;
pub mod icfg_graph;
pub mod loops;
pub mod mir;
pub mod node_set;
pub mod paths;
pub mod patterns;
pub mod post_dominators;
pub mod reachability;

use vstd::prelude::*;

pub use graph::Cfg;

verus! {

/// Block identifier (index of the block within its function).
pub type BlockId = usize;

/// Block classification.
#[derive(Debug, Clone, Copy, PartialEq, Eq, Structural)]
pub enum BlockKind {
    Entry,
    Normal,
    Exit,
}

/// Terminator instruction (simplified representation).
#[derive(Debug, Clone, PartialEq, Eq)]
pub enum Terminator {
    Goto { target: BlockId },
    SwitchInt { targets: Vec<BlockId>, otherwise: BlockId },
    Return,
    Unreachable,
    Call { target: Option<BlockId>, unwind: Option<BlockId> },
    Abort(String),
}

/// Source span of a basic block.
#[derive(Debug, Clone)]
pub struct SourceLocation {
    pub file_path: String,
    pub start_line: usize,
    pub start_column: usize,
    pub end_line: usize,
    pub end_column: usize,
}

/// Basic block in a CFG.
#[derive(Debug, Clone)]
pub struct BasicBlock {
    /// Identifier within the function (graph node index)
    pub id: BlockId,
    /// Database block id, when the block came from a database
    pub db_id: Option<i64>,
    /// Block kind (entry, normal, exit)
    pub kind: BlockKind,
    /// Statements in this block (textual form)
    pub statements: Vec<String>,
    /// Terminator instruction
    pub terminator: Terminator,
    /// Source location, when known
    pub source_location: Option<SourceLocation>,
    /// Dominator depth coordinate
    pub coord_x: i64,
    /// Loop nesting coordinate
    pub coord_y: i64,
    /// Branch distance coordinate
    pub coord_z: i64,
}

} // verus!
