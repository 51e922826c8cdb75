//! Path enumeration for CFG analysis.
//!
//! Execution paths through a function's control flow graph, from the entry
//! to an exit, discovered by depth-first search with cycle detection and
//! bounded loop unrolling. Feasibility checking is static: it looks at the
//! shape of a path (entry kind, terminators, reachability), not at data.
//!
//! Paths are classified as:
//! - **Normal:** entry to return
//! - **Error:** contains a panic, abort or unwinding call
//! - **Degenerate:** dead end, infinite loop or infeasible path
//! - **Unreachable:** statically unreachable code path

pub mod cached;
pub mod enumeration;
pub mod feasibility;
pub mod incremental;
pub mod iterative;
pub mod limits;
pub mod metadata;
pub mod search;

use vstd::prelude::*;
use vstd::std_specs::iter::IteratorSpec;
use crate::cfg::BlockId;
use crate::cfg::analysis::{first_with_id, node_from_id};
use crate::cfg::graph::{Cfg, cfg_blocks};
use crate::cfg::paths::limits::{hash_path, path_hash};

verus! {

/// Execution path through a CFG: a sequence of basic blocks from an entry
/// block to an exit block, identified by a BLAKE3 hash of the sequence.
#[derive(Debug, Clone, PartialEq, Eq, Hash)]
pub struct Path {
    /// Unique identifier (BLAKE3 hash of block sequence)
    pub path_id: String,
    /// Ordered block IDs in execution order
    pub blocks: Vec<BlockId>,
    /// Classification of this path
    pub kind: PathKind,
    /// First block (entry)
    pub entry: BlockId,
    /// Last block (exit)
    pub exit: BlockId,
}

/// First block of a sequence, 0 when empty.
pub open spec fn first_or_zero(s: Seq<usize>) -> usize {
    if s.len() == 0 { 0 } else { s[0] }
}

/// Last block of a sequence, 0 when empty.
pub open spec fn last_or_zero(s: Seq<usize>) -> usize {
    if s.len() == 0 { 0 } else { s.last() }
}

impl Path {
    /// Create a path from a block sequence; its identifier is the hash of
    /// the sequence.
    pub fn new(blocks: Vec<BlockId>, kind: PathKind) -> (r: Self)
        ensures
            r.blocks@ == blocks@,
            r.kind == kind,
            r.entry == first_or_zero(blocks@),
            r.exit == last_or_zero(blocks@),
            r.path_id@ == path_hash(blocks@),
    {
        let path_id = hash_path(blocks.as_slice());
        Self::with_id(path_id, blocks, kind)
    }

    /// Create a path with a pre-existing identifier (for paths loaded from
    /// storage, whose identifier was computed earlier).
    pub fn with_id(path_id: String, blocks: Vec<BlockId>, kind: PathKind) -> (r: Self)
        ensures
            r.blocks@ == blocks@,
            r.kind == kind,
            r.entry == first_or_zero(blocks@),
            r.exit == last_or_zero(blocks@),
            r.path_id@ == path_id@,
    {
        let entry = if blocks.len() == 0 { 0 } else { blocks[0] };
        let exit = if blocks.len() == 0 { 0 } else { blocks[blocks.len() - 1] };
        Path { path_id, blocks, kind, entry, exit }
    }

    /// Number of blocks in the path.
    pub fn len(&self) -> (r: usize)
        ensures
            r == self.blocks@.len(),
    {
        self.blocks.len()
    }

    /// The path has no blocks.
    pub fn is_empty(&self) -> (r: bool)
        ensures
            r == (self.blocks@.len() == 0),
    {
        self.blocks.len() == 0
    }

    /// The blocks in execution order.
    pub fn iter(&self) -> (r: std::slice::Iter<'_, BlockId>)
        ensures
            r.remaining() == self.blocks@.as_ref(),
    {
        self.blocks.as_slice().iter()
    }

    /// The path visits `block_id`.
    pub fn contains(&self, block_id: BlockId) -> (r: bool)
        ensures
            r == self.blocks@.contains(block_id),
    {
        let mut i: usize = 0;
        while i < self.blocks.len()
            invariant
                i <= self.blocks@.len(),
                forall|k: int| 0 <= k < i ==> self.blocks@[k] != block_id,
            decreases self.blocks@.len() - i,
        {
            if self.blocks[i] == block_id {
                return true;
            }
            i = i + 1;
        }
        false
    }

    /// The path's identifier, as its textual form.
    pub fn to_display_string(&self) -> (r: String)
        ensures
            r@ == self.path_id@,
    {
        self.path_id.clone()
    }
}

/// Classification of execution paths.
#[derive(Debug, Clone, Copy, PartialEq, Eq, Structural, Hash)]
pub enum PathKind {
    /// Standard entry -> return path
    Normal,
    /// Contains panic, abort, or error propagation
    Error,
    /// Dead end or infinite loop (no valid exit)
    Degenerate,
    /// Statically unreachable code path
    Unreachable,
}

impl PathKind {
    /// A normal execution path.
    pub fn is_normal(&self) -> (r: bool)
        ensures
            r == (*self is Normal),
    {
        matches!(self, PathKind::Normal)
    }

    /// A path through an error condition.
    pub fn is_error(&self) -> (r: bool)
        ensures
            r == (*self is Error),
    {
        matches!(self, PathKind::Error)
    }

    /// A degenerate (abnormally shaped) path.
    pub fn is_degenerate(&self) -> (r: bool)
        ensures
            r == (*self is Degenerate),
    {
        matches!(self, PathKind::Degenerate)
    }

    /// An unreachable path.
    pub fn is_unreachable(&self) -> (r: bool)
        ensures
            r == (*self is Unreachable),
    {
        matches!(self, PathKind::Unreachable)
    }
}

/// Find the node holding the block with identifier `block_id` (the first
/// such node), if any.
pub fn find_node_by_block_id(cfg: &Cfg, block_id: BlockId) -> (r: Option<usize>)
    ensures
        r == first_with_id(cfg_blocks(*cfg), block_id, cfg_blocks(*cfg).len()),
{
    node_from_id(cfg, block_id)
}

} // verus!
