//! Static feasibility checking and classification of paths.
//!
//! Feasibility looks at the shape of a path only: the first block must be
//! an entry block, the last must end execution properly, and every block
//! must exist (and, with precomputed reachability, be reachable). No
//! symbolic execution is done, so conflicting branch conditions are not
//! detected.

use vstd::prelude::*;
use std::collections::HashSet;
use crate::cfg::{BlockId, BlockKind, Terminator, BasicBlock};
use crate::cfg::analysis::{first_with_id, lemma_first_with_id};
use crate::cfg::graph::{Cfg, CfgEdge, cfg_blocks, cfg_edges, node_count, block, reachable_from};
use crate::cfg::reachability::is_reachable_from_entry;
use crate::cfg::paths::{PathKind, find_node_by_block_id};

verus! {

broadcast use vstd::std_specs::hash::group_hash_axioms;

/// A terminator that ends a feasible path: a return, an abort, a call that
/// cannot unwind, or a call that can unwind but also returns.
pub open spec fn is_valid_path_end(t: Terminator) -> bool {
    match t {
        Terminator::Return => true,
        Terminator::Abort(_) => true,
        Terminator::Call { target, unwind } => unwind is None || target is Some,
        _ => false,
    }
}

/// The block with identifier `id` exists in the CFG.
pub open spec fn id_exists(bs: Seq<BasicBlock>, id: usize) -> bool {
    first_with_id(bs, id, bs.len()) is Some
}

/// The block with identifier `id` (its first node), when it exists.
pub open spec fn block_with_id(bs: Seq<BasicBlock>, id: usize) -> BasicBlock {
    bs[first_with_id(bs, id, bs.len()).unwrap() as int]
}

/// The shape checks of a feasible path, apart from reachability: non-empty,
/// starting at an entry block, ending at a block with a valid path end, all
/// intermediate blocks existing.
pub open spec fn feasible_shape(bs: Seq<BasicBlock>, blocks: Seq<usize>) -> bool {
    &&& blocks.len() > 0
    &&& id_exists(bs, blocks[0])
    &&& block_with_id(bs, blocks[0]).kind == BlockKind::Entry
    &&& id_exists(bs, blocks.last())
    &&& is_valid_path_end(block_with_id(bs, blocks.last()).terminator)
    &&& forall|k: int| 1 <= k < blocks.len() - 1 ==> id_exists(bs, #[trigger] blocks[k])
}

/// Statically feasible path: see `feasible_shape`.
pub fn is_feasible_path(cfg: &Cfg, blocks: &[BlockId]) -> (r: bool)
    ensures
        r == feasible_shape(cfg_blocks(*cfg), blocks@),
{
    let ghost bs = cfg_blocks(*cfg);
    let _n = node_count(cfg);
    proof {
        lemma_first_with_id(bs, if blocks@.len() > 0 { blocks@[0] } else { 0 }, bs.len());
    }
    if blocks.len() == 0 {
        return false;
    }
    let first = match find_node_by_block_id(cfg, blocks[0]) {
        Some(i) => i,
        None => return false,
    };
    if block(cfg, first).kind != BlockKind::Entry {
        return false;
    }
    proof {
        lemma_first_with_id(bs, blocks@.last(), bs.len());
    }
    let last = match find_node_by_block_id(cfg, blocks[blocks.len() - 1]) {
        Some(i) => i,
        None => return false,
    };
    if !valid_path_end(&block(cfg, last).terminator) {
        return false;
    }
    middle_blocks_exist(cfg, blocks)
}

/// Every block strictly between the first and the last exists.
fn middle_blocks_exist(cfg: &Cfg, blocks: &[BlockId]) -> (r: bool)
    requires
        blocks@.len() > 0,
    ensures
        r == forall|k: int| 1 <= k < blocks@.len() - 1 ==> id_exists(cfg_blocks(*cfg), #[trigger] blocks@[k]),
{
    let mut k: usize = 1;
    while k < blocks.len() - 1
        invariant
            1 <= k,
            blocks@.len() > 0,
            k <= blocks@.len(),
            forall|j: int| 1 <= j < k && j < blocks@.len() - 1 ==> id_exists(cfg_blocks(*cfg), #[trigger] blocks@[j]),
        decreases blocks@.len() - k,
    {
        if find_node_by_block_id(cfg, blocks[k]).is_none() {
            return false;
        }
        k = k + 1;
    }
    true
}

/// Whether a terminator ends a feasible path (see `is_valid_path_end`).
fn valid_path_end(t: &Terminator) -> (r: bool)
    ensures
        r == is_valid_path_end(*t),
{
    match t {
        Terminator::Return => true,
        Terminator::Abort(_) => true,
        Terminator::Call { target, unwind } => unwind.is_none() || target.is_some(),
        _ => false,
    }
}

/// Feasible path with reachability precomputed: `feasible_shape` and every
/// block listed as reachable.
pub fn is_feasible_path_precomputed(cfg: &Cfg, blocks: &[BlockId], reachable_blocks: &HashSet<BlockId>) -> (r: bool)
    ensures
        r == (feasible_shape(cfg_blocks(*cfg), blocks@)
            && forall|k: int| 0 <= k < blocks@.len() ==> reachable_blocks@.contains(#[trigger] blocks@[k])),
{
    if blocks.len() == 0 {
        return false;
    }
    let shape = is_feasible_path(cfg, blocks);
    let all = all_listed(blocks, reachable_blocks);
    shape && all
}

/// Every block of the path is in `set`.
fn all_listed(blocks: &[BlockId], set: &HashSet<BlockId>) -> (r: bool)
    ensures
        r == forall|k: int| 0 <= k < blocks@.len() ==> set@.contains(#[trigger] blocks@[k]),
{
    let mut k: usize = 0;
    while k < blocks.len()
        invariant
            k <= blocks@.len(),
            forall|j: int| 0 <= j < k ==> set@.contains(#[trigger] blocks@[j]),
        decreases blocks@.len() - k,
    {
        if !set.contains(&blocks[k]) {
            return false;
        }
        k = k + 1;
    }
    true
}

/// What a single terminator says about a path through it: an abort or a
/// call that can unwind makes it an error path, an unreachable terminator
/// makes it degenerate.
pub open spec fn terminator_verdict(t: Terminator) -> Option<PathKind> {
    match t {
        Terminator::Abort(_) => Some(PathKind::Error),
        Terminator::Call { unwind: Some(_), .. } => Some(PathKind::Error),
        Terminator::Unreachable => Some(PathKind::Degenerate),
        _ => None,
    }
}

/// Verdict of one block of a path, checking reachability from the entry:
/// a missing block is degenerate, an unreachable one unreachable, then the
/// terminator decides.
pub open spec fn block_verdict(bs: Seq<BasicBlock>, es: Seq<CfgEdge>, id: usize) -> Option<PathKind> {
    match first_with_id(bs, id, bs.len()) {
        None => Some(PathKind::Degenerate),
        Some(i) => if !reachable_from(es, 0, i) {
            Some(PathKind::Unreachable)
        } else {
            terminator_verdict(bs[i as int].terminator)
        },
    }
}

/// The first verdict among `blocks[i..]`.
pub open spec fn first_verdict(bs: Seq<BasicBlock>, es: Seq<CfgEdge>, blocks: Seq<usize>, i: int) -> Option<PathKind>
    decreases blocks.len() - i,
{
    if i < 0 || i >= blocks.len() {
        None
    } else {
        match block_verdict(bs, es, blocks[i]) {
            Some(k) => Some(k),
            None => first_verdict(bs, es, blocks, i + 1),
        }
    }
}

/// Classification of a path: degenerate when empty; otherwise the first
/// block verdict in path order; otherwise degenerate unless the last block
/// returns, in which case normal.
pub open spec fn classify_spec(bs: Seq<BasicBlock>, es: Seq<CfgEdge>, blocks: Seq<usize>) -> PathKind {
    if blocks.len() == 0 {
        PathKind::Degenerate
    } else {
        match first_verdict(bs, es, blocks, 0) {
            Some(k) => k,
            None => if block_with_id(bs, blocks.last()).terminator is Return {
                PathKind::Normal
            } else {
                PathKind::Degenerate
            },
        }
    }
}

/// Verdict of a terminator as a value.
fn verdict_of(t: &Terminator) -> (r: Option<PathKind>)
    ensures
        r == terminator_verdict(*t),
{
    match t {
        Terminator::Abort(_) => Some(PathKind::Error),
        Terminator::Call { unwind: Some(_), .. } => Some(PathKind::Error),
        Terminator::Unreachable => Some(PathKind::Degenerate),
        _ => None,
    }
}

/// Classify a path (see `classify_spec`).
pub fn classify_path(cfg: &Cfg, blocks: &[BlockId]) -> (r: PathKind)
    ensures
        r == classify_spec(cfg_blocks(*cfg), cfg_edges(*cfg), blocks@),
{
    let ghost bs = cfg_blocks(*cfg);
    let ghost es = cfg_edges(*cfg);
    let n = node_count(cfg);
    if blocks.len() == 0 {
        return PathKind::Degenerate;
    }
    let mut i: usize = 0;
    while i < blocks.len()
        invariant
            i <= blocks@.len(),
            bs == cfg_blocks(*cfg),
            es == cfg_edges(*cfg),
            n == bs.len(),
            first_verdict(bs, es, blocks@, 0) == first_verdict(bs, es, blocks@, i as int),
        decreases blocks@.len() - i,
    {
        let id = blocks[i];
        proof {
            lemma_first_with_id(bs, id, bs.len());
        }
        let node = match find_node_by_block_id(cfg, id) {
            Some(x) => x,
            None => return PathKind::Degenerate,
        };
        if !is_reachable_from_entry(cfg, node) {
            return PathKind::Unreachable;
        }
        match verdict_of(&block(cfg, node).terminator) {
            Some(k) => return k,
            None => {},
        }
        i = i + 1;
    }
    let last = blocks[blocks.len() - 1];
    proof {
        lemma_first_with_id(bs, last, bs.len());
        lemma_verdicts_found(bs, es, blocks@, blocks@.len() - 1);
    }
    match find_node_by_block_id(cfg, last) {
        Some(node) => {
            if matches!(block(cfg, node).terminator, Terminator::Return) {
                PathKind::Normal
            } else {
                PathKind::Degenerate
            }
        },
        None => PathKind::Normal,
    }
}

/// When no block of the path gives a verdict, every block exists.
proof fn lemma_verdicts_found(bs: Seq<BasicBlock>, es: Seq<CfgEdge>, blocks: Seq<usize>, k: int)
    requires
        0 <= k < blocks.len(),
        first_verdict(bs, es, blocks, 0) is None,
    ensures
        first_with_id(bs, blocks[k], bs.len()) is Some,
{
    lemma_no_verdict_from(bs, es, blocks, 0, k);
}

proof fn lemma_no_verdict_from(bs: Seq<BasicBlock>, es: Seq<CfgEdge>, blocks: Seq<usize>, i: int, k: int)
    requires
        0 <= i <= k < blocks.len(),
        first_verdict(bs, es, blocks, i) is None,
    ensures
        block_verdict(bs, es, blocks[k]) is None,
    decreases k - i,
{
    if i < k {
        lemma_no_verdict_from(bs, es, blocks, i + 1, k);
    }
}

/// Verdict of one block of a path when reachability is settled separately.
pub open spec fn block_verdict_found(bs: Seq<BasicBlock>, id: usize) -> Option<PathKind> {
    match first_with_id(bs, id, bs.len()) {
        None => Some(PathKind::Degenerate),
        Some(i) => terminator_verdict(bs[i as int].terminator),
    }
}

/// The first such verdict among `blocks[i..]`.
pub open spec fn first_verdict_found(bs: Seq<BasicBlock>, blocks: Seq<usize>, i: int) -> Option<PathKind>
    decreases blocks.len() - i,
{
    if i < 0 || i >= blocks.len() {
        None
    } else {
        match block_verdict_found(bs, blocks[i]) {
            Some(k) => Some(k),
            None => first_verdict_found(bs, blocks, i + 1),
        }
    }
}

/// Classification with precomputed reachable block identifiers: degenerate
/// when empty; unreachable when some block is not listed reachable; then
/// the first block verdict; then degenerate unless the path is feasible,
/// in which case normal.
pub open spec fn classify_precomputed_spec(bs: Seq<BasicBlock>, blocks: Seq<usize>, reach: Set<usize>) -> PathKind {
    if blocks.len() == 0 {
        PathKind::Degenerate
    } else if exists|k: int| 0 <= k < blocks.len() && !reach.contains(#[trigger] blocks[k]) {
        PathKind::Unreachable
    } else {
        match first_verdict_found(bs, blocks, 0) {
            Some(k) => k,
            None => if feasible_shape(bs, blocks) { PathKind::Normal } else { PathKind::Degenerate },
        }
    }
}

/// Classify a path with precomputed reachability (see
/// `classify_precomputed_spec`).
pub fn classify_path_precomputed(cfg: &Cfg, blocks: &[BlockId], reachable_blocks: &HashSet<BlockId>) -> (r: PathKind)
    ensures
        r == classify_precomputed_spec(cfg_blocks(*cfg), blocks@, reachable_blocks@),
{
    let ghost bs = cfg_blocks(*cfg);
    let n = node_count(cfg);
    if blocks.len() == 0 {
        return PathKind::Degenerate;
    }
    if !all_listed(blocks, reachable_blocks) {
        return PathKind::Unreachable;
    }
    let mut i: usize = 0;
    while i < blocks.len()
        invariant
            i <= blocks@.len(),
            bs == cfg_blocks(*cfg),
            n == bs.len(),
            forall|k: int| 0 <= k < blocks@.len() ==> reachable_blocks@.contains(#[trigger] blocks@[k]),
            first_verdict_found(bs, blocks@, 0) == first_verdict_found(bs, blocks@, i as int),
        decreases blocks@.len() - i,
    {
        let id = blocks[i];
        let node = match find_node_by_block_id(cfg, id) {
            Some(x) => x,
            None => return PathKind::Degenerate,
        };
        proof {
            lemma_first_with_id(bs, id, bs.len());
        }
        match verdict_of(&block(cfg, node).terminator) {
            Some(k) => return k,
            None => {},
        }
        i = i + 1;
    }
    if !is_feasible_path_precomputed(cfg, blocks, reachable_blocks) {
        return PathKind::Degenerate;
    }
    PathKind::Normal
}

} // verus!
