//! Static hot-path heuristics: the integer factors of a path's hotness
//! (loop nesting, dominant blocks, early exit), and the analysis options.

use vstd::prelude::*;
use crate::cfg::{BlockId, Terminator};
use crate::cfg::graph::{Cfg, cfg_blocks, block, immediate_dominators, node_count};
use crate::cfg::loops::NaturalLoop;
use crate::cfg::paths::Path;

verus! {

broadcast use vstd::std_specs::hash::group_hash_axioms;

/// Hot path analysis options.
#[derive(Debug, Clone, Copy, PartialEq, Eq, Structural)]
pub struct HotpathsOptions {
    /// Maximum number of hot paths to return
    pub top_n: usize,
    /// Whether to explain each score
    pub include_rationale: bool,
}

impl Default for HotpathsOptions {
    /// Ten paths, with rationale.
    fn default() -> (r: Self)
        ensures
            r.top_n == 10,
            r.include_rationale,
    {
        HotpathsOptions { top_n: 10, include_rationale: true }
    }
}

/// Number of the first `k` loops whose body holds block `b`.
pub open spec fn loops_holding(loops: Seq<NaturalLoop>, b: usize, k: nat) -> nat
    decreases k,
{
    if k == 0 {
        0
    } else {
        loops_holding(loops, b, (k - 1) as nat) + if loops[k - 1].body@.contains(b) { 1nat } else { 0nat }
    }
}

/// The largest number of loops around any of the first `k` blocks (0 when
/// there are none).
pub open spec fn max_loop_depth(loops: Seq<NaturalLoop>, blocks: Seq<BlockId>, k: nat) -> nat
    decreases k,
{
    if k == 0 {
        0
    } else {
        let prev = max_loop_depth(loops, blocks, (k - 1) as nat);
        let d = loops_holding(loops, blocks[k - 1], loops.len());
        if d > prev { d } else { prev }
    }
}

fn count_loops_holding(loops: &[NaturalLoop], b: usize) -> (r: usize)
    ensures
        r == loops_holding(loops@, b, loops@.len()),
{
    let mut count: usize = 0;
    let mut i: usize = 0;
    while i < loops.len()
        invariant
            i <= loops@.len(),
            count == loops_holding(loops@, b, i as nat),
            count <= i,
        decreases loops@.len() - i,
    {
        if loops[i].body.contains(&b) {
            count = count + 1;
        }
        i = i + 1;
    }
    count
}

/// Loop nesting of a path: the most loops holding any one of its blocks
/// (0 when no block is inside a loop).
pub fn compute_loop_depth(loops: &[NaturalLoop], path_blocks: &[BlockId]) -> (r: usize)
    ensures
        r == max_loop_depth(loops@, path_blocks@, path_blocks@.len()),
{
    let mut best: usize = 0;
    let mut i: usize = 0;
    while i < path_blocks.len()
        invariant
            i <= path_blocks@.len(),
            best == max_loop_depth(loops@, path_blocks@, i as nat),
        decreases path_blocks@.len() - i,
    {
        let d = count_loops_holding(loops, path_blocks[i]);
        if d > best {
            best = d;
        }
        i = i + 1;
    }
    best
}

/// The integer factors behind a path's static hotness.
#[derive(Debug, Clone, Copy, PartialEq, Eq, Structural)]
pub struct HotnessFactors {
    /// Most loops around any one block of the path
    pub loop_depth: usize,
    /// Blocks of the path that dominate the entry (the entry itself)
    pub dominant_count: usize,
    /// The path ends in a return, has more than one block, and is shorter
    /// than the average path
    pub early_exit: bool,
}

/// Occurrences of `x` among the first `k` elements of `s`.
pub open spec fn occurrences(s: Seq<usize>, x: usize, k: nat) -> nat
    decreases k,
{
    if k == 0 {
        0
    } else {
        occurrences(s, x, (k - 1) as nat) + if s[k - 1] == x { 1nat } else { 0nat }
    }
}

/// Sum of the block counts of the first `k` paths.
pub open spec fn total_blocks(paths: Seq<Path>, k: nat) -> nat
    decreases k,
{
    if k == 0 {
        0
    } else {
        total_blocks(paths, (k - 1) as nat) + paths[k - 1].blocks@.len()
    }
}

/// Whether a path counts as an early exit: it ends in a block of the graph
/// whose terminator is a return, has more than one block, and is shorter
/// than `avg` (the average path length, rounded down).
pub open spec fn is_early_exit(blocks: Seq<usize>, bs: Seq<crate::cfg::BasicBlock>, avg: nat) -> bool {
    &&& blocks.len() > 1
    &&& blocks.last() < bs.len()
    &&& bs[blocks.last() as int].terminator == Terminator::Return
    &&& blocks.len() < avg
}

/// The hotness factors of one path.
pub open spec fn factors_of_path(
    loops: Seq<NaturalLoop>,
    bs: Seq<crate::cfg::BasicBlock>,
    entry: usize,
    avg: nat,
    blocks: Seq<usize>,
) -> HotnessFactors {
    HotnessFactors {
        loop_depth: max_loop_depth(loops, blocks, blocks.len()) as usize,
        dominant_count: occurrences(blocks, entry, blocks.len()) as usize,
        early_exit: is_early_exit(blocks, bs, avg),
    }
}

/// Average block count of the paths, rounded down (0 for no paths).
pub open spec fn average_blocks(paths: Seq<Path>) -> nat {
    if paths.len() == 0 {
        0
    } else {
        total_blocks(paths, paths.len()) / paths.len()
    }
}

proof fn lemma_loops_holding_bound(loops: Seq<NaturalLoop>, b: usize, k: nat)
    ensures
        loops_holding(loops, b, k) <= k,
    decreases k,
{
    if k > 0 {
        lemma_loops_holding_bound(loops, b, (k - 1) as nat);
    }
}

proof fn lemma_max_loop_depth_bound(loops: Seq<NaturalLoop>, blocks: Seq<BlockId>, k: nat)
    ensures
        max_loop_depth(loops, blocks, k) <= loops.len(),
    decreases k,
{
    if k > 0 {
        lemma_max_loop_depth_bound(loops, blocks, (k - 1) as nat);
        lemma_loops_holding_bound(loops, blocks[k - 1], loops.len());
    }
}

proof fn lemma_occurrences_bound(s: Seq<usize>, x: usize, k: nat)
    ensures
        occurrences(s, x, k) <= k,
    decreases k,
{
    if k > 0 {
        lemma_occurrences_bound(s, x, (k - 1) as nat);
    }
}

fn count_occurrences(s: &Vec<usize>, x: usize) -> (r: usize)
    ensures
        r == occurrences(s@, x, s@.len()),
{
    let mut count: usize = 0;
    let mut i: usize = 0;
    while i < s.len()
        invariant
            i <= s@.len(),
            count == occurrences(s@, x, i as nat),
            count <= i,
        decreases s@.len() - i,
    {
        if s[i] == x {
            count = count + 1;
        }
        i = i + 1;
    }
    count
}

fn sum_of_lengths(paths: &[Path]) -> (r: u128)
    ensures
        r == total_blocks(paths@, paths@.len()),
{
    let mut sum: u128 = 0;
    let mut i: usize = 0;
    while i < paths.len()
        invariant
            i <= paths@.len(),
            sum == total_blocks(paths@, i as nat),
            sum <= i * usize::MAX,
        decreases paths@.len() - i,
    {
        let l = paths[i].blocks.len();
        assert(sum + l <= (i + 1) * usize::MAX) by (nonlinear_arith)
            requires
                sum <= i * usize::MAX,
                l <= usize::MAX,
        ;
        assert((i + 1) * usize::MAX <= u128::MAX) by (nonlinear_arith)
            requires
                i < usize::MAX,
                usize::MAX <= u64::MAX,
        ;
        sum = sum + l as u128;
        i = i + 1;
    }
    sum
}

/// The blocks that dominate `entry` in the dominator tree rooted at `entry`:
/// `entry`, then each immediate dominator up the chain. The root has no
/// immediate dominator, so the chain is `entry` alone.
fn dominator_chain_of_root(graph: &Cfg, entry: usize) -> (r: Vec<usize>)
    requires
        entry < cfg_blocks(*graph).len(),
    ensures
        r@ == seq![entry],
{
    let idoms = immediate_dominators(graph, entry);
    let mut chain: Vec<usize> = Vec::new();
    chain.push(entry);
    let mut cur = idoms[entry];
    let mut fuel = idoms.len();
    while fuel > 0
        invariant
            cur is None,
            chain@ == seq![entry],
        decreases fuel,
    {
        match cur {
            Some(d) => {
                chain.push(d);
            },
            None => {
                break;
            },
        }
        fuel = fuel - 1;
    }
    chain
}

/// Hotness factors of each path: its loop nesting depth, how many of its
/// blocks dominate the entry (with `entry` as the root, that is the entry
/// itself), and whether it exits early: it ends in a return block, has more
/// than one block and is shorter than the average path.
pub fn hotness_factors(
    graph: &Cfg,
    paths: &[Path],
    entry: usize,
    natural_loops: &[NaturalLoop],
) -> (r: Vec<HotnessFactors>)
    requires
        entry < cfg_blocks(*graph).len(),
    ensures
        r@.len() == paths@.len(),
        forall|i: int| 0 <= i < r@.len() ==> #[trigger] r@[i] == factors_of_path(
            natural_loops@,
            cfg_blocks(*graph),
            entry,
            average_blocks(paths@),
            paths@[i].blocks@,
        ),
{
    let dominant = dominator_chain_of_root(graph, entry);
    let dominant_block = dominant[0];
    let total = sum_of_lengths(paths);
    let avg: u128 = if paths.len() == 0 { 0 } else { total / (paths.len() as u128) };
    let mut out: Vec<HotnessFactors> = Vec::new();
    let mut i: usize = 0;
    while i < paths.len()
        invariant
            i <= paths@.len(),
            out@.len() == i,
            dominant_block == entry,
            entry < cfg_blocks(*graph).len(),
            avg == average_blocks(paths@),
            forall|j: int| 0 <= j < i ==> #[trigger] out@[j] == factors_of_path(
                natural_loops@,
                cfg_blocks(*graph),
                entry,
                average_blocks(paths@),
                paths@[j].blocks@,
            ),
        decreases paths@.len() - i,
    {
        let blocks = &paths[i].blocks;
        let depth = compute_loop_depth(natural_loops, blocks.as_slice());
        let count = count_occurrences(blocks, dominant_block);
        proof {
            lemma_max_loop_depth_bound(natural_loops@, blocks@, blocks@.len());
            lemma_occurrences_bound(blocks@, entry, blocks@.len());
        }
        let mut early = false;
        if blocks.len() > 1 {
            let last = blocks[blocks.len() - 1];
            if last < node_count(graph) {
                let ends_in_return = match block(graph, last).terminator {
                    Terminator::Return => true,
                    _ => false,
                };
                early = ends_in_return && (blocks.len() as u128) < avg;
            }
        }
        let f = HotnessFactors { loop_depth: depth, dominant_count: count, early_exit: early };
        assert(f == factors_of_path(natural_loops@, cfg_blocks(*graph), entry, average_blocks(paths@), blocks@));
        out.push(f);
        i = i + 1;
    }
    out
}

} // verus!
