//! CFG analysis: entry/exit detection and node degrees.

use vstd::prelude::*;
use crate::cfg::{BlockKind, Terminator, BasicBlock};
use crate::cfg::graph::{lemma_same_multiset, Cfg, cfg_blocks, cfg_edges, in_nbrs, out_nbrs, node_count, block, successors, predecessors};

verus! {

/// A terminator that ends execution of the function.
pub open spec fn is_exit_terminator(t: Terminator) -> bool {
    t is Return || t is Unreachable || t is Abort
}

/// Indices `0..n` of the blocks whose terminator ends execution, ascending.
pub open spec fn exit_indices(bs: Seq<BasicBlock>, n: nat) -> Seq<usize>
    decreases n,
{
    if n == 0 {
        Seq::empty()
    } else {
        let prev = exit_indices(bs, (n - 1) as nat);
        if is_exit_terminator(bs[n - 1].terminator) {
            prev.push((n - 1) as usize)
        } else {
            prev
        }
    }
}

/// `exit_indices` lists exactly the exit blocks below `n`, each below `n`.
pub proof fn lemma_exit_indices(bs: Seq<BasicBlock>, n: nat, x: usize)
    requires
        n <= bs.len(),
        n <= usize::MAX,
    ensures
        exit_indices(bs, n).contains(x) <==> (x < n && is_exit_terminator(bs[x as int].terminator)),
        forall|k: int| 0 <= k < exit_indices(bs, n).len() ==> #[trigger] exit_indices(bs, n)[k] < n,
    decreases n,
{
    if n > 0 {
        lemma_exit_indices(bs, (n - 1) as nat, x);
        let prev = exit_indices(bs, (n - 1) as nat);
        let cur = exit_indices(bs, n);
        if is_exit_terminator(bs[n - 1].terminator) {
            assert(cur == prev.push((n - 1) as usize));
            if x == n - 1 {
                assert(cur[prev.len() as int] == x);
            }
            if cur.contains(x) && x != n - 1 {
                let k = choose|k: int| 0 <= k < cur.len() && cur[k] == x;
                assert(k != prev.len());
                assert(prev[k] == x);
            }
            if x < n - 1 && is_exit_terminator(bs[x as int].terminator) {
                let k = choose|k: int| 0 <= k < prev.len() && prev[k] == x;
                assert(cur[k] == x);
            }
        }
    }
}

/// Find the entry node of a CFG: the first node, or `None` for an empty graph.
pub fn find_entry(cfg: &Cfg) -> (r: Option<usize>)
    ensures
        r == (if cfg_blocks(*cfg).len() == 0 { None::<usize> } else { Some(0usize) }),
{
    if node_count(cfg) == 0 {
        None
    } else {
        Some(0)
    }
}

/// Find all exit nodes (Return, Unreachable or Abort terminators), in node order.
pub fn find_exits(cfg: &Cfg) -> (r: Vec<usize>)
    ensures
        r@ == exit_indices(cfg_blocks(*cfg), cfg_blocks(*cfg).len()),
        forall|k: int| 0 <= k < r.len() ==> (#[trigger] r@[k]) < cfg_blocks(*cfg).len(),
{
    let n = node_count(cfg);
    let mut r: Vec<usize> = Vec::new();
    let mut i: usize = 0;
    while i < n
        invariant
            n == cfg_blocks(*cfg).len(),
            i <= n,
            r@ == exit_indices(cfg_blocks(*cfg), i as nat),
        decreases n - i,
    {
        if is_exit_block(cfg, i) {
            r.push(i);
        }
        i = i + 1;
    }
    proof {
        lemma_exit_indices(cfg_blocks(*cfg), n as nat, 0);
    }
    r
}

/// Check whether node `block_idx` is an exit block; false for a node not in the graph.
pub fn is_exit_block(cfg: &Cfg, block_idx: usize) -> (r: bool)
    ensures
        r == (block_idx < cfg_blocks(*cfg).len()
            && is_exit_terminator(cfg_blocks(*cfg)[block_idx as int].terminator)),
{
    if block_idx < node_count(cfg) {
        let b = block(cfg, block_idx);
        match &b.terminator {
            Terminator::Return | Terminator::Unreachable | Terminator::Abort(_) => true,
            _ => false,
        }
    } else {
        false
    }
}

/// Kind of node `block_idx`, or `None` for a node not in the graph.
pub fn get_block_kind(cfg: &Cfg, block_idx: usize) -> (r: Option<BlockKind>)
    ensures
        r == (if block_idx < cfg_blocks(*cfg).len() {
            Some(cfg_blocks(*cfg)[block_idx as int].kind)
        } else {
            None::<BlockKind>
        }),
{
    if block_idx < node_count(cfg) {
        Some(block(cfg, block_idx).kind)
    } else {
        None
    }
}

/// Number of edges entering node `block_idx` (0 for a node not in the graph).
pub fn in_degree(cfg: &Cfg, block_idx: usize) -> (r: usize)
    ensures
        r == (if block_idx < cfg_blocks(*cfg).len() {
            in_nbrs(cfg_edges(*cfg), block_idx).len()
        } else {
            0
        }),
{
    if block_idx < node_count(cfg) {
        let preds = predecessors(cfg, block_idx);
        proof {
            lemma_same_multiset(preds@, in_nbrs(cfg_edges(*cfg), block_idx));
        }
        preds.len()
    } else {
        0
    }
}

/// Number of edges leaving node `block_idx` (0 for a node not in the graph).
pub fn out_degree(cfg: &Cfg, block_idx: usize) -> (r: usize)
    ensures
        r == (if block_idx < cfg_blocks(*cfg).len() {
            out_nbrs(cfg_edges(*cfg), block_idx).len()
        } else {
            0
        }),
{
    if block_idx < node_count(cfg) {
        let succs = successors(cfg, block_idx);
        proof {
            lemma_same_multiset(succs@, out_nbrs(cfg_edges(*cfg), block_idx));
        }
        succs.len()
    } else {
        0
    }
}

/// A merge point has more than one incoming edge.
pub fn is_merge_point(cfg: &Cfg, block_idx: usize) -> (r: bool)
    ensures
        r == (block_idx < cfg_blocks(*cfg).len() && in_nbrs(cfg_edges(*cfg), block_idx).len() > 1),
{
    in_degree(cfg, block_idx) > 1
}

/// A branch point has more than one outgoing edge.
pub fn is_branch_point(cfg: &Cfg, block_idx: usize) -> (r: bool)
    ensures
        r == (block_idx < cfg_blocks(*cfg).len() && out_nbrs(cfg_edges(*cfg), block_idx).len() > 1),
{
    out_degree(cfg, block_idx) > 1
}

} // verus!

verus! {

/// The first of the first `k` nodes whose block carries identifier `id`.
pub open spec fn first_with_id(bs: Seq<BasicBlock>, id: usize, k: nat) -> Option<usize>
    decreases k,
{
    if k == 0 {
        None
    } else {
        match first_with_id(bs, id, (k - 1) as nat) {
            Some(i) => Some(i),
            None => if bs[k - 1].id == id { Some((k - 1) as usize) } else { None },
        }
    }
}

/// The node `first_with_id` finds lies below `k` and carries `id`; when none
/// is found no node below `k` carries `id`.
pub proof fn lemma_first_with_id(bs: Seq<BasicBlock>, id: usize, k: nat)
    requires
        k <= bs.len(),
        k <= usize::MAX + 1,
    ensures
        first_with_id(bs, id, k) matches Some(i) ==> i < k && bs[i as int].id == id,
        first_with_id(bs, id, k) is None ==> forall|j: int| 0 <= j < k ==> (#[trigger] bs[j]).id != id,
    decreases k,
{
    if k > 0 {
        lemma_first_with_id(bs, id, (k - 1) as nat);
    }
}

/// Once found among the first `k1` nodes, the first node carrying `id` stays
/// the same among more nodes.
pub proof fn lemma_first_with_id_stable(bs: Seq<BasicBlock>, id: usize, k1: nat, k2: nat)
    requires
        k1 <= k2,
        first_with_id(bs, id, k1) is Some,
    ensures
        first_with_id(bs, id, k2) == first_with_id(bs, id, k1),
    decreases k2,
{
    if k2 > k1 {
        lemma_first_with_id_stable(bs, id, k1, (k2 - 1) as nat);
    }
}

/// Find the node whose block has identifier `id` (the first such node).
pub fn node_from_id(cfg: &Cfg, id: usize) -> (r: Option<usize>)
    ensures
        r == first_with_id(cfg_blocks(*cfg), id, cfg_blocks(*cfg).len()),
{
    let n = node_count(cfg);
    let mut i: usize = 0;
    while i < n
        invariant
            i <= n,
            n == cfg_blocks(*cfg).len(),
            first_with_id(cfg_blocks(*cfg), id, i as nat) is None,
        decreases n - i,
    {
        if block(cfg, i).id == id {
            proof {
                lemma_first_with_id_stable(cfg_blocks(*cfg), id, (i + 1) as nat, n as nat);
            }
            return Some(i);
        }
        i = i + 1;
    }
    None
}

} // verus!
