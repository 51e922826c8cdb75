//! Building CFG edges from stored block and edge rows.

use vstd::prelude::*;
use std::collections::HashMap;
use crate::cfg::edge::EdgeType;
use crate::cfg::graph::{Cfg, CfgEdge, cfg_blocks, cfg_edges, add_cfg_edge};
use crate::text::same_text;

verus! {

broadcast use vstd::std_specs::hash::group_hash_axioms;

/// A stored block row: id, kind, terminator, byte_start, byte_end,
/// start_line, start_col, end_line, end_col, cfg_condition.
pub type CfgBlockRow = (
    i64,
    String,
    Option<String>,
    Option<i64>,
    Option<i64>,
    Option<i64>,
    Option<i64>,
    Option<i64>,
    Option<i64>,
    Option<String>,
);

/// Why stored rows could not be turned into edges.
#[derive(Debug, Clone, PartialEq, Eq, Structural)]
pub enum BuildError {
    /// The block at this position (in byte order) has no node
    MissingBlock(usize),
    /// An edge's source index has no node
    UnknownSource(i64),
    /// An edge's target index has no node
    UnknownTarget(i64),
}

/// The stored id of a block row.
pub fn block_id(block: &CfgBlockRow) -> (r: i64)
    ensures
        r == block.0,
{
    block.0
}

/// The terminator text of a block row, if stored.
pub fn block_terminator(block: &CfgBlockRow) -> (r: Option<&str>)
    ensures
        match r {
            Some(s) => block.2 matches Some(t) && s@ == t@,
            None => block.2 is None,
        },
{
    match &block.2 {
        Some(t) => Some(t.as_str()),
        None => None,
    }
}

/// The byte offset where a block row starts, if stored.
pub fn block_byte_start(block: &CfgBlockRow) -> (r: Option<i64>)
    ensures
        r == block.3,
{
    block.3
}

/// `a` orders before `b` as byte offsets: a missing offset first, then by value.
pub open spec fn offset_lt(a: Option<i64>, b: Option<i64>) -> bool {
    match (a, b) {
        (None, Some(_)) => true,
        (Some(x), Some(y)) => x < y,
        _ => false,
    }
}

/// Row `i` comes before row `j` in a stable sort by byte start.
pub open spec fn row_before(rows: Seq<CfgBlockRow>, i: usize, j: usize) -> bool {
    offset_lt(rows[i as int].3, rows[j as int].3) || (rows[i as int].3 == rows[j as int].3 && i < j)
}

/// `order` lists each row index once, sorted stably by byte start (equal
/// offsets keep their stored order).
pub open spec fn stable_by_offset(rows: Seq<CfgBlockRow>, order: Seq<usize>) -> bool {
    &&& order.len() == rows.len()
    &&& forall|p: int| 0 <= p < order.len() ==> #[trigger] order[p] < rows.len()
    &&& forall|p: int, q: int| 0 <= p < q < order.len() ==> row_before(rows, #[trigger] order[p], #[trigger] order[q])
}

/// The node of the row at sorted position `p` (none past the end, or when
/// its id has no node).
pub open spec fn node_at(rows: Seq<CfgBlockRow>, order: Seq<usize>, ids: Map<i64, usize>, p: int) -> Option<usize> {
    if 0 <= p < order.len() && ids.contains_key(rows[order[p] as int].0) {
        Some(ids[rows[order[p] as int].0])
    } else {
        None
    }
}

/// The terminator text of a row (empty when missing).
pub open spec fn row_terminator(row: CfgBlockRow) -> Seq<char> {
    match row.2 {
        Some(t) => t@,
        None => ""@,
    }
}

/// An edge from `u` to the node at position `p`, if there is one.
pub open spec fn edge_to(rows: Seq<CfgBlockRow>, order: Seq<usize>, ids: Map<i64, usize>, u: usize, p: int, k: EdgeType) -> Seq<CfgEdge> {
    match node_at(rows, order, ids, p) {
        Some(v) => seq![(u, v, k)],
        None => Seq::empty(),
    }
}

/// The edges the block at sorted position `p` (with node `u`) gets from
/// its terminator: "fallthrough", "goto" and "call" lead to the next block
/// in byte order, "conditional" to the next (true) and the one after
/// (false); other terminators add none.
pub open spec fn terminator_edges_at(rows: Seq<CfgBlockRow>, order: Seq<usize>, ids: Map<i64, usize>, p: int, u: usize) -> Seq<CfgEdge> {
    let t = row_terminator(rows[order[p] as int]);
    if t == "fallthrough"@ || t == "goto"@ {
        edge_to(rows, order, ids, u, p + 1, EdgeType::Fallthrough)
    } else if t == "conditional"@ {
        edge_to(rows, order, ids, u, p + 1, EdgeType::TrueBranch) + edge_to(rows, order, ids, u, p + 2, EdgeType::FalseBranch)
    } else if t == "call"@ {
        edge_to(rows, order, ids, u, p + 1, EdgeType::Call)
    } else {
        Seq::empty()
    }
}

/// The edges of the blocks at sorted positions below `p`.
pub open spec fn terminator_edges_upto(rows: Seq<CfgBlockRow>, order: Seq<usize>, ids: Map<i64, usize>, p: int) -> Seq<CfgEdge>
    decreases p,
{
    if p <= 0 {
        Seq::empty()
    } else {
        terminator_edges_upto(rows, order, ids, p - 1) + match node_at(rows, order, ids, p - 1) {
            Some(u) => terminator_edges_at(rows, order, ids, p - 1, u),
            None => Seq::empty(),
        }
    }
}

/// The first sorted position below `p` whose block has no node.
pub open spec fn first_missing(rows: Seq<CfgBlockRow>, order: Seq<usize>, ids: Map<i64, usize>, p: int) -> Option<int>
    decreases p,
{
    if p <= 0 {
        None
    } else {
        match first_missing(rows, order, ids, p - 1) {
            Some(q) => Some(q),
            None => if node_at(rows, order, ids, p - 1) is None { Some(p - 1) } else { None },
        }
    }
}

proof fn lemma_first_missing_stable(rows: Seq<CfgBlockRow>, order: Seq<usize>, ids: Map<i64, usize>, a: int, b: int)
    requires
        a <= b,
        first_missing(rows, order, ids, a) is Some,
    ensures
        first_missing(rows, order, ids, b) == first_missing(rows, order, ids, a),
    decreases b - a,
{
    if b > a {
        lemma_first_missing_stable(rows, order, ids, a, b - 1);
    }
}

proof fn lemma_first_unknown_stable(edges: Seq<(i64, i64, String)>, ids: Map<usize, usize>, a: int, b: int)
    requires
        a <= b,
        first_unknown(edges, ids, a) is Some,
    ensures
        first_unknown(edges, ids, b) == first_unknown(edges, ids, a),
    decreases b - a,
{
    if b > a {
        lemma_first_unknown_stable(edges, ids, a, b - 1);
    }
}

proof fn lemma_row_before_trans(rows: Seq<CfgBlockRow>, a: usize, b: usize, c: usize)
    requires
        row_before(rows, a, b),
        row_before(rows, b, c),
    ensures
        row_before(rows, a, c),
{
}

/// Indices of the rows, sorted stably by byte start (insertion sort).
fn sort_by_offset(rows: &[CfgBlockRow]) -> (order: Vec<usize>)
    ensures
        stable_by_offset(rows@, order@),
        forall|i: usize| i < rows@.len() ==> #[trigger] order@.contains(i),
{
    let mut order: Vec<usize> = Vec::new();
    let mut i: usize = 0;
    while i < rows.len()
        invariant
            i <= rows@.len(),
            order@.len() == i,
            forall|p: int| 0 <= p < order@.len() ==> #[trigger] order@[p] < i,
            forall|p: int, q: int| 0 <= p < q < order@.len() ==> row_before(rows@, #[trigger] order@[p], #[trigger] order@[q]),
            forall|x: usize| x < i ==> #[trigger] order@.contains(x),
        decreases rows@.len() - i,
    {
        let key = block_byte_start(&rows[i]);
        let mut pos: usize = 0;
        while pos < order.len() && !offset_before(key, block_byte_start(&rows[order[pos]]))
            invariant
                i < rows@.len(),
                key == rows@[i as int].3,
                pos <= order@.len(),
                order@.len() == i,
                forall|p: int| 0 <= p < order@.len() ==> #[trigger] order@[p] < i,
                forall|p: int| 0 <= p < pos ==> row_before(rows@, #[trigger] order@[p], i),
            decreases order@.len() - pos,
        {
            proof {
                let o = order@[pos as int];
                assert(!offset_lt(key, rows@[o as int].3));
                assert(o < i);
            }
            pos = pos + 1;
        }
        let ghost old_order = order@;
        proof {
            assert forall|q: int| pos <= q < old_order.len() implies row_before(rows@, i, #[trigger] old_order[q]) by {
                assert(offset_lt(key, rows@[old_order[pos as int] as int].3));
                if q > pos {
                    lemma_row_before_trans(rows@, i, old_order[pos as int], old_order[q]);
                }
            }
        }
        order.insert(pos, i);
        proof {
            assert forall|p: int, q: int| 0 <= p < q < order@.len() implies row_before(rows@, #[trigger] order@[p], #[trigger] order@[q]) by {
                if q < pos {
                    assert(order@[p] == old_order[p] && order@[q] == old_order[q]);
                } else if q == pos {
                    assert(order@[p] == old_order[p]);
                } else if p < pos {
                    assert(order@[p] == old_order[p] && order@[q] == old_order[q - 1]);
                    if (q - 1) >= pos {
                        lemma_row_before_trans(rows@, old_order[p], i, old_order[q - 1]);
                    }
                } else if p == pos {
                    assert(order@[q] == old_order[q - 1]);
                } else {
                    assert(order@[p] == old_order[p - 1] && order@[q] == old_order[q - 1]);
                }
            }
            assert forall|x: usize| x < i + 1 implies #[trigger] order@.contains(x) by {
                if x == i {
                    assert(order@[pos as int] == i);
                } else {
                    assert(old_order.contains(x));
                    let k = choose|k: int| 0 <= k < old_order.len() && old_order[k] == x;
                    if k < pos {
                        assert(order@[k] == x);
                    } else {
                        assert(order@[k + 1] == x);
                    }
                }
            }
            assert forall|p: int| 0 <= p < order@.len() implies #[trigger] order@[p] < i + 1 by {
                if p < pos {
                    assert(order@[p] == old_order[p]);
                } else if p > pos {
                    assert(order@[p] == old_order[p - 1]);
                }
            }
        }
        i = i + 1;
    }
    order
}

/// Whether byte offset `a` orders before `b` (see `offset_lt`).
fn offset_before(a: Option<i64>, b: Option<i64>) -> (r: bool)
    ensures
        r == offset_lt(a, b),
{
    match (a, b) {
        (None, Some(_)) => true,
        (Some(x), Some(y)) => x < y,
        _ => false,
    }
}

/// Add an edge from `u` to the node at sorted position `q`, if there is one.
fn add_edge_to(graph: &mut Cfg, pos_nodes: &Vec<Option<usize>>, u: usize, q: usize, kind: EdgeType,
    Ghost(rows): Ghost<Seq<CfgBlockRow>>, Ghost(order): Ghost<Seq<usize>>, Ghost(ids): Ghost<Map<i64, usize>>)
    requires
        u < cfg_blocks(*old(graph)).len(),
        pos_nodes@.len() == order.len(),
        forall|p: int| 0 <= p < pos_nodes@.len() ==> #[trigger] pos_nodes@[p] == node_at(rows, order, ids, p),
        forall|p: int| 0 <= p < pos_nodes@.len() ==> (#[trigger] pos_nodes@[p] matches Some(v) ==> v < cfg_blocks(*old(graph)).len()),
        cfg_edges(*old(graph)).len() < u32::MAX,
    ensures
        cfg_blocks(*final(graph)) == cfg_blocks(*old(graph)),
        cfg_edges(*final(graph)) == cfg_edges(*old(graph)) + edge_to(rows, order, ids, u, q as int, kind),
{
    if q < pos_nodes.len() {
        if let Some(v) = pos_nodes[q] {
            add_cfg_edge(graph, u, v, kind);
            proof {
                assert(cfg_edges(*graph) =~= cfg_edges(*old(graph)) + seq![(u, v, kind)]);
            }
            return;
        }
    }
    proof {
        assert(cfg_edges(*graph) =~= cfg_edges(*old(graph)) + Seq::<CfgEdge>::empty());
    }
}

/// Add edges derived from terminator strings. Blocks are taken in byte
/// order (a stable sort by byte start); each block gets the edges its
/// terminator calls for (see `terminator_edges_at`). The first block, in
/// that order, whose id has no node stops the work with an error; the
/// edges of the blocks before it stay added.
pub fn build_edges_from_terminators(graph: &mut Cfg, blocks: &[CfgBlockRow], db_id_to_node: &HashMap<i64, usize>)
    -> (r: Result<(), BuildError>)
    requires
        forall|i: int| 0 <= i < blocks@.len() && db_id_to_node@.contains_key(#[trigger] blocks@[i].0) ==>
            db_id_to_node@[blocks@[i].0] < cfg_blocks(*old(graph)).len(),
        cfg_edges(*old(graph)).len() + 2 * blocks@.len() < u32::MAX,
    ensures
        cfg_blocks(*final(graph)) == cfg_blocks(*old(graph)),
        exists|order: Seq<usize>| #[trigger] stable_by_offset(blocks@, order) && {
            let ids = db_id_to_node@;
            match first_missing(blocks@, order, ids, blocks@.len() as int) {
                None => r is Ok && cfg_edges(*final(graph)) == cfg_edges(*old(graph))
                    + terminator_edges_upto(blocks@, order, ids, blocks@.len() as int),
                Some(p) => r == Err::<(), BuildError>(BuildError::MissingBlock(p as usize))
                    && cfg_edges(*final(graph)) == cfg_edges(*old(graph)) + terminator_edges_upto(blocks@, order, ids, p),
            }
        },
{
    let ghost rows = blocks@;
    let ghost ids = db_id_to_node@;
    let ghost e0 = cfg_edges(*graph);
    let order = sort_by_offset(blocks);
    let mut pos_nodes: Vec<Option<usize>> = Vec::new();
    let mut p: usize = 0;
    while p < order.len()
        invariant
            rows == blocks@,
            ids == db_id_to_node@,
            stable_by_offset(rows, order@),
            p <= order@.len(),
            pos_nodes@.len() == p,
            forall|q: int| 0 <= q < p ==> #[trigger] pos_nodes@[q] == node_at(rows, order@, ids, q),
        decreases order@.len() - p,
    {
        let id = block_id(&blocks[order[p]]);
        let node = match db_id_to_node.get(&id) {
            Some(v) => Some(*v),
            None => None,
        };
        pos_nodes.push(node);
        p = p + 1;
    }
    let mut p: usize = 0;
    while p < order.len()
        invariant
            rows == blocks@,
            ids == db_id_to_node@,
            stable_by_offset(rows, order@),
            p <= order@.len(),
            pos_nodes@.len() == order@.len(),
            forall|q: int| 0 <= q < pos_nodes@.len() ==> #[trigger] pos_nodes@[q] == node_at(rows, order@, ids, q),
            forall|i: int| 0 <= i < rows.len() && ids.contains_key(#[trigger] rows[i].0) ==> ids[rows[i].0] < cfg_blocks(*graph).len(),
            cfg_blocks(*graph) == cfg_blocks(*old(graph)),
            e0 == cfg_edges(*old(graph)),
            e0.len() + 2 * rows.len() < u32::MAX,
            first_missing(rows, order@, ids, p as int) is None,
            cfg_edges(*graph) == e0 + terminator_edges_upto(rows, order@, ids, p as int),
            cfg_edges(*graph).len() <= e0.len() + 2 * p,
        decreases order@.len() - p,
    {
        proof {
            assert forall|q: int| 0 <= q < pos_nodes@.len() implies (#[trigger] pos_nodes@[q] matches Some(v) ==> v < cfg_blocks(*graph).len()) by {
                assert(order@[q] < rows.len());
            }
        }
        let u = match pos_nodes[p] {
            Some(u) => u,
            None => {
                proof {
                    assert(first_missing(rows, order@, ids, p + 1) == Some(p as int));
                    lemma_first_missing_stable(rows, order@, ids, p + 1, rows.len() as int);
                    assert(stable_by_offset(blocks@, order@));
                }
                return Err(BuildError::MissingBlock(p));
            },
        };
        let row = &blocks[order[p]];
        let t: &str = match block_terminator(row) {
            Some(s) => s,
            None => "",
        };
        let ghost before = cfg_edges(*graph);
        if same_text(t, "fallthrough") || same_text(t, "goto") {
            add_edge_to(graph, &pos_nodes, u, p + 1, EdgeType::Fallthrough, Ghost(rows), Ghost(order@), Ghost(ids));
        } else if same_text(t, "conditional") {
            add_edge_to(graph, &pos_nodes, u, p + 1, EdgeType::TrueBranch, Ghost(rows), Ghost(order@), Ghost(ids));
            add_edge_to(graph, &pos_nodes, u, p + 2, EdgeType::FalseBranch, Ghost(rows), Ghost(order@), Ghost(ids));
            proof {
                assert(cfg_edges(*graph) =~= before + (edge_to(rows, order@, ids, u, p + 1, EdgeType::TrueBranch)
                    + edge_to(rows, order@, ids, u, p + 2, EdgeType::FalseBranch)));
            }
        } else if same_text(t, "call") {
            add_edge_to(graph, &pos_nodes, u, p + 1, EdgeType::Call, Ghost(rows), Ghost(order@), Ghost(ids));
        } else {
            proof {
                assert(cfg_edges(*graph) =~= before + Seq::<CfgEdge>::empty());
            }
        }
        proof {
            assert(t@ == row_terminator(rows[order@[p as int] as int]));
            assert(cfg_edges(*graph) == before + terminator_edges_at(rows, order@, ids, p as int, u));
            assert(terminator_edges_upto(rows, order@, ids, p + 1)
                == terminator_edges_upto(rows, order@, ids, p as int) + terminator_edges_at(rows, order@, ids, p as int, u));
            assert(cfg_edges(*graph) =~= e0 + terminator_edges_upto(rows, order@, ids, p + 1));
        }
        p = p + 1;
    }
    Ok(())
}

/// The edge kind a stored edge-type name stands for.
pub open spec fn stored_edge_kind(t: Seq<char>) -> EdgeType {
    if t == "conditional_true"@ {
        EdgeType::TrueBranch
    } else if t == "conditional_false"@ {
        EdgeType::FalseBranch
    } else if t == "back_edge"@ {
        EdgeType::LoopBack
    } else if t == "call"@ {
        EdgeType::Call
    } else if t == "return"@ {
        EdgeType::Return
    } else {
        EdgeType::Fallthrough
    }
}

/// The graph edges for the first `k` stored edges.
pub open spec fn stored_edges_upto(edges: Seq<(i64, i64, String)>, ids: Map<usize, usize>, k: int) -> Seq<CfgEdge>
    decreases k,
{
    if k <= 0 {
        Seq::empty()
    } else {
        let e = edges[k - 1];
        stored_edges_upto(edges, ids, k - 1).push((ids[e.0 as usize], ids[e.1 as usize], stored_edge_kind(e.2@)))
    }
}

/// The first of the first `k` stored edges whose source or target index
/// has no node, with the matching error.
pub open spec fn first_unknown(edges: Seq<(i64, i64, String)>, ids: Map<usize, usize>, k: int) -> Option<(int, BuildError)>
    decreases k,
{
    if k <= 0 {
        None
    } else {
        match first_unknown(edges, ids, k - 1) {
            Some(x) => Some(x),
            None => {
                let e = edges[k - 1];
                if !ids.contains_key(e.0 as usize) {
                    Some((k - 1, BuildError::UnknownSource(e.0)))
                } else if !ids.contains_key(e.1 as usize) {
                    Some((k - 1, BuildError::UnknownTarget(e.1)))
                } else {
                    None
                }
            },
        }
    }
}

/// The edge kind of a stored edge-type name (see `stored_edge_kind`).
fn edge_kind_named(t: &str) -> (k: EdgeType)
    ensures
        k == stored_edge_kind(t@),
{
    if same_text(t, "conditional_true") {
        EdgeType::TrueBranch
    } else if same_text(t, "conditional_false") {
        EdgeType::FalseBranch
    } else if same_text(t, "back_edge") {
        EdgeType::LoopBack
    } else if same_text(t, "call") {
        EdgeType::Call
    } else if same_text(t, "return") {
        EdgeType::Return
    } else {
        EdgeType::Fallthrough
    }
}

/// Add edges from stored (source index, target index, edge type) rows, in
/// order, mapping indices to nodes. The first row with an unknown source
/// or target index stops the work with an error; the edges before it stay
/// added.
pub fn build_edges_from_cfg_edges(graph: &mut Cfg, edges: &[(i64, i64, String)], index_to_node: &HashMap<usize, usize>)
    -> (r: Result<(), BuildError>)
    requires
        forall|k: usize| #[trigger] index_to_node@.contains_key(k) ==> index_to_node@[k] < cfg_blocks(*old(graph)).len(),
        cfg_edges(*old(graph)).len() + edges@.len() < u32::MAX,
    ensures
        cfg_blocks(*final(graph)) == cfg_blocks(*old(graph)),
        match first_unknown(edges@, index_to_node@, edges@.len() as int) {
            None => r is Ok && cfg_edges(*final(graph)) == cfg_edges(*old(graph))
                + stored_edges_upto(edges@, index_to_node@, edges@.len() as int),
            Some((k, e)) => r == Err::<(), BuildError>(e)
                && cfg_edges(*final(graph)) == cfg_edges(*old(graph)) + stored_edges_upto(edges@, index_to_node@, k),
        },
{
    let ghost e0 = cfg_edges(*graph);
    let ghost ids = index_to_node@;
    let mut k: usize = 0;
    while k < edges.len()
        invariant
            k <= edges@.len(),
            ids == index_to_node@,
            forall|x: usize| #[trigger] ids.contains_key(x) ==> ids[x] < cfg_blocks(*graph).len(),
            cfg_blocks(*graph) == cfg_blocks(*old(graph)),
            e0 == cfg_edges(*old(graph)),
            e0.len() + edges@.len() < u32::MAX,
            first_unknown(edges@, ids, k as int) is None,
            cfg_edges(*graph) == e0 + stored_edges_upto(edges@, ids, k as int),
            cfg_edges(*graph).len() == e0.len() + k,
        decreases edges@.len() - k,
    {
        let e = &edges[k];
        let s = match index_to_node.get(&(e.0 as usize)) {
            Some(v) => *v,
            None => {
                proof {
                    assert(first_unknown(edges@, ids, k + 1) == Some((k as int, BuildError::UnknownSource(e.0))));
                    lemma_first_unknown_stable(edges@, ids, k + 1, edges@.len() as int);
                }
                return Err(BuildError::UnknownSource(e.0));
            },
        };
        let t = match index_to_node.get(&(e.1 as usize)) {
            Some(v) => *v,
            None => {
                proof {
                    assert(first_unknown(edges@, ids, k + 1) == Some((k as int, BuildError::UnknownTarget(e.1))));
                    lemma_first_unknown_stable(edges@, ids, k + 1, edges@.len() as int);
                }
                return Err(BuildError::UnknownTarget(e.1));
            },
        };
        let kind = edge_kind_named(e.2.as_str());
        add_cfg_edge(graph, s, t, kind);
        proof {
            assert(cfg_edges(*graph) =~= e0 + stored_edges_upto(edges@, ids, k + 1));
        }
        k = k + 1;
    }
    Ok(())
}

} // verus!
