//! The plain block graph of a stored function: one node per stored block,
//! weighted by its position, and unlabeled edges derived from the stored
//! terminator kinds.

use vstd::prelude::*;
use petgraph::graph::NodeIndex;
use crate::text::same_text;

verus! {

/// A stored CFG block as the database holds it.
#[derive(Debug, Clone)]
pub struct CfgBlockData {
    pub id: i64,
    pub kind: String,
    pub terminator: String,
    pub byte_start: u64,
    pub byte_end: u64,
    pub start_line: u64,
    pub start_col: u64,
    pub end_line: u64,
    pub end_col: u64,
}

/// A graph whose nodes carry block positions and whose edges carry nothing.
pub type BlockGraph = petgraph::graph::Graph<i64, (), petgraph::Directed, u32>;

/// The node weights of a block graph, in node-index order.
pub uninterp spec fn block_graph_nodes(g: BlockGraph) -> Seq<i64>;

/// The edges of a block graph as (source, target), in insertion order.
pub uninterp spec fn block_graph_edges(g: BlockGraph) -> Seq<(usize, usize)>;

/// An empty graph (`Graph::new`).
#[verifier::external_body]
pub(crate) fn block_graph_new() -> (g: BlockGraph)
    ensures
        block_graph_nodes(g) == Seq::<i64>::empty(),
        block_graph_edges(g) == Seq::<(usize, usize)>::empty(),
{
    petgraph::graph::Graph::new()
}

/// Appends a node (`Graph::add_node`), which panics when the `u32` index
/// space is exhausted.
#[verifier::external_body]
pub(crate) fn block_graph_add_node(g: &mut BlockGraph, w: i64) -> (ix: usize)
    requires
        block_graph_nodes(*old(g)).len() < u32::MAX,
    ensures
        ix == block_graph_nodes(*old(g)).len(),
        block_graph_nodes(*final(g)) == block_graph_nodes(*old(g)).push(w),
        block_graph_edges(*final(g)) == block_graph_edges(*old(g)),
{
    g.add_node(w).index()
}

/// Appends an edge (`Graph::add_edge`), which panics when an endpoint is not
/// a node or the `u32` edge index space is exhausted.
#[verifier::external_body]
pub(crate) fn block_graph_add_edge(g: &mut BlockGraph, a: usize, b: usize) -> (e: usize)
    requires
        a < block_graph_nodes(*old(g)).len(),
        b < block_graph_nodes(*old(g)).len(),
        block_graph_edges(*old(g)).len() < u32::MAX,
    ensures
        e == block_graph_edges(*old(g)).len(),
        block_graph_edges(*final(g)) == block_graph_edges(*old(g)).push((a, b)),
        block_graph_nodes(*final(g)) == block_graph_nodes(*old(g)),
{
    g.add_edge(NodeIndex::new(a), NodeIndex::new(b), ()).index()
}

/// The edge from position `i` to position `j`, when `j` is a block.
pub open spec fn edge_if_block(n: nat, i: int, j: int) -> Seq<(usize, usize)> {
    if j < n { seq![(i as usize, j as usize)] } else { Seq::empty() }
}

/// The edges the block at position `i` gets from its terminator text:
/// "fallthrough", "goto" and "call" lead to the next block, "conditional"
/// to the next two; any other terminator (return, panic, ...) to none.
pub open spec fn block_edges_at(ts: Seq<Seq<char>>, i: int) -> Seq<(usize, usize)> {
    let n = ts.len();
    let t = ts[i];
    if t == "fallthrough"@ || t == "goto"@ || t == "call"@ {
        edge_if_block(n, i, i + 1)
    } else if t == "conditional"@ {
        edge_if_block(n, i, i + 1) + edge_if_block(n, i, i + 2)
    } else {
        Seq::empty()
    }
}

/// The edges of the blocks at positions below `k`, in position order.
pub open spec fn block_edges_upto(ts: Seq<Seq<char>>, k: int) -> Seq<(usize, usize)>
    decreases k,
{
    if k <= 0 { Seq::empty() } else { block_edges_upto(ts, k - 1) + block_edges_at(ts, k - 1) }
}

/// The terminator texts of the blocks.
pub open spec fn terminator_texts(blocks: Seq<CfgBlockData>) -> Seq<Seq<char>> {
    Seq::new(blocks.len(), |i: int| blocks[i].terminator@)
}

proof fn lemma_block_edges_len(ts: Seq<Seq<char>>, k: int)
    requires
        0 <= k <= ts.len(),
    ensures
        block_edges_upto(ts, k).len() <= 2 * k,
        forall|q: int| 0 <= q < block_edges_upto(ts, k).len() ==>
            (#[trigger] block_edges_upto(ts, k)[q]).0 < ts.len() && block_edges_upto(ts, k)[q].1 < ts.len(),
    decreases k,
{
    if k > 0 {
        lemma_block_edges_len(ts, k - 1);
        let prev = block_edges_upto(ts, k - 1);
        let here = block_edges_at(ts, k - 1);
        assert(block_edges_upto(ts, k) == prev + here);
        assert forall|q: int| 0 <= q < block_edges_upto(ts, k).len() implies
            (#[trigger] block_edges_upto(ts, k)[q]).0 < ts.len() && block_edges_upto(ts, k)[q].1 < ts.len() by {
            if q >= prev.len() {
                assert(block_edges_upto(ts, k)[q] == here[q - prev.len()]);
            } else {
                assert(block_edges_upto(ts, k)[q] == prev[q]);
            }
        }
    }
}

/// Builds the block graph of stored blocks: node `i` carries position `i`;
/// edges follow `block_edges_at`, block by block.
pub fn blocks_to_petgraph(blocks: &[CfgBlockData]) -> (g: BlockGraph)
    requires
        2 * blocks@.len() < u32::MAX,
    ensures
        block_graph_nodes(g) == Seq::new(blocks@.len(), |i: int| i as i64),
        block_graph_edges(g) == block_edges_upto(terminator_texts(blocks@), blocks@.len() as int),
{
    let n = blocks.len();
    let ghost ts = terminator_texts(blocks@);
    let mut graph = block_graph_new();
    let mut i: usize = 0;
    while i < n
        invariant
            i <= n,
            n == blocks@.len(),
            2 * n < u32::MAX,
            block_graph_nodes(graph) == Seq::new(i as nat, |q: int| q as i64),
            block_graph_edges(graph) == Seq::<(usize, usize)>::empty(),
        decreases n - i,
    {
        block_graph_add_node(&mut graph, i as i64);
        proof {
            assert(block_graph_nodes(graph) =~= Seq::new((i + 1) as nat, |q: int| q as i64));
        }
        i = i + 1;
    }
    let mut i: usize = 0;
    while i < n
        invariant
            i <= n,
            n == blocks@.len(),
            2 * n < u32::MAX,
            ts == terminator_texts(blocks@),
            block_graph_nodes(graph) == Seq::new(n as nat, |q: int| q as i64),
            block_graph_edges(graph) == block_edges_upto(ts, i as int),
        decreases n - i,
    {
        proof {
            lemma_block_edges_len(ts, i as int);
        }
        let t = blocks[i].terminator.as_str();
        let ghost before = block_graph_edges(graph);
        assert(t@ == ts[i as int]);
        if same_text(t, "fallthrough") || same_text(t, "goto") || same_text(t, "call") {
            if i + 1 < n {
                block_graph_add_edge(&mut graph, i, i + 1);
            }
        } else if same_text(t, "conditional") {
            if i + 1 < n {
                block_graph_add_edge(&mut graph, i, i + 1);
            }
            if i + 2 < n {
                block_graph_add_edge(&mut graph, i, i + 2);
            }
        }
        proof {
            assert(block_graph_edges(graph) =~= before + block_edges_at(ts, i as int));
        }
        i = i + 1;
    }
    graph
}

} // verus!
