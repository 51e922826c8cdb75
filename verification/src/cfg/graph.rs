//! The control-flow graph container (a petgraph `Graph`) and the operations
//! the analyses use on it, each stated over the graph's blocks and edges.

use vstd::prelude::*;
use petgraph::graph::{EdgeIndex, NodeIndex};
use petgraph::algo::dominators::simple_fast;
use petgraph::visit::{EdgeRef, Reversed};
use crate::cfg::BasicBlock;
use crate::cfg::edge::EdgeType;

verus! {

#[verifier::external_type_specification]
#[verifier::external_body]
#[verifier::reject_recursive_types(N)]
#[verifier::reject_recursive_types(E)]
#[verifier::reject_recursive_types(Ty)]
#[verifier::reject_recursive_types(Ix)]
pub struct ExGraph<N, E, Ty, Ix>(petgraph::graph::Graph<N, E, Ty, Ix>);

#[verifier::external_type_specification]
#[verifier::external_body]
pub struct ExDirected(petgraph::Directed);

/// Control Flow Graph: basic blocks as nodes, typed control-flow edges.
pub type Cfg = petgraph::graph::Graph<BasicBlock, EdgeType, petgraph::Directed, u32>;

/// One edge of a CFG: (source node, target node, edge kind).
pub type CfgEdge = (usize, usize, EdgeType);

/// The blocks of a CFG, in node-index order.
pub uninterp spec fn cfg_blocks(g: Cfg) -> Seq<BasicBlock>;

/// The edges of a CFG, in edge-index order (`Graph::raw_edges`).
pub uninterp spec fn cfg_edges(g: Cfg) -> Seq<CfgEdge>;

/// Targets of the edges leaving `a`, highest edge index first.
pub open spec fn out_nbrs(es: Seq<CfgEdge>, a: usize) -> Seq<usize>
    decreases es.len(),
{
    if es.len() == 0 {
        Seq::empty()
    } else {
        let rest = out_nbrs(es.drop_last(), a);
        if es.last().0 == a {
            seq![es.last().1] + rest
        } else {
            rest
        }
    }
}

/// Sources of the edges entering `a`, highest edge index first.
pub open spec fn in_nbrs(es: Seq<CfgEdge>, a: usize) -> Seq<usize>
    decreases es.len(),
{
    if es.len() == 0 {
        Seq::empty()
    } else {
        let rest = in_nbrs(es.drop_last(), a);
        if es.last().1 == a {
            seq![es.last().0] + rest
        } else {
            rest
        }
    }
}

/// There is an edge from `a` to `b`.
pub open spec fn has_edge(es: Seq<CfgEdge>, a: usize, b: usize) -> bool {
    exists|i: int| 0 <= i < es.len() && (#[trigger] es[i]).0 == a && es[i].1 == b
}

/// Every edge joins two of the `n` nodes.
pub open spec fn edges_in_range(es: Seq<CfgEdge>, n: nat) -> bool {
    forall|i: int| 0 <= i < es.len() ==> (#[trigger] es[i]).0 < n && es[i].1 < n
}

/// `b` is listed among the successors of `a` exactly when an edge joins them.
pub proof fn lemma_out_nbrs_contains(es: Seq<CfgEdge>, a: usize, b: usize)
    ensures
        out_nbrs(es, a).contains(b) <==> has_edge(es, a, b),
    decreases es.len(),
{
    if es.len() > 0 {
        let rest = es.drop_last();
        let last = es.last();
        lemma_out_nbrs_contains(rest, a, b);
        let o = out_nbrs(es, a);
        let ro = out_nbrs(rest, a);
        if has_edge(es, a, b) {
            let i = choose|i: int| 0 <= i < es.len() && (#[trigger] es[i]).0 == a && es[i].1 == b;
            if i == es.len() - 1 {
                assert(o[0] == b);
            } else {
                assert(rest[i] == es[i]);
                assert(has_edge(rest, a, b));
                let k = choose|k: int| 0 <= k < ro.len() && ro[k] == b;
                if last.0 == a {
                    assert(o[k + 1] == b);
                } else {
                    assert(o[k] == b);
                }
            }
        }
        if o.contains(b) {
            let k = choose|k: int| 0 <= k < o.len() && o[k] == b;
            if last.0 == a && k == 0 {
                assert(es[es.len() - 1] == last);
            } else {
                if last.0 == a {
                    assert(ro[k - 1] == b);
                } else {
                    assert(ro[k] == b);
                }
                let j = choose|j: int| 0 <= j < rest.len() && (#[trigger] rest[j]).0 == a && rest[j].1 == b;
                assert(es[j] == rest[j]);
            }
        }
    }
}

/// `b` is listed among the predecessors of `a` exactly when an edge joins them.
pub proof fn lemma_in_nbrs_contains(es: Seq<CfgEdge>, a: usize, b: usize)
    ensures
        in_nbrs(es, a).contains(b) <==> has_edge(es, b, a),
    decreases es.len(),
{
    if es.len() > 0 {
        let rest = es.drop_last();
        let last = es.last();
        lemma_in_nbrs_contains(rest, a, b);
        let o = in_nbrs(es, a);
        let ro = in_nbrs(rest, a);
        if has_edge(es, b, a) {
            let i = choose|i: int| 0 <= i < es.len() && (#[trigger] es[i]).0 == b && es[i].1 == a;
            if i == es.len() - 1 {
                assert(o[0] == b);
            } else {
                assert(rest[i] == es[i]);
                assert(has_edge(rest, b, a));
                let k = choose|k: int| 0 <= k < ro.len() && ro[k] == b;
                if last.1 == a {
                    assert(o[k + 1] == b);
                } else {
                    assert(o[k] == b);
                }
            }
        }
        if o.contains(b) {
            let k = choose|k: int| 0 <= k < o.len() && o[k] == b;
            if last.1 == a && k == 0 {
                assert(es[es.len() - 1] == last);
            } else {
                if last.1 == a {
                    assert(ro[k - 1] == b);
                } else {
                    assert(ro[k] == b);
                }
                let j = choose|j: int| 0 <= j < rest.len() && (#[trigger] rest[j]).0 == b && rest[j].1 == a;
                assert(es[j] == rest[j]);
            }
        }
    }
}

/// Creates an empty graph (`Graph::new`).
#[verifier::external_body]
pub(crate) fn cfg_new() -> (g: Cfg)
    ensures
        cfg_blocks(g) == Seq::<BasicBlock>::empty(),
        cfg_edges(g) == Seq::<CfgEdge>::empty(),
{
    petgraph::graph::Graph::new()
}

/// Number of nodes (`Graph::node_count`). `add_node` refuses the index
/// `u32::MAX`, so a graph never holds more than `u32::MAX` nodes.
#[verifier::external_body]
pub(crate) fn node_count(g: &Cfg) -> (n: usize)
    ensures
        n == cfg_blocks(*g).len(),
        n <= u32::MAX,
{
    g.node_count()
}

/// Number of edges (`Graph::edge_count`). `add_edge` refuses the index
/// `u32::MAX`, so a graph never holds more than `u32::MAX` edges; every edge
/// joins two nodes of the graph.
#[verifier::external_body]
pub(crate) fn edge_count(g: &Cfg) -> (n: usize)
    ensures
        n == cfg_edges(*g).len(),
        n <= u32::MAX,
        forall|i: int| 0 <= i < n ==>
            (#[trigger] cfg_edges(*g)[i]).0 < cfg_blocks(*g).len() && cfg_edges(*g)[i].1 < cfg_blocks(*g).len(),
{
    g.edge_count()
}

/// Appends a node (`Graph::add_node`); petgraph panics when the `u32`
/// index space is exhausted, which `requires` rules out.
#[verifier::external_body]
pub(crate) fn add_block(g: &mut Cfg, b: BasicBlock) -> (ix: usize)
    requires
        cfg_blocks(*old(g)).len() < u32::MAX,
    ensures
        ix == cfg_blocks(*old(g)).len(),
        cfg_blocks(*final(g)) == cfg_blocks(*old(g)).push(b),
        cfg_edges(*final(g)) == cfg_edges(*old(g)),
{
    g.add_node(b).index()
}

/// Appends an edge (`Graph::add_edge`); petgraph panics when an endpoint is
/// not a node or the `u32` edge index space is exhausted.
#[verifier::external_body]
pub(crate) fn add_cfg_edge(g: &mut Cfg, a: usize, b: usize, w: EdgeType) -> (e: usize)
    requires
        a < cfg_blocks(*old(g)).len(),
        b < cfg_blocks(*old(g)).len(),
        cfg_edges(*old(g)).len() < u32::MAX,
    ensures
        e == cfg_edges(*old(g)).len(),
        cfg_edges(*final(g)) == cfg_edges(*old(g)).push((a, b, w)),
        cfg_blocks(*final(g)) == cfg_blocks(*old(g)),
{
    g.add_edge(NodeIndex::new(a), NodeIndex::new(b), w).index()
}

/// The block stored at node `i` (indexing `g[NodeIndex]`).
#[verifier::external_body]
pub(crate) fn block(g: &Cfg, i: usize) -> (b: &BasicBlock)
    requires
        i < cfg_blocks(*g).len(),
    ensures
        *b == cfg_blocks(*g)[i as int],
{
    &g[NodeIndex::new(i)]
}

/// The `e`-th edge (`Graph::raw_edges`), as (source, target, kind).
#[verifier::external_body]
pub(crate) fn cfg_edge(g: &Cfg, e: usize) -> (r: CfgEdge)
    requires
        e < cfg_edges(*g).len(),
    ensures
        r == cfg_edges(*g)[e as int],
        r.0 < cfg_blocks(*g).len(),
        r.1 < cfg_blocks(*g).len(),
{
    let ed = &g.raw_edges()[e];
    (ed.source().index(), ed.target().index(), ed.weight)
}

/// The order in which `Graph::neighbors` lists the successors of `a`.
/// petgraph keeps each node's edges in linked lists that grow at the front,
/// but `remove_edge` renumbers edges without reordering those lists, so the
/// order is not a function of the edge list alone.
pub uninterp spec fn neighbor_order(g: Cfg, a: usize) -> Seq<usize>;

/// Successors of `a` (`Graph::neighbors`): one entry per edge leaving `a`
/// (the same targets, as often, as the edge list holds), in the graph's
/// own list order. Which order that is, is left unsaid (see
/// `neighbor_order`).
#[verifier::external_body]
pub(crate) fn successors(g: &Cfg, a: usize) -> (r: Vec<usize>)
    requires
        a < cfg_blocks(*g).len(),
    ensures
        r@ == neighbor_order(*g, a),
        r@.to_multiset() == out_nbrs(cfg_edges(*g), a).to_multiset(),
        forall|k: int| 0 <= k < r.len() ==> (#[trigger] r@[k]) < cfg_blocks(*g).len(),
{
    g.neighbors(NodeIndex::new(a)).map(|n| n.index()).collect()
}

/// Targets and kinds of the edges leaving `a`, highest edge index first.
pub open spec fn out_edge_list(es: Seq<CfgEdge>, a: usize) -> Seq<(usize, EdgeType)>
    decreases es.len(),
{
    if es.len() == 0 {
        Seq::empty()
    } else {
        let rest = out_edge_list(es.drop_last(), a);
        if es.last().0 == a {
            seq![(es.last().1, es.last().2)] + rest
        } else {
            rest
        }
    }
}

/// The order in which `Graph::edges` lists the edges leaving `a`, as
/// (target, kind) (see `neighbor_order`).
pub uninterp spec fn out_edge_order(g: Cfg, a: usize) -> Seq<(usize, EdgeType)>;

/// Outgoing edges of `a` (`Graph::edges`), as (target, kind): the same
/// pairs, as often, as the edge list holds for `a`, in the graph's own list
/// order, which is left unsaid (see `out_edge_order`).
#[verifier::external_body]
pub(crate) fn out_edges(g: &Cfg, a: usize) -> (r: Vec<(usize, EdgeType)>)
    requires
        a < cfg_blocks(*g).len(),
    ensures
        r@ == out_edge_order(*g, a),
        r@.to_multiset() == out_edge_list(cfg_edges(*g), a).to_multiset(),
        forall|k: int| 0 <= k < r.len() ==> (#[trigger] r@[k]).0 < cfg_blocks(*g).len(),
{
    g.edges(NodeIndex::new(a)).map(|e| (e.target().index(), *e.weight())).collect()
}

/// The order in which `Graph::neighbors_directed` with `Incoming` lists the
/// predecessors of `a` (see `neighbor_order`).
pub uninterp spec fn incoming_order(g: Cfg, a: usize) -> Seq<usize>;

/// Predecessors of `a` (`Graph::neighbors_directed` with `Incoming`): one
/// entry per edge entering `a`, in the graph's own list order, which is
/// left unsaid (see `incoming_order`).
#[verifier::external_body]
pub(crate) fn predecessors(g: &Cfg, a: usize) -> (r: Vec<usize>)
    requires
        a < cfg_blocks(*g).len(),
    ensures
        r@ == incoming_order(*g, a),
        r@.to_multiset() == in_nbrs(cfg_edges(*g), a).to_multiset(),
        forall|k: int| 0 <= k < r.len() ==> (#[trigger] r@[k]) < cfg_blocks(*g).len(),
{
    g.neighbors_directed(NodeIndex::new(a), petgraph::Direction::Incoming).map(|n| n.index()).collect()
}

/// The edge index `Graph::find_edge` returns for `a` and `b` (the first
/// edge from `a` to `b` in the graph's list order for `a`).
pub uninterp spec fn found_edge(g: Cfg, a: usize, b: usize) -> Option<usize>;

/// `Graph::find_edge`: some edge from `a` to `b` when there is one, `None`
/// otherwise. Which of several such edges it is, is left unsaid (see
/// `found_edge`).
#[verifier::external_body]
pub(crate) fn find_edge(g: &Cfg, a: usize, b: usize) -> (r: Option<usize>)
    requires
        a < cfg_blocks(*g).len(),
        b < cfg_blocks(*g).len(),
    ensures
        r == found_edge(*g, a, b),
        r is None <==> !has_edge(cfg_edges(*g), a, b),
        r matches Some(e) ==> {
            &&& e < cfg_edges(*g).len()
            &&& cfg_edges(*g)[e as int].0 == a
            &&& cfg_edges(*g)[e as int].1 == b
        },
{
    g.find_edge(NodeIndex::new(a), NodeIndex::new(b)).map(|e: EdgeIndex| e.index())
}

/// Sequences with the same elements, as often each, have the same length
/// and the same members.
pub proof fn lemma_same_multiset<A>(s: Seq<A>, t: Seq<A>)
    requires
        s.to_multiset() == t.to_multiset(),
    ensures
        s.len() == t.len(),
        forall|x: A| s.contains(x) <==> t.contains(x),
{
    s.to_multiset_ensures();
    t.to_multiset_ensures();
    assert forall|x: A| s.contains(x) <==> t.contains(x) by {
        vstd::seq_lib::to_multiset_contains(s, x);
        vstd::seq_lib::to_multiset_contains(t, x);
    }
}

/// `p` is a walk: a non-empty node sequence whose consecutive nodes are joined by edges.
pub open spec fn is_walk(es: Seq<CfgEdge>, p: Seq<usize>) -> bool {
    &&& p.len() >= 1
    &&& forall|i: int| 0 <= i < p.len() - 1 ==> has_edge(es, #[trigger] p[i], p[i + 1])
}

/// `p` is a walk from `a` to `b`.
pub open spec fn walk_between(es: Seq<CfgEdge>, p: Seq<usize>, a: usize, b: usize) -> bool {
    is_walk(es, p) && p[0] == a && p.last() == b
}

/// Some walk leads from `r` to `n`.
pub open spec fn reachable_from(es: Seq<CfgEdge>, r: usize, n: usize) -> bool {
    exists|p: Seq<usize>| walk_between(es, p, r, n)
}

/// With root `r`, `a` dominates `b`: every walk from `r` to `b` contains `a`.
pub open spec fn dominates_in(es: Seq<CfgEdge>, r: usize, a: usize, b: usize) -> bool {
    forall|p: Seq<usize>| walk_between(es, p, r, b) ==> p.contains(a)
}

/// `a` dominates `b` and differs from it.
pub open spec fn strictly_dominates_in(es: Seq<CfgEdge>, r: usize, a: usize, b: usize) -> bool {
    a != b && dominates_in(es, r, a, b)
}

/// `a` strictly dominates `b` and no node lies strictly between them.
pub open spec fn is_immediate_dominator(es: Seq<CfgEdge>, r: usize, a: usize, b: usize) -> bool {
    &&& strictly_dominates_in(es, r, a, b)
    &&& forall|c: usize|
        !(#[trigger] strictly_dominates_in(es, r, a, c) && strictly_dominates_in(es, r, c, b))
}

/// What the immediate dominator of node `i` is, for a graph of `n` nodes:
/// none for the root and for nodes the root does not reach, otherwise a node
/// of the graph that is its immediate dominator.
pub open spec fn idom_answer(es: Seq<CfgEdge>, r: usize, n: nat, i: usize, v: Option<usize>) -> bool {
    if i == r || !reachable_from(es, r, i) {
        v is None
    } else {
        v matches Some(d) && d < n && is_immediate_dominator(es, r, d, i)
    }
}

/// The edges with every direction turned around.
pub open spec fn reversed_edges(es: Seq<CfgEdge>) -> Seq<CfgEdge> {
    es.map_values(|e: CfgEdge| (e.1, e.0, e.2))
}

/// Immediate dominators of every node (`petgraph::algo::dominators::simple_fast`
/// from `root`, then `Dominators::immediate_dominator` for each node index).
/// petgraph documents the dominance relation it computes, and that the
/// immediate dominator is `None` for the root and for unreachable nodes.
#[verifier::external_body]
pub(crate) fn immediate_dominators(g: &Cfg, root: usize) -> (r: Vec<Option<usize>>)
    requires
        root < cfg_blocks(*g).len(),
    ensures
        r.len() == cfg_blocks(*g).len(),
        forall|i: int| 0 <= i < r.len() ==>
            idom_answer(cfg_edges(*g), root, cfg_blocks(*g).len(), i as usize, #[trigger] r@[i]),
{
    let d = simple_fast(g, NodeIndex::new(root));
    (0..g.node_count()).map(|i| d.immediate_dominator(NodeIndex::new(i)).map(|n| n.index())).collect()
}

/// Immediate dominators of every node in the reversed graph
/// (`simple_fast` over `petgraph::visit::Reversed(g)` from `root`), which are
/// the immediate post-dominators with respect to `root`.
#[verifier::external_body]
pub(crate) fn immediate_dominators_reversed(g: &Cfg, root: usize) -> (r: Vec<Option<usize>>)
    requires
        root < cfg_blocks(*g).len(),
    ensures
        r.len() == cfg_blocks(*g).len(),
        forall|i: int| 0 <= i < r.len() ==>
            idom_answer(reversed_edges(cfg_edges(*g)), root, cfg_blocks(*g).len(), i as usize, #[trigger] r@[i]),
{
    let d = simple_fast(Reversed(g), NodeIndex::new(root));
    (0..g.node_count()).map(|i| d.immediate_dominator(NodeIndex::new(i)).map(|n| n.index())).collect()
}

} // verus!
