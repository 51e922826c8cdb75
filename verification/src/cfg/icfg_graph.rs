//! The inter-procedural graph container (a petgraph `Graph` of ICFG nodes
//! and edges) and the operations the ICFG code uses on it.

use vstd::prelude::*;
use petgraph::graph::NodeIndex;
use petgraph::visit::EdgeRef;
use crate::cfg::icfg::{IcfgEdge, IcfgNode};

verus! {

/// The ICFG container.
pub type IcfgGraph = petgraph::graph::Graph<IcfgNode, IcfgEdge, petgraph::Directed, u32>;

/// The nodes of an ICFG container, in node-index order.
pub uninterp spec fn icfg_nodes(g: IcfgGraph) -> Seq<IcfgNode>;

/// The edges of an ICFG container as (source, target, weight), in edge-index
/// order (`Graph::raw_edges`).
pub uninterp spec fn icfg_edges(g: IcfgGraph) -> Seq<(usize, usize, IcfgEdge)>;

/// The edges leaving `a` as (target, edge index), highest edge index first.
pub open spec fn out_edge_ids(es: Seq<(usize, usize, IcfgEdge)>, a: usize) -> Seq<(usize, usize)>
    decreases es.len(),
{
    if es.len() == 0 {
        Seq::empty()
    } else {
        let rest = out_edge_ids(es.drop_last(), a);
        if es.last().0 == a {
            seq![(es.last().1, (es.len() - 1) as usize)] + rest
        } else {
            rest
        }
    }
}

/// An empty container (`Graph::new`).
#[verifier::external_body]
pub(crate) fn icfg_graph_new() -> (g: IcfgGraph)
    ensures
        icfg_nodes(g) == Seq::<IcfgNode>::empty(),
        icfg_edges(g) == Seq::<(usize, usize, IcfgEdge)>::empty(),
{
    petgraph::graph::Graph::new()
}

/// Number of nodes (`Graph::node_count`); `add_node` refuses the index
/// `u32::MAX`, so there are at most `u32::MAX`.
#[verifier::external_body]
pub(crate) fn icfg_node_count(g: &IcfgGraph) -> (n: usize)
    ensures
        n == icfg_nodes(*g).len(),
        n <= u32::MAX,
{
    g.node_count()
}

/// Number of edges (`Graph::edge_count`); at most `u32::MAX`, each joining
/// two nodes of the graph.
#[verifier::external_body]
pub(crate) fn icfg_edge_count(g: &IcfgGraph) -> (n: usize)
    ensures
        n == icfg_edges(*g).len(),
        n <= u32::MAX,
        forall|i: int| 0 <= i < n ==>
            (#[trigger] icfg_edges(*g)[i]).0 < icfg_nodes(*g).len() && icfg_edges(*g)[i].1 < icfg_nodes(*g).len(),
{
    g.edge_count()
}

/// Appends a node (`Graph::add_node`), which panics when the `u32` index
/// space is exhausted.
#[verifier::external_body]
pub(crate) fn icfg_add_node(g: &mut IcfgGraph, w: IcfgNode) -> (ix: usize)
    requires
        icfg_nodes(*old(g)).len() < u32::MAX,
    ensures
        ix == icfg_nodes(*old(g)).len(),
        icfg_nodes(*final(g)) == icfg_nodes(*old(g)).push(w),
        icfg_edges(*final(g)) == icfg_edges(*old(g)),
{
    g.add_node(w).index()
}

/// Appends an edge (`Graph::add_edge`), which panics when an endpoint is not
/// a node or the `u32` edge index space is exhausted.
#[verifier::external_body]
pub(crate) fn icfg_add_edge(g: &mut IcfgGraph, a: usize, b: usize, w: IcfgEdge) -> (e: usize)
    requires
        a < icfg_nodes(*old(g)).len(),
        b < icfg_nodes(*old(g)).len(),
        icfg_edges(*old(g)).len() < u32::MAX,
    ensures
        e == icfg_edges(*old(g)).len(),
        icfg_edges(*final(g)) == icfg_edges(*old(g)).push((a, b, w)),
        icfg_nodes(*final(g)) == icfg_nodes(*old(g)),
{
    g.add_edge(NodeIndex::new(a), NodeIndex::new(b), w).index()
}

/// The node at index `i` (indexing `g[NodeIndex]`).
#[verifier::external_body]
pub(crate) fn icfg_node(g: &IcfgGraph, i: usize) -> (r: &IcfgNode)
    requires
        i < icfg_nodes(*g).len(),
    ensures
        *r == icfg_nodes(*g)[i as int],
{
    &g[NodeIndex::new(i)]
}

/// Source and target of the `e`-th edge (`Graph::raw_edges`).
#[verifier::external_body]
pub(crate) fn icfg_edge_ends(g: &IcfgGraph, e: usize) -> (r: (usize, usize))
    requires
        e < icfg_edges(*g).len(),
    ensures
        r.0 == icfg_edges(*g)[e as int].0,
        r.1 == icfg_edges(*g)[e as int].1,
{
    let ed = &g.raw_edges()[e];
    (ed.source().index(), ed.target().index())
}

/// The weight of the `e`-th edge (`Graph::raw_edges`).
#[verifier::external_body]
pub(crate) fn icfg_edge_weight(g: &IcfgGraph, e: usize) -> (r: &IcfgEdge)
    requires
        e < icfg_edges(*g).len(),
    ensures
        *r == icfg_edges(*g)[e as int].2,
{
    &g.raw_edges()[e].weight
}

/// The order in which `Graph::edges` lists the edges leaving `a`, as
/// (target, edge index). petgraph keeps each node's edges in lists that grow
/// at the front, but `remove_edge` renumbers edges without reordering them,
/// so the order is not a function of the edge list alone.
pub uninterp spec fn icfg_edge_order(g: IcfgGraph, a: usize) -> Seq<(usize, usize)>;

/// Outgoing edges of `a` (`Graph::edges`) as (target, edge index): the same
/// pairs, as often, as the edge list holds for `a`, in the graph's own list
/// order, which is left unsaid (see `icfg_edge_order`).
#[verifier::external_body]
pub(crate) fn icfg_out_edges(g: &IcfgGraph, a: usize) -> (r: Vec<(usize, usize)>)
    requires
        a < icfg_nodes(*g).len(),
    ensures
        r@ == icfg_edge_order(*g, a),
        r@.to_multiset() == out_edge_ids(icfg_edges(*g), a).to_multiset(),
{
    g.edges(NodeIndex::new(a)).map(|e| (e.target().index(), e.id().index())).collect()
}

} // verus!
