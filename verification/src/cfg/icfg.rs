//! Inter-procedural control-flow graphs: function CFGs joined by call and
//! return edges, their DOT and JSON forms, and their projection onto the
//! CFG core so that paths can be enumerated across calls.

use vstd::prelude::*;
use std::collections::HashSet;
use crate::cfg::{BasicBlock, BlockKind, Terminator};
use crate::cfg::edge::EdgeType;
use crate::cfg::graph::{lemma_same_multiset, Cfg, CfgEdge, cfg_blocks, cfg_edges, cfg_new, add_block, add_cfg_edge};
use crate::cfg::icfg_graph::{icfg_edge_order, IcfgGraph, icfg_nodes, icfg_edges, out_edge_ids, icfg_node_count, icfg_edge_count,
    icfg_node, icfg_edge_ends, icfg_edge_weight, icfg_out_edges};
use crate::text::{nat_text, int_text, push_nat, push_int, push_text, string_from_chars, same_text};
use crate::cfg::paths::Path;
use crate::cfg::paths::limits::{PathLimits, reachable_ids};
use crate::cfg::paths::enumeration::{PathEnumeration, enumerate_paths, is_search_outcome, sorted_search};
use crate::cfg::paths::search::has_exit;

verus! {

broadcast use vstd::std_specs::hash::group_hash_axioms;

/// Node of an ICFG: a block of some function, or its entry or exit.
#[derive(Debug, Clone)]
pub struct IcfgNode {
    pub function_id: i64,
    pub function_name: Option<String>,
    /// The block's id; -1 for the function entry, -2 for its exit
    pub block_id: i64,
    pub node_type: IcfgNodeType,
}

/// Type of an ICFG node.
#[derive(Debug, Clone, Copy, PartialEq, Eq, Structural)]
pub enum IcfgNodeType {
    /// Normal basic block
    BasicBlock,
    /// Block containing a function call
    CallSite,
    /// Function entry point
    FunctionEntry,
    /// Function exit point
    FunctionExit,
}

/// Edge of an ICFG.
#[derive(Debug, Clone)]
pub enum IcfgEdge {
    /// Edge within a function, with its kind ("true", "false", "fallthrough", ...)
    IntraProcedural { edge_type: String },
    /// From a call site to the callee's entry
    Call { from_function: i64, to_function: i64 },
    /// From the callee back to the caller
    Return { from_function: i64, to_function: i64 },
}

/// ICFG construction options.
#[derive(Debug, Clone, Copy, PartialEq, Eq, Structural)]
pub struct IcfgOptions {
    /// How many calls deep to expand callees
    pub max_depth: usize,
    /// Whether to add return edges
    pub include_return_edges: bool,
}

impl Default for IcfgOptions {
    /// Three levels of calls, with return edges.
    fn default() -> (r: Self)
        ensures
            r.max_depth == 3,
            r.include_return_edges,
    {
        IcfgOptions { max_depth: 3, include_return_edges: true }
    }
}

/// The node index table of an ICFG: (function id, block id) to node index,
/// as a list of insertions in which a later one for the same key wins.
#[derive(Debug, Clone)]
pub struct NodeMap {
    pub entries: Vec<(i64, i64, usize)>,
}

/// The map a list of insertions builds.
pub open spec fn map_of(s: Seq<(i64, i64, usize)>) -> Map<(i64, i64), usize>
    decreases s.len(),
{
    if s.len() == 0 {
        Map::empty()
    } else {
        map_of(s.drop_last()).insert((s.last().0, s.last().1), s.last().2)
    }
}

impl View for NodeMap {
    type V = Map<(i64, i64), usize>;

    open spec fn view(&self) -> Map<(i64, i64), usize> {
        map_of(self.entries@)
    }
}

/// With no insertion for `k` from `j` on, the map built from the first `j`
/// insertions agrees with the whole one on `k`.
proof fn lemma_map_of_tail(s: Seq<(i64, i64, usize)>, j: int, k: (i64, i64))
    requires
        0 <= j <= s.len(),
        forall|i: int| j <= i < s.len() ==> ((#[trigger] s[i]).0, s[i].1) != k,
    ensures
        map_of(s).contains_key(k) == map_of(s.take(j)).contains_key(k),
        map_of(s).contains_key(k) ==> map_of(s)[k] == map_of(s.take(j))[k],
    decreases s.len() - j,
{
    if j < s.len() {
        let t = s.drop_last();
        assert forall|i: int| j <= i < t.len() implies ((#[trigger] t[i]).0, t[i].1) != k by {
            assert(t[i] == s[i]);
        }
        lemma_map_of_tail(t, j, k);
        assert(t.take(j) == s.take(j));
        assert(((s[s.len() - 1]).0, s[s.len() - 1].1) != k);
    } else {
        assert(s.take(j) == s);
    }
}

impl NodeMap {
    /// An empty table.
    pub fn new() -> (r: NodeMap)
        ensures
            r@ == Map::<(i64, i64), usize>::empty(),
    {
        NodeMap { entries: Vec::new() }
    }

    /// Record the node of a key, replacing any earlier one.
    pub fn insert(&mut self, key: (i64, i64), node: usize)
        ensures
            final(self)@ == old(self)@.insert(key, node),
    {
        self.entries.push((key.0, key.1, node));
        proof {
            assert(self.entries@.drop_last() == old(self).entries@);
        }
    }

    /// The node of a key, if any.
    pub fn get(&self, key: (i64, i64)) -> (r: Option<usize>)
        ensures
            r == (if self@.contains_key(key) { Some(self@[key]) } else { None::<usize> }),
    {
        let ghost s = self.entries@;
        let mut j: usize = self.entries.len();
        while j > 0
            invariant
                j <= s.len(),
                s == self.entries@,
                forall|i: int| j <= i < s.len() ==> ((#[trigger] s[i]).0, s[i].1) != key,
            decreases j,
        {
            let (f, b, node) = self.entries[j - 1];
            if f == key.0 && b == key.1 {
                proof {
                    lemma_map_of_tail(s, j as int, key);
                    assert(s.take(j as int).drop_last() == s.take(j - 1));
                    assert(s.take(j as int).last() == s[j - 1]);
                }
                return Some(node);
            }
            j = j - 1;
        }
        proof {
            lemma_map_of_tail(s, 0, key);
            assert(s.take(0) == Seq::<(i64, i64, usize)>::empty());
        }
        None
    }
}

/// Inter-procedural control-flow graph.
#[derive(Debug)]
pub struct Icfg {
    /// All functions' nodes and edges
    pub graph: IcfgGraph,
    /// (function id, block id) to node index
    pub node_map: NodeMap,
    /// The function the graph was built from
    pub entry_function: i64,
}

// ---------------------------------------------------------------------------
// JSON form
// ---------------------------------------------------------------------------

/// Name of a node type, as `{:?}` writes it.
pub open spec fn node_type_text(t: IcfgNodeType) -> Seq<char> {
    match t {
        IcfgNodeType::BasicBlock => "BasicBlock"@,
        IcfgNodeType::CallSite => "CallSite"@,
        IcfgNodeType::FunctionEntry => "FunctionEntry"@,
        IcfgNodeType::FunctionExit => "FunctionExit"@,
    }
}

/// Class of an edge in the JSON form.
pub open spec fn edge_class_text(e: IcfgEdge) -> Seq<char> {
    match e {
        IcfgEdge::IntraProcedural { .. } => "intra"@,
        IcfgEdge::Call { .. } => "call"@,
        IcfgEdge::Return { .. } => "return"@,
    }
}

/// Label of an edge: its kind within a function, else "call" or "return".
pub open spec fn edge_label_text(e: IcfgEdge) -> Seq<char> {
    match e {
        IcfgEdge::IntraProcedural { edge_type } => edge_type@,
        IcfgEdge::Call { .. } => "call"@,
        IcfgEdge::Return { .. } => "return"@,
    }
}

/// JSON form of an ICFG.
#[derive(Debug, Clone)]
pub struct IcfgJson {
    pub entry_function: i64,
    pub nodes: Vec<IcfgNodeJson>,
    pub edges: Vec<IcfgEdgeJson>,
    /// Number of distinct functions among the nodes
    pub function_count: usize,
}

/// JSON form of an ICFG node.
#[derive(Debug, Clone)]
pub struct IcfgNodeJson {
    pub id: usize,
    pub function_id: i64,
    pub function_name: Option<String>,
    pub block_id: i64,
    pub node_type: String,
}

/// JSON form of an ICFG edge.
#[derive(Debug, Clone)]
pub struct IcfgEdgeJson {
    pub from: usize,
    pub to: usize,
    pub edge_type: String,
    pub label: String,
}

/// `j` is the JSON form of node `i`.
pub open spec fn node_json_of(j: IcfgNodeJson, i: int, nd: IcfgNode) -> bool {
    &&& j.id == i
    &&& j.function_id == nd.function_id
    &&& j.function_name == nd.function_name
    &&& j.block_id == nd.block_id
    &&& j.node_type@ == node_type_text(nd.node_type)
}

/// `j` is the JSON form of edge `e`.
pub open spec fn edge_json_of(j: IcfgEdgeJson, e: (usize, usize, IcfgEdge)) -> bool {
    &&& j.from == e.0
    &&& j.to == e.1
    &&& j.edge_type@ == edge_class_text(e.2)
    &&& j.label@ == edge_label_text(e.2)
}

/// The function ids of the nodes.
pub open spec fn function_ids(nodes: Seq<IcfgNode>) -> Set<i64> {
    Set::new(|f: i64| exists|i: int| 0 <= i < nodes.len() && (#[trigger] nodes[i]).function_id == f)
}

fn node_type_name(t: IcfgNodeType) -> (r: String)
    ensures
        r@ == node_type_text(t),
{
    match t {
        IcfgNodeType::BasicBlock => "BasicBlock".to_owned(),
        IcfgNodeType::CallSite => "CallSite".to_owned(),
        IcfgNodeType::FunctionEntry => "FunctionEntry".to_owned(),
        IcfgNodeType::FunctionExit => "FunctionExit".to_owned(),
    }
}

impl IcfgJson {
    /// The JSON form: every node and edge in index order, and the number of
    /// distinct functions.
    pub fn from_icfg(icfg: &Icfg) -> (r: IcfgJson)
        ensures
            r.entry_function == icfg.entry_function,
            r.nodes@.len() == icfg_nodes(icfg.graph).len(),
            forall|i: int| 0 <= i < r.nodes@.len() ==> node_json_of(#[trigger] r.nodes@[i], i, icfg_nodes(icfg.graph)[i]),
            r.edges@.len() == icfg_edges(icfg.graph).len(),
            forall|i: int| 0 <= i < r.edges@.len() ==> edge_json_of(#[trigger] r.edges@[i], icfg_edges(icfg.graph)[i]),
            r.function_count == function_ids(icfg_nodes(icfg.graph)).len(),
    {
        let g = &icfg.graph;
        let ghost ns = icfg_nodes(*g);
        let ghost es = icfg_edges(*g);
        let n = icfg_node_count(g);
        let mut ids: HashSet<i64> = HashSet::new();
        let mut nodes: Vec<IcfgNodeJson> = Vec::new();
        let mut i: usize = 0;
        while i < n
            invariant
                n == ns.len(),
                ns == icfg_nodes(*g),
                i <= n,
                nodes@.len() == i,
                forall|k: int| 0 <= k < i ==> node_json_of(#[trigger] nodes@[k], k, ns[k]),
                ids@ == Set::new(|f: i64| exists|k: int| 0 <= k < i && (#[trigger] ns[k]).function_id == f),
            decreases n - i,
        {
            let nd = icfg_node(g, i);
            ids.insert(nd.function_id);
            nodes.push(IcfgNodeJson {
                id: i,
                function_id: nd.function_id,
                function_name: nd.function_name.clone(),
                block_id: nd.block_id,
                node_type: node_type_name(nd.node_type),
            });
            proof {
                assert(ids@ =~= Set::new(|f: i64| exists|k: int| 0 <= k < i + 1 && (#[trigger] ns[k]).function_id == f)) by {
                    assert forall|f: i64| ids@.contains(f) implies
                        exists|k: int| 0 <= k < i + 1 && (#[trigger] ns[k]).function_id == f by {
                        if f == nd.function_id {
                            assert(ns[i as int].function_id == f);
                        }
                    }
                }
            }
            i = i + 1;
        }
        let m = icfg_edge_count(g);
        let mut edges: Vec<IcfgEdgeJson> = Vec::new();
        let mut e: usize = 0;
        while e < m
            invariant
                m == es.len(),
                es == icfg_edges(*g),
                e <= m,
                edges@.len() == e,
                forall|k: int| 0 <= k < e ==> edge_json_of(#[trigger] edges@[k], es[k]),
            decreases m - e,
        {
            let (from, to) = icfg_edge_ends(g, e);
            let w = icfg_edge_weight(g, e);
            let (edge_type, label) = match w {
                IcfgEdge::IntraProcedural { edge_type } => ("intra".to_owned(), edge_type.clone()),
                IcfgEdge::Call { .. } => ("call".to_owned(), "call".to_owned()),
                IcfgEdge::Return { .. } => ("return".to_owned(), "return".to_owned()),
            };
            edges.push(IcfgEdgeJson { from, to, edge_type, label });
            e = e + 1;
        }
        proof {
            assert(ids@ =~= function_ids(ns));
        }
        IcfgJson { entry_function: icfg.entry_function, nodes, edges, function_count: ids.len() }
    }
}

// ---------------------------------------------------------------------------
// DOT form
// ---------------------------------------------------------------------------

/// Style of a node: dashed call sites, bold entries and exits.
pub open spec fn node_style_text(t: IcfgNodeType) -> Seq<char> {
    match t {
        IcfgNodeType::CallSite => " [style=dashed]"@,
        IcfgNodeType::FunctionEntry => " [style=bold]"@,
        IcfgNodeType::FunctionExit => " [style=bold]"@,
        IcfgNodeType::BasicBlock => Seq::empty(),
    }
}

/// Style of an edge: bold blue calls, dashed red returns.
pub open spec fn edge_style_text(e: IcfgEdge) -> Seq<char> {
    match e {
        IcfgEdge::Call { .. } => " [style=bold,color=blue]"@,
        IcfgEdge::Return { .. } => " [style=dashed,color=red]"@,
        IcfgEdge::IntraProcedural { .. } => Seq::empty(),
    }
}

/// The DOT lines of the first `k` nodes.
pub open spec fn icfg_node_lines(ns: Seq<IcfgNode>, k: nat) -> Seq<char>
    decreases k,
{
    if k == 0 {
        Seq::empty()
    } else {
        icfg_node_lines(ns, (k - 1) as nat) + "  \""@ + nat_text((k - 1) as nat) + "\""@
            + node_style_text(ns[k - 1].node_type) + ";\n"@
    }
}

/// The DOT lines of the first `k` edges.
pub open spec fn icfg_edge_lines(es: Seq<(usize, usize, IcfgEdge)>, k: nat) -> Seq<char>
    decreases k,
{
    if k == 0 {
        Seq::empty()
    } else {
        let e = es[k - 1];
        icfg_edge_lines(es, (k - 1) as nat) + "  \""@ + nat_text(e.0 as nat) + "\" -> \""@ + nat_text(e.1 as nat)
            + "\" [label=\""@ + edge_label_text(e.2) + "\""@ + edge_style_text(e.2) + "];\n"@
    }
}

/// The DOT text of an ICFG.
pub open spec fn icfg_dot_text(ns: Seq<IcfgNode>, es: Seq<(usize, usize, IcfgEdge)>) -> Seq<char> {
    "digraph ICFG {\n"@ + "  rankdir=TB;\n"@ + "  node [shape=box];\n\n"@ + icfg_node_lines(ns, ns.len())
        + icfg_edge_lines(es, es.len()) + "}\n"@
}

fn push_edge_label(out: &mut Vec<char>, w: &IcfgEdge)
    ensures
        final(out)@ == old(out)@ + edge_label_text(*w),
{
    match w {
        IcfgEdge::IntraProcedural { edge_type } => push_text(out, edge_type.as_str()),
        IcfgEdge::Call { .. } => push_text(out, "call"),
        IcfgEdge::Return { .. } => push_text(out, "return"),
    }
}

/// Export an ICFG to DOT: each node with its style, then each edge with its
/// label and style.
pub fn to_dot(icfg: &Icfg) -> (r: String)
    ensures
        r@ == icfg_dot_text(icfg_nodes(icfg.graph), icfg_edges(icfg.graph)),
{
    let g = &icfg.graph;
    let ghost ns = icfg_nodes(*g);
    let ghost es = icfg_edges(*g);
    let mut out: Vec<char> = Vec::new();
    push_text(&mut out, "digraph ICFG {\n");
    push_text(&mut out, "  rankdir=TB;\n");
    push_text(&mut out, "  node [shape=box];\n\n");
    let ghost header = out@;
    let n = icfg_node_count(g);
    let mut i: usize = 0;
    while i < n
        invariant
            n == ns.len(),
            ns == icfg_nodes(*g),
            i <= n,
            out@ == header + icfg_node_lines(ns, i as nat),
        decreases n - i,
    {
        let nd = icfg_node(g, i);
        push_text(&mut out, "  \"");
        push_nat(&mut out, i as u64);
        push_text(&mut out, "\"");
        match nd.node_type {
            IcfgNodeType::CallSite => push_text(&mut out, " [style=dashed]"),
            IcfgNodeType::FunctionEntry => push_text(&mut out, " [style=bold]"),
            IcfgNodeType::FunctionExit => push_text(&mut out, " [style=bold]"),
            IcfgNodeType::BasicBlock => {},
        }
        push_text(&mut out, ";\n");
        proof {
            assert(out@ =~= header + icfg_node_lines(ns, (i + 1) as nat));
        }
        i = i + 1;
    }
    let ghost mid = out@;
    let m = icfg_edge_count(g);
    let mut e: usize = 0;
    while e < m
        invariant
            m == es.len(),
            es == icfg_edges(*g),
            e <= m,
            out@ == mid + icfg_edge_lines(es, e as nat),
        decreases m - e,
    {
        let (from, to) = icfg_edge_ends(g, e);
        let w = icfg_edge_weight(g, e);
        push_text(&mut out, "  \"");
        push_nat(&mut out, from as u64);
        push_text(&mut out, "\" -> \"");
        push_nat(&mut out, to as u64);
        push_text(&mut out, "\" [label=\"");
        push_edge_label(&mut out, w);
        push_text(&mut out, "\"");
        match w {
            IcfgEdge::Call { .. } => push_text(&mut out, " [style=bold,color=blue]"),
            IcfgEdge::Return { .. } => push_text(&mut out, " [style=dashed,color=red]"),
            IcfgEdge::IntraProcedural { .. } => {},
        }
        push_text(&mut out, "];\n");
        proof {
            assert(out@ =~= mid + icfg_edge_lines(es, (e + 1) as nat));
        }
        e = e + 1;
    }
    push_text(&mut out, "}\n");
    proof {
        assert(out@ =~= icfg_dot_text(ns, es));
    }
    string_from_chars(&out)
}

// ---------------------------------------------------------------------------
// Projection onto the CFG core
// ---------------------------------------------------------------------------

/// Sort rank of an edge: true branches, false branches, other edges within
/// a function, calls, returns.
pub open spec fn edge_rank(e: IcfgEdge) -> nat {
    match e {
        IcfgEdge::IntraProcedural { edge_type } => if edge_type@ == "true"@ {
            0
        } else if edge_type@ == "false"@ {
            1
        } else {
            2
        },
        IcfgEdge::Call { .. } => 3,
        IcfgEdge::Return { .. } => 4,
    }
}

/// The sort rank of an edge (see `edge_rank`).
pub fn icfg_edge_sort_key(edge: &IcfgEdge) -> (r: usize)
    ensures
        r == edge_rank(*edge),
{
    match edge {
        IcfgEdge::IntraProcedural { edge_type } => {
            if same_text(edge_type.as_str(), "true") {
                proof { reveal_strlit("true"); }
                0
            } else if same_text(edge_type.as_str(), "false") {
                proof { reveal_strlit("false"); }
                1
            } else {
                2
            }
        },
        IcfgEdge::Call { .. } => 3,
        IcfgEdge::Return { .. } => 4,
    }
}

/// Outgoing entry `a` (target, edge index) sorts no later than `b`: by the
/// rank of its edge, then by target.
pub open spec fn succ_le(es: Seq<(usize, usize, IcfgEdge)>, a: (usize, usize), b: (usize, usize)) -> bool {
    let ka = edge_rank(es[a.1 as int].2);
    let kb = edge_rank(es[b.1 as int].2);
    ka < kb || (ka == kb && a.0 <= b.0)
}

/// `x` inserted into `s` after the last entry that sorts no later than it.
pub open spec fn insert_sorted(es: Seq<(usize, usize, IcfgEdge)>, s: Seq<(usize, usize)>, x: (usize, usize)) -> Seq<(usize, usize)>
    decreases s.len(),
{
    if s.len() == 0 {
        seq![x]
    } else if succ_le(es, s.last(), x) {
        s.push(x)
    } else {
        insert_sorted(es, s.drop_last(), x).push(s.last())
    }
}

/// The first `k` entries of `s`, stably sorted.
pub open spec fn sort_succs(es: Seq<(usize, usize, IcfgEdge)>, s: Seq<(usize, usize)>, k: nat) -> Seq<(usize, usize)>
    decreases k,
{
    if k == 0 { Seq::empty() } else { insert_sorted(es, sort_succs(es, s, (k - 1) as nat), s[k - 1]) }
}

/// The outgoing edges of `a` as (target, edge index), in the graph's list
/// order, stably sorted by edge rank and target.
pub open spec fn sorted_out(g: IcfgGraph, a: usize) -> Seq<(usize, usize)> {
    sort_succs(icfg_edges(g), icfg_edge_order(g, a), icfg_edge_order(g, a).len())
}

proof fn lemma_insert_at(es: Seq<(usize, usize, IcfgEdge)>, s: Seq<(usize, usize)>, x: (usize, usize), j: int)
    requires
        0 <= j <= s.len(),
        forall|i: int| j <= i < s.len() ==> !succ_le(es, #[trigger] s[i], x),
        j > 0 ==> succ_le(es, s[j - 1], x),
    ensures
        insert_sorted(es, s, x) == s.take(j).push(x) + s.skip(j),
    decreases s.len(),
{
    if s.len() == 0 {
        assert(s.take(j).push(x) + s.skip(j) =~= seq![x]);
    } else if j == s.len() {
        assert(succ_le(es, s.last(), x));
        assert(s.take(j) =~= s);
        assert(s.take(j).push(x) + s.skip(j) =~= s.push(x));
    } else {
        assert(!succ_le(es, s[s.len() - 1], x));
        let t = s.drop_last();
        assert forall|i: int| j <= i < t.len() implies !succ_le(es, #[trigger] t[i], x) by {
            assert(t[i] == s[i]);
        }
        if j > 0 {
            assert(t[j - 1] == s[j - 1]);
        }
        lemma_insert_at(es, t, x, j);
        assert(t.take(j) =~= s.take(j));
        assert((t.take(j).push(x) + t.skip(j)).push(s.last()) =~= s.take(j).push(x) + s.skip(j));
    }
}

proof fn lemma_out_edge_ids(es: Seq<(usize, usize, IcfgEdge)>, a: usize)
    requires
        es.len() <= usize::MAX,
    ensures
        forall|k: int| 0 <= k < out_edge_ids(es, a).len() ==> {
            let (t, e) = #[trigger] out_edge_ids(es, a)[k];
            e < es.len() && es[e as int].0 == a && es[e as int].1 == t
        },
    decreases es.len(),
{
    if es.len() > 0 {
        let t = es.drop_last();
        lemma_out_edge_ids(t, a);
        let o = out_edge_ids(es, a);
        let r = out_edge_ids(t, a);
        assert forall|k: int| 0 <= k < o.len() implies {
            let (tg, e) = #[trigger] o[k];
            e < es.len() && es[e as int].0 == a && es[e as int].1 == tg
        } by {
            if es.last().0 == a {
                if k > 0 {
                    assert(o[k] == r[k - 1]);
                    let (tg, e) = r[k - 1];
                    assert(es[e as int] == t[e as int]);
                } else {
                    assert(o[0] == (es.last().1, (es.len() - 1) as usize));
                    assert(es[es.len() - 1] == es.last());
                }
            } else {
                assert(o[k] == r[k]);
                let (tg, e) = r[k];
                assert(es[e as int] == t[e as int]);
            }
        }
    }
}

proof fn lemma_insert_sorted_elems(es: Seq<(usize, usize, IcfgEdge)>, s: Seq<(usize, usize)>, x: (usize, usize), p: spec_fn((usize, usize)) -> bool)
    requires
        forall|k: int| 0 <= k < s.len() ==> p(#[trigger] s[k]),
        p(x),
    ensures
        forall|k: int| 0 <= k < insert_sorted(es, s, x).len() ==> p(#[trigger] insert_sorted(es, s, x)[k]),
        insert_sorted(es, s, x).len() == s.len() + 1,
    decreases s.len(),
{
    if s.len() > 0 && !succ_le(es, s.last(), x) {
        let t = s.drop_last();
        assert forall|k: int| 0 <= k < t.len() implies p(#[trigger] t[k]) by {
            assert(t[k] == s[k]);
        }
        lemma_insert_sorted_elems(es, t, x, p);
        let r = insert_sorted(es, s, x);
        assert forall|k: int| 0 <= k < r.len() implies p(#[trigger] r[k]) by {
            if k < r.len() - 1 {
                assert(r[k] == insert_sorted(es, t, x)[k]);
            } else {
                assert(r[k] == s[s.len() - 1]);
            }
        }
    } else if s.len() > 0 {
        let r = insert_sorted(es, s, x);
        assert forall|k: int| 0 <= k < r.len() implies p(#[trigger] r[k]) by {
            if k < s.len() {
                assert(r[k] == s[k]);
            }
        }
    }
}

proof fn lemma_sort_succs_elems(es: Seq<(usize, usize, IcfgEdge)>, s: Seq<(usize, usize)>, k: nat, p: spec_fn((usize, usize)) -> bool)
    requires
        k <= s.len(),
        forall|i: int| 0 <= i < s.len() ==> p(#[trigger] s[i]),
    ensures
        forall|i: int| 0 <= i < sort_succs(es, s, k).len() ==> p(#[trigger] sort_succs(es, s, k)[i]),
        sort_succs(es, s, k).len() == k,
    decreases k,
{
    if k > 0 {
        lemma_sort_succs_elems(es, s, (k - 1) as nat, p);
        lemma_insert_sorted_elems(es, sort_succs(es, s, (k - 1) as nat), s[k - 1], p);
    }
}

/// The outgoing edges of node `a`, sorted (see `sorted_out`).
fn sorted_icfg_successors(g: &IcfgGraph, a: usize) -> (r: Vec<(usize, usize)>)
    requires
        a < icfg_nodes(*g).len(),
    ensures
        r@ == sorted_out(*g, a),
        forall|k: int| 0 <= k < r.len() ==> (#[trigger] r@[k]).1 < icfg_edges(*g).len()
            && icfg_edges(*g)[r@[k].1 as int].0 == a && icfg_edges(*g)[r@[k].1 as int].1 == r@[k].0,
{
    let ghost es = icfg_edges(*g);
    let m = icfg_edge_count(g);
    let out = icfg_out_edges(g, a);
    proof {
        lemma_out_edge_ids(es, a);
        lemma_same_multiset(out@, out_edge_ids(es, a));
        assert forall|k: int| 0 <= k < out@.len() implies {
            let q = #[trigger] out@[k];
            q.1 < es.len() && es[q.1 as int].0 == a && es[q.1 as int].1 == q.0
        } by {
            assert(out@.contains(out@[k]));
            let j = choose|j: int| 0 <= j < out_edge_ids(es, a).len() && out_edge_ids(es, a)[j] == out@[k];
            assert(out_edge_ids(es, a)[j] == out@[k]);
        }
    }
    let ghost ok = |q: (usize, usize)| q.1 < es.len() && es[q.1 as int].0 == a && es[q.1 as int].1 == q.0;
    let mut sorted: Vec<(usize, usize)> = Vec::new();
    let mut i: usize = 0;
    while i < out.len()
        invariant
            m == es.len(),
            es == icfg_edges(*g),
            ok == (|q: (usize, usize)| q.1 < es.len() && es[q.1 as int].0 == a && es[q.1 as int].1 == q.0),
            out@ == icfg_edge_order(*g, a),
            forall|k: int| 0 <= k < out@.len() ==> ok(#[trigger] out@[k]),
            i <= out.len(),
            sorted@ == sort_succs(es, out@, i as nat),
            forall|k: int| 0 <= k < sorted@.len() ==> ok(#[trigger] sorted@[k]),
        decreases out.len() - i,
    {
        let x = out[i];
        assert(ok(out@[i as int]));
        let kx = icfg_edge_sort_key(icfg_edge_weight(g, x.1));
        let mut j: usize = sorted.len();
        let mut stop = false;
        while j > 0 && !stop
            invariant
                es == icfg_edges(*g),
                ok == (|q: (usize, usize)| q.1 < es.len() && es[q.1 as int].0 == a && es[q.1 as int].1 == q.0),
                forall|k: int| 0 <= k < sorted@.len() ==> ok(#[trigger] sorted@[k]),
                ok(x),
                kx == edge_rank(es[x.1 as int].2),
                j <= sorted.len(),
                forall|k: int| j <= k < sorted@.len() ==> !succ_le(es, #[trigger] sorted@[k], x),
                stop ==> j > 0 && succ_le(es, sorted@[j - 1], x),
            decreases j, if stop { 0int } else { 1int },
        {
            let y = sorted[j - 1];
            assert(ok(sorted@[j - 1]));
            let ky = icfg_edge_sort_key(icfg_edge_weight(g, y.1));
            if ky < kx || (ky == kx && y.0 <= x.0) {
                stop = true;
            } else {
                j = j - 1;
            }
        }
        proof {
            if j > 0 {
                let y = sorted@[j - 1];
                assert(ok(y));
            }
            lemma_insert_at(es, sorted@, x, j as int);
            lemma_insert_sorted_elems(es, sorted@, x, ok);
        }
        let ghost before = sorted@;
        sorted.insert(j, x);
        proof {
            assert(sorted@ =~= before.take(j as int).push(x) + before.skip(j as int));
        }
        i = i + 1;
    }
    sorted
}

/// `t` is the terminator a projected node gets from its sorted outgoing
/// edges `out`: a return at a function exit or a node with none; with one,
/// a call to it when it is a call edge, else a goto; with several, a switch
/// on all but the last target, the last as the default.
pub open spec fn is_synthetic_terminator(t: Terminator, nd: IcfgNode, out: Seq<(usize, usize)>,
    es: Seq<(usize, usize, IcfgEdge)>) -> bool {
    if nd.node_type == IcfgNodeType::FunctionExit || out.len() == 0 {
        t == Terminator::Return
    } else if out.len() == 1 {
        if es[out[0].1 as int].2 is Call {
            t == Terminator::Call { target: Some(out[0].0), unwind: None }
        } else {
            t == Terminator::Goto { target: out[0].0 }
        }
    } else {
        t matches Terminator::SwitchInt { targets, otherwise }
            && targets@ == Seq::new((out.len() - 1) as nat, |i: int| out[i].0)
            && otherwise == out.last().0
    }
}

fn synthetic_terminator(g: &IcfgGraph, nd: &IcfgNode, out: &Vec<(usize, usize)>) -> (r: Terminator)
    requires
        forall|k: int| 0 <= k < out@.len() ==> (#[trigger] out@[k]).1 < icfg_edges(*g).len(),
    ensures
        is_synthetic_terminator(r, *nd, out@, icfg_edges(*g)),
{
    if nd.node_type == IcfgNodeType::FunctionExit || out.len() == 0 {
        return Terminator::Return;
    }
    if out.len() == 1 {
        let (target, e) = out[0];
        return match icfg_edge_weight(g, e) {
            IcfgEdge::Call { .. } => Terminator::Call { target: Some(target), unwind: None },
            _ => Terminator::Goto { target },
        };
    }
    let mut targets: Vec<usize> = Vec::new();
    let mut i: usize = 0;
    while i < out.len() - 1
        invariant
            out@.len() >= 2,
            i <= out@.len() - 1,
            targets@ == Seq::new(i as nat, |k: int| out@[k].0),
        decreases out@.len() - 1 - i,
    {
        targets.push(out[i].0);
        proof {
            assert(targets@ =~= Seq::new((i + 1) as nat, |k: int| out@[k].0));
        }
        i = i + 1;
    }
    let otherwise = out[out.len() - 1].0;
    Terminator::SwitchInt { targets, otherwise }
}

/// The statement text of a projected node: `name::block_N`, `name::entry`
/// or `name::exit` for a named function, `block_N` otherwise.
pub open spec fn icfg_statement(nd: IcfgNode) -> Seq<char> {
    match nd.function_name {
        Some(f) => if nd.block_id == -1 {
            f@ + "::entry"@
        } else if nd.block_id == -2 {
            f@ + "::exit"@
        } else {
            f@ + "::block_"@ + int_text(nd.block_id as int)
        },
        None => "block_"@ + int_text(nd.block_id as int),
    }
}

/// The kind of a projected node: entries and exits keep theirs; another
/// node without outgoing edges is an exit.
pub open spec fn projected_kind(nd: IcfgNode, out_len: nat) -> BlockKind {
    if nd.node_type == IcfgNodeType::FunctionEntry {
        BlockKind::Entry
    } else if nd.node_type == IcfgNodeType::FunctionExit {
        BlockKind::Exit
    } else if out_len == 0 {
        BlockKind::Exit
    } else {
        BlockKind::Normal
    }
}

/// The CFG edge kind of an ICFG edge.
pub open spec fn projected_edge_kind(e: IcfgEdge) -> EdgeType {
    match e {
        IcfgEdge::IntraProcedural { edge_type } => if edge_type@ == "true"@ {
            EdgeType::TrueBranch
        } else if edge_type@ == "false"@ {
            EdgeType::FalseBranch
        } else if edge_type@ == "loop"@ {
            EdgeType::LoopBack
        } else {
            EdgeType::Fallthrough
        },
        IcfgEdge::Call { .. } => EdgeType::Call,
        IcfgEdge::Return { .. } => EdgeType::Return,
    }
}

/// `b` is the CFG block projected from node `i`.
pub open spec fn projects_node(b: BasicBlock, i: int, nd: IcfgNode, g: IcfgGraph) -> bool {
    let es = icfg_edges(g);
    let out = sorted_out(g, i as usize);
    &&& b.id == i
    &&& b.db_id is None
    &&& b.kind == projected_kind(nd, out.len())
    &&& b.statements@.len() == 1 && b.statements@[0]@ == icfg_statement(nd)
    &&& is_synthetic_terminator(b.terminator, nd, out, es)
    &&& b.source_location is None
    &&& b.coord_x == 0 && b.coord_y == 0 && b.coord_z == 0
}

fn statement_of(nd: &IcfgNode) -> (r: String)
    ensures
        r@ == icfg_statement(*nd),
{
    let mut out: Vec<char> = Vec::new();
    match &nd.function_name {
        Some(f) => {
            push_text(&mut out, f.as_str());
            if nd.block_id == -1 {
                push_text(&mut out, "::entry");
            } else if nd.block_id == -2 {
                push_text(&mut out, "::exit");
            } else {
                push_text(&mut out, "::block_");
                push_int(&mut out, nd.block_id);
            }
        },
        None => {
            push_text(&mut out, "block_");
            push_int(&mut out, nd.block_id);
        },
    }
    proof {
        assert(out@ =~= icfg_statement(*nd));
    }
    string_from_chars(&out)
}

fn projected_kind_of(w: &IcfgEdge) -> (r: EdgeType)
    ensures
        r == projected_edge_kind(*w),
{
    match w {
        IcfgEdge::IntraProcedural { edge_type } => {
            if same_text(edge_type.as_str(), "true") {
                EdgeType::TrueBranch
            } else if same_text(edge_type.as_str(), "false") {
                EdgeType::FalseBranch
            } else if same_text(edge_type.as_str(), "loop") {
                EdgeType::LoopBack
            } else {
                EdgeType::Fallthrough
            }
        },
        IcfgEdge::Call { .. } => EdgeType::Call,
        IcfgEdge::Return { .. } => EdgeType::Return,
    }
}

/// Project an ICFG onto the CFG core: node `i` becomes block `i` (with a
/// terminator built from its sorted outgoing edges), and every edge keeps
/// its endpoints with its kind mapped (see `projects_node`).
pub fn project_icfg_to_cfg(icfg: &Icfg) -> (r: Cfg)
    ensures
        cfg_blocks(r).len() == icfg_nodes(icfg.graph).len(),
        forall|i: int| 0 <= i < cfg_blocks(r).len() ==>
            projects_node(#[trigger] cfg_blocks(r)[i], i, icfg_nodes(icfg.graph)[i], icfg.graph),
        cfg_edges(r).len() == icfg_edges(icfg.graph).len(),
        forall|e: int| 0 <= e < cfg_edges(r).len() ==> #[trigger] cfg_edges(r)[e] == (icfg_edges(icfg.graph)[e].0,
            icfg_edges(icfg.graph)[e].1, projected_edge_kind(icfg_edges(icfg.graph)[e].2)),
{
    let g = &icfg.graph;
    let ghost ns = icfg_nodes(*g);
    let ghost es = icfg_edges(*g);
    let n = icfg_node_count(g);
    let mut cfg = cfg_new();
    let mut i: usize = 0;
    while i < n
        invariant
            n == ns.len(),
            n <= u32::MAX,
            *g == icfg.graph,
            ns == icfg_nodes(*g),
            es == icfg_edges(*g),
            i <= n,
            cfg_blocks(cfg).len() == i,
            forall|k: int| 0 <= k < i ==> projects_node(#[trigger] cfg_blocks(cfg)[k], k, ns[k], icfg.graph),
            cfg_edges(cfg) == Seq::<CfgEdge>::empty(),
        decreases n - i,
    {
        let nd = icfg_node(g, i);
        let outgoing = sorted_icfg_successors(g, i);
        let terminator = synthetic_terminator(g, nd, &outgoing);
        let kind = match nd.node_type {
            IcfgNodeType::FunctionEntry => BlockKind::Entry,
            IcfgNodeType::FunctionExit => BlockKind::Exit,
            _ => if outgoing.len() == 0 { BlockKind::Exit } else { BlockKind::Normal },
        };
        let mut statements: Vec<String> = Vec::new();
        statements.push(statement_of(nd));
        let b = BasicBlock {
            id: i,
            db_id: None,
            kind,
            statements,
            terminator,
            source_location: None,
            coord_x: 0,
            coord_y: 0,
            coord_z: 0,
        };
        let ghost bb = b;
        add_block(&mut cfg, b);
        proof {
            assert(outgoing@ == sorted_out(icfg.graph, i));
            assert(projects_node(bb, i as int, ns[i as int], icfg.graph));
            assert(cfg_blocks(cfg)[i as int] == bb);
        }
        i = i + 1;
    }
    let m = icfg_edge_count(g);
    let mut e: usize = 0;
    while e < m
        invariant
            n == ns.len(),
            m == es.len(),
            m <= u32::MAX,
            ns == icfg_nodes(*g),
            es == icfg_edges(*g),
            forall|k: int| 0 <= k < m ==> (#[trigger] es[k]).0 < n && es[k].1 < n,
            e <= m,
            cfg_blocks(cfg).len() == n,
            forall|k: int| 0 <= k < n ==> projects_node(#[trigger] cfg_blocks(cfg)[k], k, ns[k], icfg.graph),
            cfg_edges(cfg).len() == e,
            forall|k: int| 0 <= k < e ==> #[trigger] cfg_edges(cfg)[k] == (es[k].0, es[k].1, projected_edge_kind(es[k].2)),
        decreases m - e,
    {
        let (from, to) = icfg_edge_ends(g, e);
        let kind = projected_kind_of(icfg_edge_weight(g, e));
        add_cfg_edge(&mut cfg, from, to, kind);
        e = e + 1;
    }
    cfg
}

/// Enumerate execution paths through an ICFG: the paths of its projection
/// onto the CFG core, whose block ids are the ICFG node indices.
pub fn enumerate_icfg_paths(icfg: &Icfg, limits: &PathLimits) -> (r: Vec<Path>)
    ensures
        exists|cfg: Cfg| #[trigger] projection_of(cfg, *icfg) && exists|o: PathEnumeration| #[trigger] is_search_outcome(o,
            sorted_search(cfg, *limits), cfg_blocks(cfg).len(), cfg_blocks(cfg),
            reachable_ids(cfg_blocks(cfg), cfg_edges(cfg)), *limits, true, has_exit(sorted_search(cfg, *limits)))
            && o.paths@ == r@,
{
    let cfg = project_icfg_to_cfg(icfg);
    let r = enumerate_paths(&cfg, limits);
    proof {
        assert(projection_of(cfg, *icfg));
    }
    r
}

/// `cfg` is the projection of `icfg` (see `project_icfg_to_cfg`).
pub open spec fn projection_of(cfg: Cfg, icfg: Icfg) -> bool {
    &&& cfg_blocks(cfg).len() == icfg_nodes(icfg.graph).len()
    &&& forall|i: int| 0 <= i < cfg_blocks(cfg).len() ==>
        projects_node(#[trigger] cfg_blocks(cfg)[i], i, icfg_nodes(icfg.graph)[i], icfg.graph)
    &&& cfg_edges(cfg).len() == icfg_edges(icfg.graph).len()
    &&& forall|e: int| 0 <= e < cfg_edges(cfg).len() ==> #[trigger] cfg_edges(cfg)[e] == (icfg_edges(icfg.graph)[e].0,
        icfg_edges(icfg.graph)[e].1, projected_edge_kind(icfg_edges(icfg.graph)[e].2))
}

} // verus!
