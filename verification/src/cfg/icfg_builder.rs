//! Building an ICFG from an entry function, one function at a time.
//!
//! The builder holds the decisions; its caller loads what each step needs:
//! `next_function` names the next function to expand (or none), the caller
//! loads that function's blocks, name and callees and hands them to
//! `expand`, and `finish` adds the call and return edges once every
//! function's nodes exist.

use vstd::prelude::*;
use crate::cfg::icfg::{Icfg, IcfgEdge, IcfgNode, IcfgNodeType, IcfgOptions, NodeMap};
use crate::cfg::icfg_graph::{IcfgGraph, icfg_nodes, icfg_edges, icfg_graph_new, icfg_node_count, icfg_edge_count,
    icfg_add_node, icfg_add_edge};
use crate::text::same_text;

verus! {

/// A block of a function as storage gives it: its id and the kind of its
/// terminator ("fallthrough", "goto", "call", "conditional", "return", ...).
#[derive(Debug, Clone)]
pub struct IcfgBlockRow {
    pub id: i64,
    pub terminator: String,
}

/// A call from the function being expanded: the callee, and where known the
/// call-site block, the block execution resumes at, and the callee's
/// return blocks.
#[derive(Debug, Clone)]
pub struct CallLink {
    pub callee_id: i64,
    pub caller_call_block_id: Option<i64>,
    pub caller_resume_block_id: Option<i64>,
    pub callee_return_block_ids: Vec<i64>,
}

/// The entry in `m` for `k`, if any.
pub open spec fn lookup(m: Map<(i64, i64), usize>, k: (i64, i64)) -> Option<usize> {
    if m.contains_key(k) { Some(m[k]) } else { None }
}

/// The node of a function's block: a call site when its terminator is a
/// call, a plain block otherwise.
pub open spec fn block_node(f: i64, name: Option<String>, row: IcfgBlockRow) -> IcfgNode {
    IcfgNode {
        function_id: f,
        function_name: name,
        block_id: row.id,
        node_type: if row.terminator@ == "call"@ { IcfgNodeType::CallSite } else { IcfgNodeType::BasicBlock },
    }
}

/// The nodes a function adds: its entry (block -1), its exit (block -2),
/// then one per block.
pub open spec fn function_nodes(f: i64, name: Option<String>, rows: Seq<IcfgBlockRow>) -> Seq<IcfgNode> {
    seq![
        IcfgNode { function_id: f, function_name: name, block_id: -1i64, node_type: IcfgNodeType::FunctionEntry },
        IcfgNode { function_id: f, function_name: name, block_id: -2i64, node_type: IcfgNodeType::FunctionExit },
    ] + Seq::new(rows.len(), |i: int| block_node(f, name, rows[i]))
}

/// The node table after recording the first `k` blocks of function `f`,
/// block `i` at node `base + 2 + i`.
pub open spec fn map_with_rows(m: Map<(i64, i64), usize>, f: i64, rows: Seq<IcfgBlockRow>, base: nat, k: nat) -> Map<(i64, i64), usize>
    decreases k,
{
    if k == 0 {
        m
    } else {
        map_with_rows(m, f, rows, base, (k - 1) as nat).insert((f, rows[k - 1].id), (base + 2 + k - 1) as usize)
    }
}

/// The node table after adding function `f` at node `base`.
pub open spec fn map_with_function(m: Map<(i64, i64), usize>, f: i64, rows: Seq<IcfgBlockRow>, base: nat) -> Map<(i64, i64), usize> {
    map_with_rows(m.insert((f, -1i64), base as usize).insert((f, -2i64), (base + 1) as usize), f, rows, base, rows.len())
}

/// The edges within function `f` that block `idx` starts, as (from, to,
/// kind): to the next block for a fallthrough, goto or call; to the next
/// ("true") and the one after ("false") for a conditional; targets beyond
/// the last block are dropped.
pub open spec fn block_intra_edges(m: Map<(i64, i64), usize>, f: i64, rows: Seq<IcfgBlockRow>, idx: int) -> Seq<(usize, usize, Seq<char>)> {
    let from = m[(f, rows[idx].id)];
    let term = rows[idx].terminator@;
    let next: Seq<(usize, usize, Seq<char>)> = if idx + 1 < rows.len() { seq![(from, m[(f, rows[idx + 1].id)], "fallthrough"@)] } else { Seq::empty() };
    if term == "fallthrough"@ || term == "goto"@ || term == "call"@ {
        next
    } else if term == "conditional"@ {
        (if idx + 1 < rows.len() { seq![(from, m[(f, rows[idx + 1].id)], "true"@)] } else { Seq::empty() })
            + (if idx + 2 < rows.len() { seq![(from, m[(f, rows[idx + 2].id)], "false"@)] } else { Seq::empty() })
    } else {
        Seq::empty()
    }
}

/// The edges of the first `k` blocks, block by block.
pub open spec fn intra_edges(m: Map<(i64, i64), usize>, f: i64, rows: Seq<IcfgBlockRow>, k: nat) -> Seq<(usize, usize, Seq<char>)>
    decreases k,
{
    if k == 0 { Seq::empty() } else { intra_edges(m, f, rows, (k - 1) as nat) + block_intra_edges(m, f, rows, k - 1) }
}

/// The edges a function adds: those within it, then entry to first block.
pub open spec fn function_edges(m: Map<(i64, i64), usize>, f: i64, rows: Seq<IcfgBlockRow>) -> Seq<(usize, usize, Seq<char>)> {
    intra_edges(m, f, rows, rows.len()).push((m[(f, -1i64)], m[(f, rows[0].id)], "entry"@))
}

proof fn lemma_intra_edges_hold_block(m: Map<(i64, i64), usize>, f: i64, rows: Seq<IcfgBlockRow>, k: nat, idx: int, e: (usize, usize, Seq<char>))
    requires
        0 <= idx < k,
        block_intra_edges(m, f, rows, idx).contains(e),
    ensures
        intra_edges(m, f, rows, k).contains(e),
    decreases k,
{
    let prev = intra_edges(m, f, rows, (k - 1) as nat);
    let here = block_intra_edges(m, f, rows, k - 1);
    if idx < k - 1 {
        lemma_intra_edges_hold_block(m, f, rows, (k - 1) as nat, idx, e);
        let i = choose|i: int| 0 <= i < prev.len() && prev[i] == e;
        assert((prev + here)[i] == e);
    } else {
        let i = choose|i: int| 0 <= i < here.len() && here[i] == e;
        assert((prev + here)[prev.len() + i] == e);
    }
}

/// A block with a "conditional" terminator that has two later blocks in its
/// function gets both branches: a "true" edge to the next block and a
/// "false" edge to the one after, among the edges the function adds.
pub proof fn conditional_block_has_both_branches(m: Map<(i64, i64), usize>, f: i64, rows: Seq<IcfgBlockRow>, idx: int)
    requires
        0 <= idx,
        idx + 2 < rows.len(),
        rows[idx].terminator@ == "conditional"@,
    ensures
        function_edges(m, f, rows).contains((m[(f, rows[idx].id)], m[(f, rows[idx + 1].id)], "true"@)),
        function_edges(m, f, rows).contains((m[(f, rows[idx].id)], m[(f, rows[idx + 2].id)], "false"@)),
{
    reveal_strlit("conditional");
    reveal_strlit("fallthrough");
    reveal_strlit("goto");
    reveal_strlit("call");
    assert("conditional"@[0] != "fallthrough"@[0]);
    assert("conditional"@ != "fallthrough"@);
    assert("conditional"@.len() != "goto"@.len());
    assert("conditional"@.len() != "call"@.len());
    let from = m[(f, rows[idx].id)];
    let t = (from, m[(f, rows[idx + 1].id)], "true"@);
    let fl = (from, m[(f, rows[idx + 2].id)], "false"@);
    let b = block_intra_edges(m, f, rows, idx);
    assert(b == seq![t] + seq![fl]);
    assert(b[0] == t);
    assert(b[1] == fl);
    let ie = intra_edges(m, f, rows, rows.len());
    lemma_intra_edges_hold_block(m, f, rows, rows.len(), idx, t);
    lemma_intra_edges_hold_block(m, f, rows, rows.len(), idx, fl);
    let fe = function_edges(m, f, rows);
    let i = choose|i: int| 0 <= i < ie.len() && ie[i] == t;
    assert(fe[i] == t);
    let j = choose|j: int| 0 <= j < ie.len() && ie[j] == fl;
    assert(fe[j] == fl);
}

/// A block that falls through, jumps (goto) or calls, and has a next block
/// in its function, gets a "fallthrough" edge to that next block among the
/// edges the function adds; the function's entry node gets an "entry" edge
/// to its first block.
pub proof fn sequential_block_falls_through(m: Map<(i64, i64), usize>, f: i64, rows: Seq<IcfgBlockRow>, idx: int)
    requires
        0 <= idx,
        idx + 1 < rows.len(),
        rows[idx].terminator@ == "fallthrough"@ || rows[idx].terminator@ == "goto"@
            || rows[idx].terminator@ == "call"@,
    ensures
        function_edges(m, f, rows).contains((m[(f, rows[idx].id)], m[(f, rows[idx + 1].id)], "fallthrough"@)),
        function_edges(m, f, rows).contains((m[(f, -1i64)], m[(f, rows[0].id)], "entry"@)),
{
    let e = (m[(f, rows[idx].id)], m[(f, rows[idx + 1].id)], "fallthrough"@);
    let b = block_intra_edges(m, f, rows, idx);
    assert(b[0] == e);
    let ie = intra_edges(m, f, rows, rows.len());
    lemma_intra_edges_hold_block(m, f, rows, rows.len(), idx, e);
    let fe = function_edges(m, f, rows);
    let i = choose|i: int| 0 <= i < ie.len() && ie[i] == e;
    assert(fe[i] == e);
    assert(fe[ie.len() as int] == (m[(f, -1i64)], m[(f, rows[0].id)], "entry"@));
}

/// The edges that expanding a function adds to the graph hold, for each
/// block with a "conditional" terminator and two later blocks, an
/// intra-procedural "true" edge to the next block and a "false" edge to the
/// one after (see `conditional_block_has_both_branches` and `expand`).
pub proof fn expanded_conditional_has_both_branches(es: Seq<(usize, usize, IcfgEdge)>, m: Map<(i64, i64), usize>,
    f: i64, rows: Seq<IcfgBlockRow>, idx: int)
    requires
        edges_match(es, function_edges(m, f, rows)),
        0 <= idx,
        idx + 2 < rows.len(),
        rows[idx].terminator@ == "conditional"@,
    ensures
        exists|i: int| 0 <= i < es.len() && (#[trigger] es[i]).0 == m[(f, rows[idx].id)]
            && es[i].1 == m[(f, rows[idx + 1].id)] && is_intra(es[i].2, "true"@),
        exists|i: int| 0 <= i < es.len() && (#[trigger] es[i]).0 == m[(f, rows[idx].id)]
            && es[i].1 == m[(f, rows[idx + 2].id)] && is_intra(es[i].2, "false"@),
{
    conditional_block_has_both_branches(m, f, rows, idx);
    let d = function_edges(m, f, rows);
    let from = m[(f, rows[idx].id)];
    let i = choose|i: int| 0 <= i < d.len() && d[i] == (from, m[(f, rows[idx + 1].id)], "true"@);
    assert(es[i].0 == d[i].0);
    let j = choose|j: int| 0 <= j < d.len() && d[j] == (from, m[(f, rows[idx + 2].id)], "false"@);
    assert(es[j].0 == d[j].0);
}

/// `e` is an edge within a function of kind `text`.
pub open spec fn is_intra(e: IcfgEdge, text: Seq<char>) -> bool {
    e matches IcfgEdge::IntraProcedural { edge_type } && edge_type@ == text
}

/// `es` are the intra-procedural edges `d`, one for one.
pub open spec fn edges_match(es: Seq<(usize, usize, IcfgEdge)>, d: Seq<(usize, usize, Seq<char>)>) -> bool {
    &&& es.len() == d.len()
    &&& forall|i: int| 0 <= i < es.len() ==> (#[trigger] es[i]).0 == d[i].0 && es[i].1 == d[i].1
        && is_intra(es[i].2, d[i].2)
}

/// The callees queued after expanding a function at `depth`: those not
/// visited yet, one level deeper, while `depth` is below the limit.
pub open spec fn queued_callees(callees: Seq<i64>, visited: Seq<i64>, depth: usize, max_depth: usize) -> Seq<(i64, usize)>
    decreases callees.len(),
{
    if callees.len() == 0 {
        Seq::empty()
    } else {
        let prev = queued_callees(callees.drop_last(), visited, depth, max_depth);
        if depth < max_depth && !visited.contains(callees.last()) {
            prev.push((callees.last(), (depth + 1) as usize))
        } else {
            prev
        }
    }
}

/// The queue after popping the entries already visited or too deep, and
/// the entry to expand, if any.
pub open spec fn pop_ready(queue: Seq<(i64, usize)>, visited: Seq<i64>, max_depth: usize) -> (Seq<(i64, usize)>, Option<(i64, usize)>)
    decreases queue.len(),
{
    if queue.len() == 0 {
        (queue, None)
    } else if queue.last().1 > max_depth || visited.contains(queue.last().0) {
        pop_ready(queue.drop_last(), visited, max_depth)
    } else {
        (queue.drop_last(), Some(queue.last()))
    }
}

/// The entry `pop_ready` hands out was not visited before.
pub proof fn lemma_pop_ready_fresh(queue: Seq<(i64, usize)>, visited: Seq<i64>, max_depth: usize)
    ensures
        pop_ready(queue, visited, max_depth).1 matches Some(x) ==> !visited.contains(x.0) && x.1 <= max_depth,
    decreases queue.len(),
{
    if queue.len() > 0 && (queue.last().1 > max_depth || visited.contains(queue.last().0)) {
        lemma_pop_ready_fresh(queue.drop_last(), visited, max_depth);
    }
}

/// A link that knows only its callee.
pub open spec fn plain_link(l: CallLink, callee: i64) -> bool {
    &&& l.callee_id == callee
    &&& l.caller_call_block_id is None
    &&& l.caller_resume_block_id is None
    &&& l.callee_return_block_ids@.len() == 0
}

/// The call links recorded for a function: the precise ones when there are
/// any, else one plain link per callee.
pub open spec fn recorded_links(f: i64, callees: Seq<i64>, precise: Seq<CallLink>, added: Seq<(i64, CallLink)>) -> bool {
    if precise.len() > 0 {
        added == Seq::new(precise.len(), |i: int| (f, precise[i]))
    } else {
        &&& added.len() == callees.len()
        &&& forall|i: int| 0 <= i < added.len() ==> (#[trigger] added[i]).0 == f && plain_link(added[i].1, callees[i])
    }
}

/// The return edges to `resume` from the callee's return blocks that have a node.
pub open spec fn return_block_edges(m: Map<(i64, i64), usize>, caller: i64, callee: i64, ids: Seq<i64>, resume: usize) -> Seq<(usize, usize, IcfgEdge)>
    decreases ids.len(),
{
    if ids.len() == 0 {
        Seq::empty()
    } else {
        let prev = return_block_edges(m, caller, callee, ids.drop_last(), resume);
        match lookup(m, (callee, ids.last())) {
            Some(r) => prev.push((r, resume, IcfgEdge::Return { from_function: callee, to_function: caller })),
            None => prev,
        }
    }
}

/// The call and return edges of one link of `caller`: a call edge from the
/// call-site block (or the caller's entry) to the callee's entry when it
/// has one; with return edges, one from each callee return block to the
/// resume block when both are known, otherwise from the callee's exit to
/// the caller's exit when both exist.
pub open spec fn link_edges(m: Map<(i64, i64), usize>, caller: i64, l: CallLink, include_returns: bool) -> Seq<(usize, usize, IcfgEdge)> {
    let from = match l.caller_call_block_id {
        Some(b) => match lookup(m, (caller, b)) {
            Some(x) => x,
            None => m[(caller, -1i64)],
        },
        None => m[(caller, -1i64)],
    };
    let call: Seq<(usize, usize, IcfgEdge)> = match lookup(m, (l.callee_id, -1i64)) {
        Some(ce) => seq![(from, ce, IcfgEdge::Call { from_function: caller, to_function: l.callee_id })],
        None => Seq::empty(),
    };
    let resume = match l.caller_resume_block_id {
        Some(b) => lookup(m, (caller, b)),
        None => None,
    };
    let ret: Seq<(usize, usize, IcfgEdge)> = if !include_returns {
        Seq::empty()
    } else if l.callee_return_block_ids@.len() > 0 && resume is Some {
        return_block_edges(m, caller, l.callee_id, l.callee_return_block_ids@, resume->0)
    } else {
        match (lookup(m, (l.callee_id, -2i64)), lookup(m, (caller, -2i64))) {
            (Some(a), Some(b)) => seq![(a, b, IcfgEdge::Return { from_function: l.callee_id, to_function: caller })],
            _ => Seq::empty(),
        }
    };
    call + ret
}

/// The call and return edges of the first `k` links, link by link.
pub open spec fn links_edges(m: Map<(i64, i64), usize>, links: Seq<(i64, CallLink)>, include_returns: bool, k: nat) -> Seq<(usize, usize, IcfgEdge)>
    decreases k,
{
    if k == 0 {
        Seq::empty()
    } else {
        links_edges(m, links, include_returns, (k - 1) as nat) + link_edges(m, links[k - 1].0, links[k - 1].1, include_returns)
    }
}

/// A bound on the edges the first `k` links can add.
pub open spec fn links_edge_bound(links: Seq<(i64, CallLink)>, k: nat) -> nat
    decreases k,
{
    if k == 0 {
        0
    } else {
        let n = links[k - 1].1.callee_return_block_ids@.len();
        links_edge_bound(links, (k - 1) as nat) + 1 + if n > 0 { n } else { 1 }
    }
}

/// The state of an ICFG under construction.
pub struct IcfgBuilder {
    icfg: Icfg,
    queue: Vec<(i64, usize)>,
    visited: Vec<i64>,
    links: Vec<(i64, CallLink)>,
    options: IcfgOptions,
}

impl IcfgBuilder {
    /// Every recorded node index is a node, and every caller of a recorded
    /// link has an entry node.
    #[verifier::type_invariant]
    spec fn builder_ok(self) -> bool {
        &&& forall|k: (i64, i64)| #[trigger] self.icfg.node_map@.contains_key(k) ==>
            self.icfg.node_map@[k] < icfg_nodes(self.icfg.graph).len()
        &&& forall|i: int| 0 <= i < self.links@.len() ==>
            self.icfg.node_map@.contains_key(((#[trigger] self.links@[i]).0, -1i64))
    }

    /// The nodes so far.
    pub closed spec fn nodes(self) -> Seq<IcfgNode> {
        icfg_nodes(self.icfg.graph)
    }

    /// The edges so far.
    pub closed spec fn edges(self) -> Seq<(usize, usize, IcfgEdge)> {
        icfg_edges(self.icfg.graph)
    }

    /// The node table so far.
    pub closed spec fn node_table(self) -> Map<(i64, i64), usize> {
        self.icfg.node_map@
    }

    /// The functions waiting to be expanded, with their call depth (the
    /// last one is next).
    pub closed spec fn pending(self) -> Seq<(i64, usize)> {
        self.queue@
    }

    /// The functions taken up so far.
    pub closed spec fn seen(self) -> Seq<i64> {
        self.visited@
    }

    /// The call links recorded so far, with their caller.
    pub closed spec fn call_links(self) -> Seq<(i64, CallLink)> {
        self.links@
    }

    /// The construction options.
    pub closed spec fn opts(self) -> IcfgOptions {
        self.options
    }

    /// The entry function.
    pub closed spec fn entry(self) -> i64 {
        self.icfg.entry_function
    }

    /// A builder for the ICFG of `entry_function`, with it waiting at depth 0.
    pub fn new(entry_function: i64, options: IcfgOptions) -> (r: IcfgBuilder)
        ensures
            r.nodes() == Seq::<IcfgNode>::empty(),
            r.edges() == Seq::<(usize, usize, IcfgEdge)>::empty(),
            r.node_table() == Map::<(i64, i64), usize>::empty(),
            r.pending() == seq![(entry_function, 0usize)],
            r.seen() == Seq::<i64>::empty(),
            r.call_links() == Seq::<(i64, CallLink)>::empty(),
            r.opts() == options,
            r.entry() == entry_function,
    {
        let mut queue: Vec<(i64, usize)> = Vec::new();
        queue.push((entry_function, 0));
        IcfgBuilder {
            icfg: Icfg { graph: icfg_graph_new(), node_map: NodeMap::new(), entry_function },
            queue,
            visited: Vec::new(),
            links: Vec::new(),
            options,
        }
    }

    /// A builder with nothing in it, to hold `self`'s place while it is
    /// taken apart.
    fn blank() -> (r: IcfgBuilder)
        ensures
            r.nodes() == Seq::<IcfgNode>::empty(),
            r.edges() == Seq::<(usize, usize, IcfgEdge)>::empty(),
            r.node_table() == Map::<(i64, i64), usize>::empty(),
            r.pending() == Seq::<(i64, usize)>::empty(),
            r.seen() == Seq::<i64>::empty(),
            r.call_links() == Seq::<(i64, CallLink)>::empty(),
            r.opts() == (IcfgOptions { max_depth: 0, include_return_edges: false }),
            r.entry() == 0,
    {
        IcfgBuilder {
            icfg: Icfg { graph: icfg_graph_new(), node_map: NodeMap::new(), entry_function: 0 },
            queue: Vec::new(),
            visited: Vec::new(),
            links: Vec::new(),
            options: IcfgOptions { max_depth: 0, include_return_edges: false },
        }
    }

    /// The next function to expand, with its depth: waiting entries already
    /// taken up or deeper than the limit are dropped; the one returned is
    /// marked as taken up (see `pop_ready`).
    pub fn next_function(&mut self) -> (r: Option<(i64, usize)>)
        ensures
            (final(self).pending(), r) == pop_ready(old(self).pending(), old(self).seen(), old(self).opts().max_depth),
            final(self).seen() == (match r {
                Some(x) => old(self).seen().push(x.0),
                None => old(self).seen(),
            }),
            final(self).nodes() == old(self).nodes(),
            final(self).edges() == old(self).edges(),
            final(self).node_table() == old(self).node_table(),
            final(self).call_links() == old(self).call_links(),
            final(self).opts() == old(self).opts(),
            final(self).entry() == old(self).entry(),
            r matches Some(x) ==> !old(self).seen().contains(x.0),
    {
        proof {
            lemma_pop_ready_fresh(self.pending(), self.seen(), self.opts().max_depth);
        }
        let mut tmp = IcfgBuilder::blank();
        std::mem::swap(self, &mut tmp);
        proof {
            use_type_invariant(&tmp);
        }
        let ghost q0 = tmp.queue@;
        let ghost v0 = tmp.visited@;
        let IcfgBuilder { icfg, mut queue, mut visited, links, options } = tmp;
        let mut found: Option<(i64, usize)> = None;
        while queue.len() > 0 && found.is_none()
            invariant
                found is None ==> pop_ready(queue@, v0, options.max_depth) == pop_ready(q0, v0, options.max_depth),
                found matches Some(x) ==> pop_ready(q0, v0, options.max_depth) == (queue@, Some(x)),
                visited@ == v0,
            decreases queue@.len(), if found is None { 1int } else { 0int },
        {
            let ghost before = queue@;
            let (f, depth) = queue.pop().unwrap();
            proof {
                assert(before.drop_last() == queue@);
            }
            if !(depth > options.max_depth || contains_id(&visited, f)) {
                found = Some((f, depth));
            }
        }
        match found {
            Some((f, _)) => visited.push(f),
            None => {},
        }
        *self = IcfgBuilder { icfg, queue, visited, links, options };
        found
    }

    /// There is room in the graph (at most `u32::MAX` nodes and edges) for a
    /// function of `rows` blocks.
    pub closed spec fn room_for(self, rows: nat) -> bool {
        &&& self.nodes().len() + 2 + rows <= u32::MAX
        &&& self.edges().len() + 2 * rows + 1 <= u32::MAX
    }

    /// Whether there is room for a function of `rows` blocks.
    pub fn has_room_for(&self, rows: usize) -> (r: bool)
        ensures
            r == self.room_for(rows as nat),
    {
        let n = icfg_node_count(&self.icfg.graph);
        let m = icfg_edge_count(&self.icfg.graph);
        if rows > 0xffff_ffff {
            return false;
        }
        (n as u64) + 2 + (rows as u64) <= 0xffff_ffff && (m as u64) + 2 * (rows as u64) + 1 <= 0xffff_ffff
    }
}

impl IcfgBuilder {
    /// Expand function `function_id`, the one `next_function` last took up
    /// (at `depth`): add its entry,
    /// exit and block nodes, its edges within it and from its entry to its
    /// first block; queue its callees `callee_ids` not visited yet while
    /// `depth` is below the limit; record its call links (the precise ones
    /// when there are any, else one per callee).
    pub fn expand(&mut self, function_id: i64, depth: usize, name: Option<String>, rows: &Vec<IcfgBlockRow>,
        callee_ids: Vec<i64>, precise: Vec<CallLink>)
        requires
            rows@.len() > 0,
            old(self).room_for(rows@.len()),
            old(self).seen().len() > 0,
            old(self).seen().last() == function_id,
            !old(self).seen().drop_last().contains(function_id),
        ensures
            final(self).nodes() == old(self).nodes() + function_nodes(function_id, name, rows@),
            final(self).node_table() == map_with_function(old(self).node_table(), function_id, rows@, old(self).nodes().len()),
            final(self).edges().take(old(self).edges().len() as int) == old(self).edges(),
            final(self).edges().len() >= old(self).edges().len(),
            edges_match(final(self).edges().skip(old(self).edges().len() as int),
                function_edges(final(self).node_table(), function_id, rows@)),
            final(self).pending() == old(self).pending() + queued_callees(callee_ids@, old(self).seen(), depth,
                old(self).opts().max_depth),
            final(self).seen() == old(self).seen(),
            final(self).call_links().take(old(self).call_links().len() as int) == old(self).call_links(),
            final(self).call_links().len() >= old(self).call_links().len(),
            recorded_links(function_id, callee_ids@, precise@, final(self).call_links().skip(old(self).call_links().len() as int)),
            final(self).opts() == old(self).opts(),
            final(self).entry() == old(self).entry(),
    {
        let mut tmp = IcfgBuilder::blank();
        std::mem::swap(self, &mut tmp);
        proof {
            use_type_invariant(&tmp);
        }
        let ghost base = tmp.nodes().len();
        let ghost links0 = tmp.links@;
        let IcfgBuilder { icfg, mut queue, visited, mut links, options } = tmp;
        let Icfg { mut graph, mut node_map, entry_function } = icfg;
        let ghost m0 = node_map@;
        add_function_nodes(&mut graph, &mut node_map, function_id, &name, rows);
        let ghost m1 = node_map@;
        let ghost rs = rows@;
        proof {
            let m_start = m0.insert((function_id, -1i64), base as usize).insert((function_id, -2i64), (base + 1) as usize);
            assert forall|k: (i64, i64)| #[trigger] m_start.contains_key(k) implies m_start[k] < icfg_nodes(graph).len() by {
                if k != (function_id, -1i64) && k != (function_id, -2i64) {
                    assert(m0.contains_key(k));
                }
            }
            lemma_map_with_rows_bounded(m_start, function_id, rs, base, rs.len(), icfg_nodes(graph).len());
            lemma_map_with_rows_keeps(m_start, function_id, rs, base, rs.len(), (function_id, -1i64));
            assert forall|i: int| 0 <= i < rs.len() implies m1.contains_key((function_id, #[trigger] rs[i].id)) by {
                lemma_map_with_rows_has(m_start, function_id, rs, base, rs.len(), i);
            }
            assert forall|i: int| 0 <= i < links0.len() implies m1.contains_key(((#[trigger] links0[i]).0, -1i64)) by {
                lemma_map_with_rows_keeps(m_start, function_id, rs, base, rs.len(), (links0[i].0, -1i64));
            }
        }
        add_function_edges(&mut graph, &node_map, function_id, rows);
        queue_callees(&mut queue, &visited, &callee_ids, depth, options.max_depth);
        let ghost p0 = precise@;
        record_links(&mut links, function_id, &callee_ids, precise);
        proof {
            assert forall|i: int| 0 <= i < links@.len() implies m1.contains_key(((#[trigger] links@[i]).0, -1i64)) by {
                if i < links0.len() {
                    assert(links@[i] == links@.take(links0.len() as int)[i]);
                } else {
                    let added = links@.skip(links0.len() as int);
                    let j = i - links0.len();
                    assert(added.len() == links@.len() - links0.len());
                    assert(links@[i] == added[j]);
                    if p0.len() > 0 {
                        assert(added == Seq::new(p0.len(), |q: int| (function_id, p0[q])));
                        assert(added.len() == p0.len());
                        assert(added[j] == (function_id, p0[j]));
                    } else {
                        assert(added[j].0 == function_id);
                    }
                    assert(m1.contains_key((function_id, -1i64)));
                }
            }
        }
        *self = IcfgBuilder { icfg: Icfg { graph, node_map, entry_function }, queue, visited, links, options };
    }

    /// The callees to expand: those of the precise links when there are
    /// any, else the call graph's neighbours.
    pub fn select_callees(neighbors: Vec<i64>, precise: &Vec<CallLink>) -> (r: Vec<i64>)
        ensures
            precise@.len() > 0 ==> r@ == Seq::new(precise@.len(), |i: int| precise@[i].callee_id),
            precise@.len() == 0 ==> r@ == neighbors@,
    {
        if precise.len() == 0 {
            return neighbors;
        }
        let mut r: Vec<i64> = Vec::new();
        let mut i: usize = 0;
        while i < precise.len()
            invariant
                i <= precise@.len(),
                r@ == Seq::new(i as nat, |k: int| precise@[k].callee_id),
            decreases precise@.len() - i,
        {
            r.push(precise[i].callee_id);
            proof {
                assert(r@ =~= Seq::new((i + 1) as nat, |k: int| precise@[k].callee_id));
            }
            i = i + 1;
        }
        r
    }

    /// Whether the stored callees are needed: only when the precise links
    /// and the call graph name no callee.
    pub fn needs_stored_callees(selected: &Vec<i64>) -> (r: bool)
        ensures
            r == (selected@.len() == 0),
    {
        selected.len() == 0
    }

    /// The callees to expand: the selected ones when there are any, else
    /// those storage records (none when it records none).
    pub fn callees_or_stored(selected: Vec<i64>, stored: Option<Vec<i64>>) -> (r: Vec<i64>)
        ensures
            selected@.len() > 0 ==> r@ == selected@,
            selected@.len() == 0 ==> r@ == (match stored {
                Some(v) => v@,
                None => Seq::<i64>::empty(),
            }),
    {
        if selected.len() > 0 {
            return selected;
        }
        match stored {
            Some(v) => v,
            None => selected,
        }
    }

    /// There is room in the graph for every call and return edge the links
    /// can add.
    pub closed spec fn room_for_links(self) -> bool {
        self.edges().len() + links_edge_bound(self.call_links(), self.call_links().len()) <= u32::MAX
    }

    /// Whether there is room for the links' edges (see `room_for_links`).
    pub fn has_room_for_links(&self) -> (r: bool)
        ensures
            r == self.room_for_links(),
    {
        let mut total: u64 = icfg_edge_count(&self.icfg.graph) as u64;
        let mut i: usize = 0;
        while i < self.links.len()
            invariant
                i <= self.links@.len(),
                total == self.edges().len() + links_edge_bound(self.call_links(), i as nat),
                total <= u32::MAX,
            decreases self.links@.len() - i,
        {
            let n = self.links[i].1.callee_return_block_ids.len();
            if n as u64 > 0xffff_ffff {
                proof {
                    assert(self.call_links()[i as int] == self.links@[i as int]);
                    lemma_links_edge_bound_mono(self.call_links(), (i + 1) as nat, self.call_links().len());
                }
                return false;
            }
            let step: u64 = 1 + if n > 0 { n as u64 } else { 1 };
            proof {
                assert(self.call_links()[i as int] == self.links@[i as int]);
            }
            if total + step > 0xffff_ffff {
                proof {
                    lemma_links_edge_bound_mono(self.call_links(), (i + 1) as nat, self.call_links().len());
                }
                return false;
            }
            total = total + step;
            i = i + 1;
        }
        true
    }

    /// Finish the ICFG: for each recorded link, in order, its call and
    /// return edges (see `link_edges`).
    pub fn finish(self) -> (r: Icfg)
        requires
            self.room_for_links(),
        ensures
            icfg_nodes(r.graph) == self.nodes(),
            icfg_edges(r.graph) == self.edges() + links_edges(self.node_table(), self.call_links(),
                self.opts().include_return_edges, self.call_links().len()),
            r.node_map@ == self.node_table(),
            r.entry_function == self.entry(),
    {
        proof {
            use_type_invariant(&self);
        }
        let ghost s0 = self;
        let IcfgBuilder { icfg, queue: _, visited: _, links, options } = self;
        let Icfg { mut graph, node_map, entry_function } = icfg;
        let ghost m = node_map@;
        let ghost ls = links@;
        let ghost e0 = icfg_edges(graph);
        let ghost inc = options.include_return_edges;
        let mut i: usize = 0;
        while i < links.len()
            invariant
                ls == links@,
                m == node_map@,
                i <= ls.len(),
                inc == options.include_return_edges,
                forall|k: (i64, i64)| #[trigger] m.contains_key(k) ==> m[k] < icfg_nodes(graph).len(),
                forall|j: int| 0 <= j < ls.len() ==> m.contains_key(((#[trigger] ls[j]).0, -1i64)),
                icfg_nodes(graph) == s0.nodes(),
                icfg_edges(graph) == e0 + links_edges(m, ls, inc, i as nat),
                e0.len() + links_edge_bound(ls, ls.len()) <= u32::MAX,
            decreases ls.len() - i,
        {
            proof {
                lemma_links_edges_len(m, ls, inc, i as nat);
                lemma_links_edge_bound_mono(ls, (i + 1) as nat, ls.len());
            }
            let caller = links[i].0;
            add_link_edges(&mut graph, &node_map, caller, &links[i].1, options.include_return_edges);
            i = i + 1;
        }
        Icfg { graph, node_map, entry_function }
    }
}

/// Add the call and return edges of one link (see `link_edges`).
fn add_link_edges(graph: &mut IcfgGraph, node_map: &NodeMap, caller: i64, l: &CallLink, include_returns: bool)
    requires
        node_map@.contains_key((caller, -1i64)),
        forall|k: (i64, i64)| #[trigger] node_map@.contains_key(k) ==> node_map@[k] < icfg_nodes(*old(graph)).len(),
        icfg_edges(*old(graph)).len() + 1 + (if l.callee_return_block_ids@.len() > 0 { l.callee_return_block_ids@.len() } else { 1 }) <= u32::MAX,
    ensures
        icfg_nodes(*final(graph)) == icfg_nodes(*old(graph)),
        icfg_edges(*final(graph)) == icfg_edges(*old(graph)) + link_edges(node_map@, caller, *l, include_returns),
{
    let ghost m = node_map@;
    let ghost e0 = icfg_edges(*graph);
    let entry = node_map.get((caller, -1)).unwrap();
    let from = match l.caller_call_block_id {
        Some(b) => match node_map.get((caller, b)) {
            Some(x) => x,
            None => entry,
        },
        None => entry,
    };
    match node_map.get((l.callee_id, -1)) {
        Some(ce) => {
            icfg_add_edge(graph, from, ce, IcfgEdge::Call { from_function: caller, to_function: l.callee_id });
        },
        None => {},
    }
    let ghost e1 = icfg_edges(*graph);
    if include_returns {
        let resume = match l.caller_resume_block_id {
            Some(b) => node_map.get((caller, b)),
            None => None,
        };
        let ids = &l.callee_return_block_ids;
        if ids.len() > 0 && resume.is_some() {
            let target = resume.unwrap();
            let mut k: usize = 0;
            while k < ids.len()
                invariant
                    m == node_map@,
                    k <= ids@.len(),
                    forall|q: (i64, i64)| #[trigger] m.contains_key(q) ==> m[q] < icfg_nodes(*graph).len(),
                    target < icfg_nodes(*graph).len(),
                    icfg_nodes(*graph) == icfg_nodes(*old(graph)),
                    icfg_edges(*graph) == e1 + return_block_edges(m, caller, l.callee_id, ids@.take(k as int), target),
                    e1.len() <= e0.len() + 1,
                    e0.len() + 1 + ids@.len() <= u32::MAX,
                decreases ids@.len() - k,
            {
                proof {
                    assert(ids@.take(k + 1).drop_last() == ids@.take(k as int));
                    assert(ids@.take(k + 1).last() == ids@[k as int]);
                    lemma_return_block_edges_len(m, caller, l.callee_id, ids@.take(k as int), target);
                }
                match node_map.get((l.callee_id, ids[k])) {
                    Some(r) => {
                        icfg_add_edge(graph, r, target, IcfgEdge::Return { from_function: l.callee_id, to_function: caller });
                    },
                    None => {},
                }
                k = k + 1;
            }
            proof {
                assert(ids@.take(ids@.len() as int) == ids@);
            }
        } else {
            let callee_exit = node_map.get((l.callee_id, -2));
            let caller_exit = node_map.get((caller, -2));
            match (callee_exit, caller_exit) {
                (Some(a), Some(b)) => {
                    icfg_add_edge(graph, a, b, IcfgEdge::Return { from_function: l.callee_id, to_function: caller });
                },
                _ => {},
            }
        }
    }
    proof {
        assert(icfg_edges(*graph) =~= icfg_edges(*old(graph)) + link_edges(m, caller, *l, include_returns));
    }
}

proof fn lemma_return_block_edges_len(m: Map<(i64, i64), usize>, caller: i64, callee: i64, ids: Seq<i64>, resume: usize)
    ensures
        return_block_edges(m, caller, callee, ids, resume).len() <= ids.len(),
    decreases ids.len(),
{
    if ids.len() > 0 {
        lemma_return_block_edges_len(m, caller, callee, ids.drop_last(), resume);
    }
}

proof fn lemma_links_edges_len(m: Map<(i64, i64), usize>, links: Seq<(i64, CallLink)>, inc: bool, k: nat)
    requires
        k <= links.len(),
    ensures
        links_edges(m, links, inc, k).len() <= links_edge_bound(links, k),
    decreases k,
{
    if k > 0 {
        lemma_links_edges_len(m, links, inc, (k - 1) as nat);
        let l = links[k - 1].1;
        lemma_return_block_edges_len(m, links[k - 1].0, l.callee_id, l.callee_return_block_ids@, 0);
        assert forall|r: usize| (#[trigger] return_block_edges(m, links[k - 1].0, l.callee_id, l.callee_return_block_ids@, r)).len()
            <= l.callee_return_block_ids@.len() by {
            lemma_return_block_edges_len(m, links[k - 1].0, l.callee_id, l.callee_return_block_ids@, r);
        }
    }
}

proof fn lemma_links_edge_bound_mono(links: Seq<(i64, CallLink)>, j: nat, k: nat)
    requires
        j <= k,
    ensures
        links_edge_bound(links, j) <= links_edge_bound(links, k),
    decreases k,
{
    if j < k {
        lemma_links_edge_bound_mono(links, j, (k - 1) as nat);
    }
}

/// `f` is among `ids`.
fn contains_id(ids: &Vec<i64>, f: i64) -> (r: bool)
    ensures
        r == ids@.contains(f),
{
    let mut i: usize = 0;
    while i < ids.len()
        invariant
            i <= ids@.len(),
            forall|k: int| 0 <= k < i ==> ids@[k] != f,
        decreases ids@.len() - i,
    {
        if ids[i] == f {
            proof {
                assert(ids@[i as int] == f);
            }
            return true;
        }
        i = i + 1;
    }
    false
}

/// A copy of a function name.
fn clone_name(name: &Option<String>) -> (r: Option<String>)
    ensures
        r == *name,
{
    match name {
        Some(s) => Some(s.clone()),
        None => None,
    }
}

/// Add the nodes of function `f` (see `function_nodes`) and record them in
/// the table.
fn add_function_nodes(graph: &mut IcfgGraph, node_map: &mut NodeMap, function_id: i64, name: &Option<String>,
    rows: &Vec<IcfgBlockRow>)
    requires
        icfg_nodes(*old(graph)).len() + 2 + rows@.len() <= u32::MAX,
    ensures
        icfg_nodes(*final(graph)) == icfg_nodes(*old(graph)) + function_nodes(function_id, *name, rows@),
        icfg_edges(*final(graph)) == icfg_edges(*old(graph)),
        final(node_map)@ == map_with_function(old(node_map)@, function_id, rows@, icfg_nodes(*old(graph)).len()),
{
    let ghost base = icfg_nodes(*graph).len();
    let entry_idx = icfg_add_node(graph, IcfgNode {
        function_id,
        function_name: clone_name(name),
        block_id: -1,
        node_type: IcfgNodeType::FunctionEntry,
    });
    node_map.insert((function_id, -1), entry_idx);
    let exit_idx = icfg_add_node(graph, IcfgNode {
        function_id,
        function_name: clone_name(name),
        block_id: -2,
        node_type: IcfgNodeType::FunctionExit,
    });
    node_map.insert((function_id, -2), exit_idx);
    let ghost g_start = icfg_nodes(*graph);
    let ghost m_start = node_map@;
    let mut i: usize = 0;
    while i < rows.len()
        invariant
            base == g_start.len() - 2,
            base + 2 + rows@.len() <= u32::MAX,
            i <= rows@.len(),
            icfg_nodes(*graph) == g_start + Seq::new(i as nat, |k: int| block_node(function_id, *name, rows@[k])),
            icfg_edges(*graph) == icfg_edges(*old(graph)),
            node_map@ == map_with_rows(m_start, function_id, rows@, base, i as nat),
        decreases rows@.len() - i,
    {
        let row = &rows[i];
        let is_call = same_text(row.terminator.as_str(), "call");
        proof {
            reveal_strlit("call");
        }
        let idx = icfg_add_node(graph, IcfgNode {
            function_id,
            function_name: clone_name(name),
            block_id: row.id,
            node_type: if is_call { IcfgNodeType::CallSite } else { IcfgNodeType::BasicBlock },
        });
        node_map.insert((function_id, row.id), idx);
        proof {
            assert(icfg_nodes(*graph) =~= g_start + Seq::new((i + 1) as nat, |k: int| block_node(function_id, *name, rows@[k])));
        }
        i = i + 1;
    }
    proof {
        assert(icfg_nodes(*graph) =~= icfg_nodes(*old(graph)) + function_nodes(function_id, *name, rows@));
    }
}

proof fn lemma_map_with_rows_has(m: Map<(i64, i64), usize>, f: i64, rows: Seq<IcfgBlockRow>, base: nat, k: nat, i: int)
    requires
        0 <= i < k <= rows.len(),
    ensures
        map_with_rows(m, f, rows, base, k).contains_key((f, rows[i].id)),
    decreases k,
{
    if i < k - 1 {
        lemma_map_with_rows_has(m, f, rows, base, (k - 1) as nat, i);
    }
}

proof fn lemma_intra_edges_len(m: Map<(i64, i64), usize>, f: i64, rows: Seq<IcfgBlockRow>, k: nat)
    ensures
        intra_edges(m, f, rows, k).len() <= 2 * k,
    decreases k,
{
    if k > 0 {
        lemma_intra_edges_len(m, f, rows, (k - 1) as nat);
    }
}

/// Add the edge of kind `kind` from `from` to block `target_idx` when it is
/// a block of the function.
fn add_intra_edge(graph: &mut IcfgGraph, node_map: &NodeMap, function_id: i64, rows: &Vec<IcfgBlockRow>,
    target_idx: usize, from: usize, kind: &str)
    requires
        from < icfg_nodes(*old(graph)).len(),
        forall|i: int| 0 <= i < rows@.len() ==> node_map@.contains_key((function_id, #[trigger] rows@[i].id)),
        forall|k: (i64, i64)| #[trigger] node_map@.contains_key(k) ==> node_map@[k] < icfg_nodes(*old(graph)).len(),
        target_idx < rows@.len() ==> icfg_edges(*old(graph)).len() < u32::MAX,
    ensures
        icfg_nodes(*final(graph)) == icfg_nodes(*old(graph)),
        target_idx < rows@.len() ==> icfg_edges(*final(graph)).len() == icfg_edges(*old(graph)).len() + 1
            && icfg_edges(*final(graph)).drop_last() == icfg_edges(*old(graph))
            && icfg_edges(*final(graph)).last().0 == from
            && icfg_edges(*final(graph)).last().1 == node_map@[(function_id, rows@[target_idx as int].id)]
            && is_intra(icfg_edges(*final(graph)).last().2, kind@),
        target_idx >= rows@.len() ==> icfg_edges(*final(graph)) == icfg_edges(*old(graph)),
{
    if target_idx < rows.len() {
        let key = (function_id, rows[target_idx].id);
        proof {
            assert(node_map@.contains_key(key));
        }
        let to = node_map.get(key).unwrap();
        icfg_add_edge(graph, from, to, IcfgEdge::IntraProcedural { edge_type: kind.to_owned() });
        proof {
            assert(icfg_edges(*graph).drop_last() == icfg_edges(*old(graph)));
        }
    }
}

/// Add the edges of function `f` (see `function_edges`).
fn add_function_edges(graph: &mut IcfgGraph, node_map: &NodeMap, function_id: i64, rows: &Vec<IcfgBlockRow>)
    requires
        rows@.len() > 0,
        node_map@.contains_key((function_id, -1i64)),
        forall|i: int| 0 <= i < rows@.len() ==> node_map@.contains_key((function_id, #[trigger] rows@[i].id)),
        forall|k: (i64, i64)| #[trigger] node_map@.contains_key(k) ==> node_map@[k] < icfg_nodes(*old(graph)).len(),
        icfg_edges(*old(graph)).len() + 2 * rows@.len() + 1 <= u32::MAX,
    ensures
        icfg_nodes(*final(graph)) == icfg_nodes(*old(graph)),
        icfg_edges(*final(graph)).len() >= icfg_edges(*old(graph)).len(),
        icfg_edges(*final(graph)).take(icfg_edges(*old(graph)).len() as int) == icfg_edges(*old(graph)),
        edges_match(icfg_edges(*final(graph)).skip(icfg_edges(*old(graph)).len() as int),
            function_edges(node_map@, function_id, rows@)),
{
    let ghost e0 = icfg_edges(*graph);
    let ghost m = node_map@;
    let ghost rs = rows@;
    let mut idx: usize = 0;
    while idx < rows.len()
        invariant
            rs == rows@,
            m == node_map@,
            rs.len() > 0,
            idx <= rs.len(),
            icfg_nodes(*graph) == icfg_nodes(*old(graph)),
            forall|i: int| 0 <= i < rs.len() ==> m.contains_key((function_id, #[trigger] rs[i].id)),
            forall|k: (i64, i64)| #[trigger] m.contains_key(k) ==> m[k] < icfg_nodes(*graph).len(),
            e0.len() + 2 * rs.len() + 1 <= u32::MAX,
            icfg_edges(*graph).len() >= e0.len(),
            icfg_edges(*graph).take(e0.len() as int) == e0,
            edges_match(icfg_edges(*graph).skip(e0.len() as int), intra_edges(m, function_id, rs, idx as nat)),
        decreases rs.len() - idx,
    {
        proof {
            lemma_intra_edges_len(m, function_id, rs, idx as nat);
        }
        let ghost before = icfg_edges(*graph);
        let key = (function_id, rows[idx].id);
        proof {
            assert(m.contains_key(key));
        }
        let from = node_map.get(key).unwrap();
        let term = rows[idx].terminator.as_str();
        let is_next = same_text(term, "fallthrough") || same_text(term, "goto") || same_text(term, "call");
        let is_cond = same_text(term, "conditional");
        proof {
            reveal_strlit("fallthrough");
            reveal_strlit("goto");
            reveal_strlit("call");
            reveal_strlit("conditional");
            reveal_strlit("true");
            reveal_strlit("false");
        }
        if is_next {
            add_intra_edge(graph, node_map, function_id, rows, idx + 1, from, "fallthrough");
        } else if is_cond {
            add_intra_edge(graph, node_map, function_id, rows, idx + 1, from, "true");
            add_intra_edge(graph, node_map, function_id, rows, idx + 2, from, "false");
        }
        proof {
            let d = block_intra_edges(m, function_id, rs, idx as int);
            let added = icfg_edges(*graph).skip(before.len() as int);
            assert(icfg_edges(*graph) =~= before + added);
            assert(edges_match(added, d));
            let whole = intra_edges(m, function_id, rs, (idx + 1) as nat);
            assert(whole == intra_edges(m, function_id, rs, idx as nat) + d);
            let sk = icfg_edges(*graph).skip(e0.len() as int);
            assert(sk =~= before.skip(e0.len() as int) + added);
            assert(icfg_edges(*graph).take(e0.len() as int) =~= e0);
            assert forall|i: int| 0 <= i < sk.len() implies (#[trigger] sk[i]).0 == whole[i].0 && sk[i].1 == whole[i].1
                && is_intra(sk[i].2, whole[i].2) by {
                let p = before.skip(e0.len() as int);
                if i < p.len() {
                    assert(sk[i] == p[i]);
                } else {
                    assert(sk[i] == added[i - p.len()]);
                }
            }
        }
        idx = idx + 1;
    }
    proof {
        lemma_intra_edges_len(m, function_id, rs, rs.len());
    }
    let ghost before = icfg_edges(*graph);
    let entry = node_map.get((function_id, -1)).unwrap();
    let first = node_map.get((function_id, rows[0].id)).unwrap();
    proof {
        assert(m.contains_key((function_id, rs[0].id)));
    }
    icfg_add_edge(graph, entry, first, IcfgEdge::IntraProcedural { edge_type: "entry".to_owned() });
    proof {
        let sk = icfg_edges(*graph).skip(e0.len() as int);
        let whole = function_edges(m, function_id, rs);
        assert(sk =~= before.skip(e0.len() as int).push(icfg_edges(*graph).last()));
        assert(icfg_edges(*graph).take(e0.len() as int) =~= e0);
        assert forall|i: int| 0 <= i < sk.len() implies (#[trigger] sk[i]).0 == whole[i].0 && sk[i].1 == whole[i].1
            && is_intra(sk[i].2, whole[i].2) by {
            let p = before.skip(e0.len() as int);
            if i < p.len() {
                assert(sk[i] == p[i]);
            }
        }
    }
}

/// Queue the callees not visited yet, one level deeper (see `queued_callees`).
fn queue_callees(queue: &mut Vec<(i64, usize)>, visited: &Vec<i64>, callees: &Vec<i64>, depth: usize, max_depth: usize)
    ensures
        final(queue)@ == old(queue)@ + queued_callees(callees@, visited@, depth, max_depth),
{
    let mut i: usize = 0;
    while i < callees.len()
        invariant
            i <= callees@.len(),
            queue@ == old(queue)@ + queued_callees(callees@.take(i as int), visited@, depth, max_depth),
        decreases callees@.len() - i,
    {
        let c = callees[i];
        proof {
            assert(callees@.take(i + 1).drop_last() == callees@.take(i as int));
            assert(callees@.take(i + 1).last() == c);
        }
        if depth < max_depth && !contains_id(visited, c) {
            queue.push((c, depth + 1));
            proof {
                assert(queue@ =~= old(queue)@ + queued_callees(callees@.take(i + 1), visited@, depth, max_depth));
            }
        }
        i = i + 1;
    }
    proof {
        assert(callees@.take(callees@.len() as int) == callees@);
    }
}

/// Record the call links of function `f` (see `recorded_links`).
fn record_links(links: &mut Vec<(i64, CallLink)>, function_id: i64, callees: &Vec<i64>, precise: Vec<CallLink>)
    ensures
        final(links)@.len() >= old(links)@.len(),
        final(links)@.take(old(links)@.len() as int) == old(links)@,
        recorded_links(function_id, callees@, precise@, final(links)@.skip(old(links)@.len() as int)),
{
    let ghost l0 = links@;
    let ghost p0 = precise@;
    if precise.len() > 0 {
        let mut precise = precise;
        let n = precise.len();
        let mut added: Vec<(i64, CallLink)> = Vec::new();
        while precise.len() > 0
            invariant
                precise@.len() + added@.len() == p0.len(),
                p0.len() == n,
                precise@ == p0.take(precise@.len() as int),
                added@ == Seq::new(added@.len(), |k: int| (function_id, p0[p0.len() - 1 - k])),
            decreases precise@.len(),
        {
            let l = precise.pop().unwrap();
            added.push((function_id, l));
            proof {
                assert(added@ =~= Seq::new(added@.len(), |k: int| (function_id, p0[p0.len() - 1 - k])));
            }
        }
        while added.len() > 0
            invariant
                added@.len() <= n,
                p0.len() == n,
                links@.len() == l0.len() + (n - added@.len()),
                links@.take(l0.len() as int) == l0,
                forall|k: int| 0 <= k < n - added@.len() ==> #[trigger] links@[l0.len() + k] == (function_id, p0[k]),
                forall|k: int| 0 <= k < added@.len() ==> #[trigger] added@[k] == (function_id, p0[n - 1 - k]),
            decreases added@.len(),
        {
            let x = added.pop().unwrap();
            links.push(x);
            proof {
                assert(links@.take(l0.len() as int) =~= l0);
            }
        }
        proof {
            let sk = links@.skip(l0.len() as int);
            assert(sk.len() == p0.len());
            assert forall|i: int| 0 <= i < sk.len() implies sk[i] == (function_id, p0[i]) by {
                assert(sk[i] == links@[l0.len() + i]);
            }
            assert(sk =~= Seq::new(p0.len(), |i: int| (function_id, p0[i])));
        }
    } else {
        let mut i: usize = 0;
        while i < callees.len()
            invariant
                i <= callees@.len(),
                p0.len() == 0,
                links@.len() == l0.len() + i,
                links@.take(l0.len() as int) == l0,
                forall|k: int| 0 <= k < i ==> (#[trigger] links@[l0.len() + k]).0 == function_id
                    && plain_link(links@[l0.len() + k].1, callees@[k]),
            decreases callees@.len() - i,
        {
            links.push((function_id, CallLink {
                callee_id: callees[i],
                caller_call_block_id: None,
                caller_resume_block_id: None,
                callee_return_block_ids: Vec::new(),
            }));
            proof {
                assert(links@.take(l0.len() as int) =~= l0);
            }
            i = i + 1;
        }
        proof {
            let added = links@.skip(l0.len() as int);
            assert forall|k: int| 0 <= k < added.len() implies (#[trigger] added[k]).0 == function_id
                && plain_link(added[k].1, callees@[k]) by {
                assert(added[k] == links@[l0.len() + k]);
            }
        }
    }
}

proof fn lemma_map_with_rows_bounded(m: Map<(i64, i64), usize>, f: i64, rows: Seq<IcfgBlockRow>, base: nat, k: nat, bound: nat)
    requires
        k <= rows.len(),
        base + 2 + k <= bound,
        bound <= usize::MAX,
        forall|key: (i64, i64)| #[trigger] m.contains_key(key) ==> m[key] < bound,
    ensures
        forall|key: (i64, i64)| #[trigger] map_with_rows(m, f, rows, base, k).contains_key(key) ==>
            map_with_rows(m, f, rows, base, k)[key] < bound,
    decreases k,
{
    if k > 0 {
        lemma_map_with_rows_bounded(m, f, rows, base, (k - 1) as nat, bound);
        let prev = map_with_rows(m, f, rows, base, (k - 1) as nat);
        let v = (base + 2 + k - 1) as usize;
        assert(v == base + 2 + k - 1);
        assert(map_with_rows(m, f, rows, base, k) == prev.insert((f, rows[k - 1].id), v));
        assert forall|key: (i64, i64)| #[trigger] map_with_rows(m, f, rows, base, k).contains_key(key) implies
            map_with_rows(m, f, rows, base, k)[key] < bound by {
            if key != (f, rows[k - 1].id) {
                assert(prev.contains_key(key));
            }
        }
    }
}

proof fn lemma_map_with_rows_keeps(m: Map<(i64, i64), usize>, f: i64, rows: Seq<IcfgBlockRow>, base: nat, k: nat, key: (i64, i64))
    requires
        m.contains_key(key),
    ensures
        map_with_rows(m, f, rows, base, k).contains_key(key),
    decreases k,
{
    if k > 0 {
        lemma_map_with_rows_keeps(m, f, rows, base, (k - 1) as nat, key);
    }
}

proof fn lemma_links_edges_grow(m: Map<(i64, i64), usize>, links: Seq<(i64, CallLink)>, inc: bool, j: nat, k: nat,
    e: (usize, usize, IcfgEdge))
    requires
        j < k <= links.len(),
        link_edges(m, links[j as int].0, links[j as int].1, inc).contains(e),
    ensures
        links_edges(m, links, inc, k).contains(e),
    decreases k,
{
    let prev = links_edges(m, links, inc, (k - 1) as nat);
    let here = link_edges(m, links[k - 1].0, links[k - 1].1, inc);
    assert(links_edges(m, links, inc, k) == prev + here);
    if j < k - 1 {
        lemma_links_edges_grow(m, links, inc, j, (k - 1) as nat, e);
        let q = choose|q: int| 0 <= q < prev.len() && prev[q] == e;
        assert((prev + here)[q] == e);
    } else {
        let q = choose|q: int| 0 <= q < here.len() && here[q] == e;
        assert((prev + here)[prev.len() + q] == e);
    }
}

proof fn lemma_return_block_edges_has(m: Map<(i64, i64), usize>, caller: i64, callee: i64, ids: Seq<i64>,
    resume: usize, i: int)
    requires
        0 <= i < ids.len(),
        m.contains_key((callee, ids[i])),
    ensures
        return_block_edges(m, caller, callee, ids, resume).contains(
            (m[(callee, ids[i])], resume, IcfgEdge::Return { from_function: callee, to_function: caller })),
    decreases ids.len(),
{
    let e = (m[(callee, ids[i])], resume, IcfgEdge::Return { from_function: callee, to_function: caller });
    let prev = return_block_edges(m, caller, callee, ids.drop_last(), resume);
    if i < ids.len() - 1 {
        lemma_return_block_edges_has(m, caller, callee, ids.drop_last(), resume, i);
        let q = choose|q: int| 0 <= q < prev.len() && prev[q] == e;
        assert(prev.push(e).len() > 0);
        if m.contains_key((callee, ids.last())) {
            assert(return_block_edges(m, caller, callee, ids, resume)[q] == e);
        }
    } else {
        let r = return_block_edges(m, caller, callee, ids, resume);
        assert(r == prev.push(e));
        assert(r[prev.len() as int] == e);
    }
}

/// A call known at its call site is stitched into the ICFG: when the
/// call-site block and the callee's entry have nodes, a call edge joins
/// them; with return edges, each callee return block with a node gets a
/// return edge to the caller's resume block when that has a node.
pub proof fn precise_link_is_stitched(m: Map<(i64, i64), usize>, links: Seq<(i64, CallLink)>, inc: bool, k: nat,
    j: nat, call_block: i64, resume_block: i64, i: int)
    requires
        j < k <= links.len(),
        links[j as int].1.caller_call_block_id == Some(call_block),
        m.contains_key((links[j as int].0, call_block)),
        m.contains_key((links[j as int].1.callee_id, -1i64)),
    ensures
        links_edges(m, links, inc, k).contains((m[(links[j as int].0, call_block)], m[(links[j as int].1.callee_id, -1i64)],
            IcfgEdge::Call { from_function: links[j as int].0, to_function: links[j as int].1.callee_id })),
        ({
            let l = links[j as int].1;
            let caller = links[j as int].0;
            (inc && l.caller_resume_block_id == Some(resume_block) && m.contains_key((caller, resume_block))
                && 0 <= i < l.callee_return_block_ids@.len() && m.contains_key((l.callee_id, l.callee_return_block_ids@[i])))
            ==> links_edges(m, links, inc, k).contains((m[(l.callee_id, l.callee_return_block_ids@[i])],
                m[(caller, resume_block)], IcfgEdge::Return { from_function: l.callee_id, to_function: caller }))
        }),
{
    let caller = links[j as int].0;
    let l = links[j as int].1;
    let le = link_edges(m, caller, l, inc);
    let call_e = (m[(caller, call_block)], m[(l.callee_id, -1i64)],
        IcfgEdge::Call { from_function: caller, to_function: l.callee_id });
    let call: Seq<(usize, usize, IcfgEdge)> = seq![call_e];
    let resume = match l.caller_resume_block_id {
        Some(b) => lookup(m, (caller, b)),
        None => None,
    };
    let ret: Seq<(usize, usize, IcfgEdge)> = if !inc {
        Seq::empty()
    } else if l.callee_return_block_ids@.len() > 0 && resume is Some {
        return_block_edges(m, caller, l.callee_id, l.callee_return_block_ids@, resume->0)
    } else {
        match (lookup(m, (l.callee_id, -2i64)), lookup(m, (caller, -2i64))) {
            (Some(a), Some(b)) => seq![(a, b, IcfgEdge::Return { from_function: l.callee_id, to_function: caller })],
            _ => Seq::empty(),
        }
    };
    assert(le == call + ret);
    assert(le[0] == call_e);
    lemma_links_edges_grow(m, links, inc, j, k, call_e);
    if inc && l.caller_resume_block_id == Some(resume_block) && m.contains_key((caller, resume_block))
        && 0 <= i < l.callee_return_block_ids@.len() && m.contains_key((l.callee_id, l.callee_return_block_ids@[i])) {
        let ret_e = (m[(l.callee_id, l.callee_return_block_ids@[i])], m[(caller, resume_block)],
            IcfgEdge::Return { from_function: l.callee_id, to_function: caller });
        lemma_return_block_edges_has(m, caller, l.callee_id, l.callee_return_block_ids@, m[(caller, resume_block)], i);
        let q = choose|q: int| 0 <= q < ret.len() && ret[q] == ret_e;
        assert(le[1 + q] == ret_e);
        lemma_links_edges_grow(m, links, inc, j, k, ret_e);
    }
}

} // verus!
