//! AST-based CFG construction, the fallback when no MIR is available.
//!
//! The syntax tree is held as an arena of plain nodes (a parser's tree is
//! flattened into it in pre-order, so children come after their parent).
//! Block boundaries are found with the leader-based algorithm:
//! - the first statement of the function body,
//! - the first statements of branch and loop bodies,
//! - the statement after a conditional, a loop or a jump.

use vstd::prelude::*;
use std::collections::{HashMap, HashSet};
use crate::cfg::{BasicBlock, BlockKind, Terminator};
use crate::cfg::edge::EdgeType;
use crate::cfg::graph::{Cfg, CfgEdge, cfg_blocks, cfg_edges, cfg_new, add_block, add_cfg_edge};
use crate::text::same_text;
use crate::cfg::dominators::contains_node;

verus! {

broadcast use vstd::std_specs::hash::group_hash_axioms;

/// One syntax node: its kind, its source text, its children (arena
/// indices, in order), the children some grammar fields name, and the node
/// that follows it among its parent's children.
#[derive(Debug, Clone)]
pub struct AstNode {
    pub kind: String,
    pub text: String,
    pub children: Vec<usize>,
    /// Field "consequence"
    pub consequence: Option<usize>,
    /// Field "then"
    pub then_branch: Option<usize>,
    /// Field "body"
    pub body: Option<usize>,
    /// Field "alternative"
    pub alternative: Option<usize>,
    /// Field "else"
    pub else_branch: Option<usize>,
    pub next_sibling: Option<usize>,
}

/// A syntax tree as an arena of nodes.
#[derive(Debug, Clone)]
pub struct AstTree {
    pub nodes: Vec<AstNode>,
}

/// `o` names a node after `i`.
pub open spec fn later_node(t: Seq<AstNode>, i: int, o: Option<usize>) -> bool {
    o matches Some(c) ==> i < c < t.len()
}

/// The arena is laid out in pre-order: every child and field child of a
/// node comes after it, and every sibling link stays inside the arena.
pub open spec fn wf_tree(t: Seq<AstNode>) -> bool {
    &&& forall|i: int, k: int| 0 <= i < t.len() && 0 <= k < t[i].children@.len() ==>
        i < #[trigger] t[i].children@[k] < t.len()
    &&& forall|i: int| 0 <= i < t.len() ==> later_node(t, i, #[trigger] t[i].consequence)
    &&& forall|i: int| 0 <= i < t.len() ==> later_node(t, i, #[trigger] t[i].then_branch)
    &&& forall|i: int| 0 <= i < t.len() ==> later_node(t, i, #[trigger] t[i].body)
    &&& forall|i: int| 0 <= i < t.len() ==> later_node(t, i, #[trigger] t[i].alternative)
    &&& forall|i: int| 0 <= i < t.len() ==> later_node(t, i, #[trigger] t[i].else_branch)
    &&& forall|i: int| 0 <= i < t.len() ==> (#[trigger] t[i].next_sibling matches Some(s) ==> s < t.len())
}

/// Kinds that are not statements: comments, separators, unnamed nodes.
pub open spec fn is_statement_kind(k: Seq<char>) -> bool {
    !(k == ""@ || k == "comment"@ || k == "line_comment"@ || k == "block_comment"@ || k == ";"@)
}

/// Conditional constructs, as the leader scan sees them.
pub open spec fn is_branch_kind(k: Seq<char>) -> bool {
    k == "if_statement"@ || k == "elif"@ || k == "else"@
}

/// Conditional constructs that get branch edges.
pub open spec fn is_if_kind(k: Seq<char>) -> bool {
    k == "if_statement"@ || k == "elif"@
}

/// Loop constructs.
pub open spec fn is_loop_kind(k: Seq<char>) -> bool {
    k == "while_statement"@ || k == "for_statement"@ || k == "loop_statement"@
}

/// Statements that leave the straight-line flow.
pub open spec fn is_jump_kind(k: Seq<char>) -> bool {
    k == "return_statement"@ || k == "break_statement"@ || k == "continue_statement"@
}

/// The first child of `n` at position `j` or later that is a statement.
pub open spec fn first_stmt_from(t: Seq<AstNode>, n: usize, j: int) -> Option<usize>
    decreases t[n as int].children@.len() - j,
{
    if j < 0 || j >= t[n as int].children@.len() {
        None
    } else {
        let c = t[n as int].children@[j];
        if is_statement_kind(t[c as int].kind@) { Some(c) } else { first_stmt_from(t, n, j + 1) }
    }
}

/// The first statement among the children of `n`.
pub open spec fn first_stmt(t: Seq<AstNode>, n: usize) -> Option<usize> {
    first_stmt_from(t, n, 0)
}

/// The first statement of an optional node.
pub open spec fn first_of(t: Seq<AstNode>, o: Option<usize>) -> Option<usize> {
    match o {
        Some(x) => first_stmt(t, x),
        None => None,
    }
}

/// The first child of `n` at position `j` or later whose kind is "block".
pub open spec fn block_child_from(t: Seq<AstNode>, n: usize, j: int) -> Option<usize>
    decreases t[n as int].children@.len() - j,
{
    if j < 0 || j >= t[n as int].children@.len() {
        None
    } else {
        let c = t[n as int].children@[j];
        if t[c as int].kind@ == "block"@ { Some(c) } else { block_child_from(t, n, j + 1) }
    }
}

/// The body of a function: its first "block" child, else the function itself.
pub open spec fn function_body(t: Seq<AstNode>, f: usize) -> usize {
    match block_child_from(t, f, 0) {
        Some(b) => b,
        None => f,
    }
}

/// The then-branch of a conditional: field "consequence", else "then",
/// else "body".
pub open spec fn consequence_of(t: Seq<AstNode>, n: usize) -> Option<usize> {
    let x = t[n as int];
    if x.consequence is Some { x.consequence } else if x.then_branch is Some { x.then_branch } else { x.body }
}

/// The else-branch of a conditional: field "alternative", else "else".
pub open spec fn alternate_of(t: Seq<AstNode>, n: usize) -> Option<usize> {
    let x = t[n as int];
    if x.alternative is Some { x.alternative } else { x.else_branch }
}

/// The set holding the node of an option.
pub open spec fn opt_set(o: Option<usize>) -> Set<usize> {
    match o {
        Some(x) => set![x],
        None => Set::empty(),
    }
}

/// The leaders the scan finds below the children `j..` of `n`: for a
/// conditional, the first statements of both branches and its next
/// sibling; for a loop, the first statement of its body and its next
/// sibling; for a jump, its next sibling; anything else is scanned in turn.
pub open spec fn scan_from(t: Seq<AstNode>, n: usize, j: int) -> Set<usize>
    decreases t.len() - n, t[n as int].children@.len() - j,
{
    if n >= t.len() || j < 0 || j >= t[n as int].children@.len() {
        Set::empty()
    } else {
        let c = t[n as int].children@[j];
        let k = t[c as int].kind@;
        let here = if is_branch_kind(k) {
            opt_set(first_of(t, consequence_of(t, c))).union(opt_set(first_of(t, alternate_of(t, c))))
                .union(opt_set(t[c as int].next_sibling))
        } else if is_loop_kind(k) {
            opt_set(first_of(t, t[c as int].body)).union(opt_set(t[c as int].next_sibling))
        } else if is_jump_kind(k) {
            opt_set(t[c as int].next_sibling)
        } else if n < c && c < t.len() {
            scan_from(t, c, 0)
        } else {
            Set::empty()
        };
        here.union(scan_from(t, n, j + 1))
    }
}

/// The leaders of a function: the first statement of its body and what
/// the scan of the body finds.
pub open spec fn leaders_of(t: Seq<AstNode>, f: usize) -> Set<usize> {
    let body = function_body(t, f);
    opt_set(first_stmt(t, body)).union(scan_from(t, body, 0))
}

/// The blocks closed so far, the block being filled, and the block of
/// each statement, after the first `j` children of the body `b`: a
/// statement that is a leader closes a non-empty current block first.
pub open spec fn partition(t: Seq<AstNode>, b: usize, leaders: Set<usize>, j: int)
    -> (Seq<Seq<usize>>, Seq<usize>, Map<usize, usize>)
    decreases j,
{
    if j <= 0 {
        (Seq::empty(), Seq::empty(), Map::empty())
    } else {
        let (done, cur, ntb) = partition(t, b, leaders, j - 1);
        let c = t[b as int].children@[j - 1];
        if !is_statement_kind(t[c as int].kind@) {
            (done, cur, ntb)
        } else if leaders.contains(c) && cur.len() > 0 {
            (done.push(cur), seq![c], ntb.insert(c, (done.len() + 1) as usize))
        } else {
            (done, cur.push(c), ntb.insert(c, done.len() as usize))
        }
    }
}

/// The basic blocks of a function (statement nodes of each, in order) and
/// the block of each statement.
pub open spec fn blocks_of(t: Seq<AstNode>, f: usize) -> (Seq<Seq<usize>>, Map<usize, usize>) {
    let body = function_body(t, f);
    let (done, cur, ntb) = partition(t, body, leaders_of(t, f), t[body as int].children@.len() as int);
    (if cur.len() > 0 { done.push(cur) } else { done }, ntb)
}

/// The first block (in order) whose statements include `node`; 0 when none.
pub open spec fn containing_from(blocks: Seq<Seq<usize>>, node: usize, i: int) -> usize
    decreases blocks.len() - i,
{
    if i < 0 || i >= blocks.len() {
        0
    } else if blocks[i].contains(node) {
        i as usize
    } else {
        containing_from(blocks, node, i + 1)
    }
}

/// The block of the first statement of an optional node, if it has one.
pub open spec fn block_for(t: Seq<AstNode>, ntb: Map<usize, usize>, o: Option<usize>) -> Option<usize> {
    match first_of(t, o) {
        Some(s) => if ntb.contains_key(s) { Some(ntb[s]) } else { None },
        None => None,
    }
}

/// Whether an optional block is one of the `nb` blocks.
pub open spec fn is_block(nb: nat, o: Option<usize>) -> bool {
    o matches Some(x) && x < nb
}

/// An edge between two optional blocks when both are blocks.
pub open spec fn edge_between(nb: nat, a: Option<usize>, b: Option<usize>, k: EdgeType) -> Seq<CfgEdge> {
    if is_block(nb, a) && is_block(nb, b) { seq![(a.unwrap(), b.unwrap(), k)] } else { Seq::empty() }
}

/// The edges of a conditional `c`: condition to then-branch and then-branch
/// to the block after it, then condition to else-branch and else-branch to
/// the block after it, each when the blocks exist.
pub open spec fn if_edges(t: Seq<AstNode>, blocks: Seq<Seq<usize>>, ntb: Map<usize, usize>, c: usize) -> Seq<CfgEdge> {
    let nb = blocks.len();
    let cond = Some(containing_from(blocks, c, 0));
    let then_b = block_for(t, ntb, consequence_of(t, c));
    let else_b = block_for(t, ntb, alternate_of(t, c));
    let after = block_for(t, ntb, t[c as int].next_sibling);
    let e1 = if is_block(nb, cond) && is_block(nb, then_b) {
        edge_between(nb, cond, then_b, EdgeType::TrueBranch) + edge_between(nb, then_b, after, EdgeType::Fallthrough)
    } else {
        Seq::empty()
    };
    let e2 = if is_block(nb, cond) && is_block(nb, else_b) {
        edge_between(nb, cond, else_b, EdgeType::FalseBranch) + edge_between(nb, else_b, after, EdgeType::Fallthrough)
    } else {
        Seq::empty()
    };
    e1 + e2
}

/// The branches of conditional `c` that have no block after them: they
/// become exit blocks.
pub open spec fn if_exits(t: Seq<AstNode>, blocks: Seq<Seq<usize>>, ntb: Map<usize, usize>, c: usize) -> Set<usize> {
    let nb = blocks.len();
    let cond = Some(containing_from(blocks, c, 0));
    let then_b = block_for(t, ntb, consequence_of(t, c));
    let else_b = block_for(t, ntb, alternate_of(t, c));
    let after = block_for(t, ntb, t[c as int].next_sibling);
    let s1 = if is_block(nb, cond) && is_block(nb, then_b) && !is_block(nb, after) { opt_set(then_b) } else { Set::empty() };
    let s2 = if is_block(nb, cond) && is_block(nb, else_b) && !is_block(nb, after) { opt_set(else_b) } else { Set::empty() };
    s1.union(s2)
}

/// The edges of a loop `c`: header to body and back, then header to the
/// block after the loop, each when the blocks exist.
pub open spec fn loop_edges(t: Seq<AstNode>, blocks: Seq<Seq<usize>>, ntb: Map<usize, usize>, c: usize) -> Seq<CfgEdge> {
    let nb = blocks.len();
    let header = Some(containing_from(blocks, c, 0));
    let body_b = block_for(t, ntb, t[c as int].body);
    let after = block_for(t, ntb, t[c as int].next_sibling);
    edge_between(nb, header, body_b, EdgeType::TrueBranch) + edge_between(nb, body_b, header, EdgeType::LoopBack)
        + edge_between(nb, header, after, EdgeType::LoopExit)
}

/// The edges added for the body's children `0..j`, in order.
pub open spec fn edges_upto(t: Seq<AstNode>, body: usize, blocks: Seq<Seq<usize>>, ntb: Map<usize, usize>, j: int)
    -> Seq<CfgEdge>
    decreases j,
{
    if j <= 0 {
        Seq::empty()
    } else {
        let c = t[body as int].children@[j - 1];
        let k = t[c as int].kind@;
        let here = if !is_statement_kind(k) {
            Seq::empty()
        } else if is_if_kind(k) {
            if_edges(t, blocks, ntb, c)
        } else if is_loop_kind(k) {
            loop_edges(t, blocks, ntb, c)
        } else {
            Seq::empty()
        };
        edges_upto(t, body, blocks, ntb, j - 1) + here
    }
}

/// The blocks marked as exits by the body's children `0..j`.
pub open spec fn exits_upto(t: Seq<AstNode>, body: usize, blocks: Seq<Seq<usize>>, ntb: Map<usize, usize>, j: int)
    -> Set<usize>
    decreases j,
{
    if j <= 0 {
        Set::empty()
    } else {
        let c = t[body as int].children@[j - 1];
        let k = t[c as int].kind@;
        let here = if is_statement_kind(k) && is_if_kind(k) { if_exits(t, blocks, ntb, c) } else { Set::empty() };
        exits_upto(t, body, blocks, ntb, j - 1).union(here)
    }
}

/// The edges of a function's CFG.
pub open spec fn ast_edges(t: Seq<AstNode>, f: usize) -> Seq<CfgEdge> {
    let body = function_body(t, f);
    let (blocks, ntb) = blocks_of(t, f);
    edges_upto(t, body, blocks, ntb, t[body as int].children@.len() as int)
}

/// The blocks of a function's CFG that end as exits through a branch.
pub open spec fn ast_exits(t: Seq<AstNode>, f: usize) -> Set<usize> {
    let body = function_body(t, f);
    let (blocks, ntb) = blocks_of(t, f);
    exits_upto(t, body, blocks, ntb, t[body as int].children@.len() as int)
}

/// The kind of a block from its statements: an exit when it ends with a
/// jump, normal otherwise.
pub open spec fn classify_kind(t: Seq<AstNode>, stmts: Seq<usize>) -> BlockKind {
    if stmts.len() > 0 && is_jump_kind(t[stmts.last() as int].kind@) { BlockKind::Exit } else { BlockKind::Normal }
}

/// `term` is the terminator of a block from its last statement: return for
/// an empty block and for jumps, a switch without targets for conditionals
/// and loops, a goto otherwise.
pub open spec fn terminator_fits(t: Seq<AstNode>, stmts: Seq<usize>, term: Terminator) -> bool {
    if stmts.len() == 0 {
        term == Terminator::Return
    } else {
        let k = t[stmts.last() as int].kind@;
        if k == "return_statement"@ || k == "break_statement"@ || k == "continue_statement"@ {
            term == Terminator::Return
        } else if k == "if_statement"@ || is_loop_kind(k) {
            term matches Terminator::SwitchInt { targets, otherwise } && targets@.len() == 0 && otherwise == 0
        } else {
            term == Terminator::Goto { target: 0 }
        }
    }
}

/// `bb` is block `b` of a function whose statements are `stmts`: block 0
/// is the entry unless a branch made it an exit.
pub open spec fn is_ast_block(t: Seq<AstNode>, bb: BasicBlock, b: usize, stmts: Seq<usize>, exits: Set<usize>) -> bool {
    &&& bb.id == b
    &&& bb.db_id is None
    &&& bb.kind == (if exits.contains(b) { BlockKind::Exit } else if b == 0 { BlockKind::Entry } else { classify_kind(t, stmts) })
    &&& bb.statements@ == stmts.map_values(|s: usize| t[s as int].text)
    &&& terminator_fits(t, stmts, bb.terminator)
    &&& bb.source_location is None
    &&& bb.coord_x == 0 && bb.coord_y == 0 && bb.coord_z == 0
}

fn is_statement(k: &str) -> (r: bool)
    ensures
        r == is_statement_kind(k@),
{
    !(same_text(k, "") || same_text(k, "comment") || same_text(k, "line_comment") || same_text(k, "block_comment")
        || same_text(k, ";"))
}

fn is_branch(k: &str) -> (r: bool)
    ensures
        r == is_branch_kind(k@),
{
    same_text(k, "if_statement") || same_text(k, "elif") || same_text(k, "else")
}

fn is_if(k: &str) -> (r: bool)
    ensures
        r == is_if_kind(k@),
{
    same_text(k, "if_statement") || same_text(k, "elif")
}

fn is_loop(k: &str) -> (r: bool)
    ensures
        r == is_loop_kind(k@),
{
    same_text(k, "while_statement") || same_text(k, "for_statement") || same_text(k, "loop_statement")
}

fn is_jump(k: &str) -> (r: bool)
    ensures
        r == is_jump_kind(k@),
{
    same_text(k, "return_statement") || same_text(k, "break_statement") || same_text(k, "continue_statement")
}

/// The first statement among the children of node `n`.
pub fn first_statement(tree: &AstTree, n: usize) -> (r: Option<usize>)
    requires
        wf_tree(tree.nodes@),
        n < tree.nodes@.len(),
    ensures
        r == first_stmt(tree.nodes@, n),
        r matches Some(c) ==> n < c < tree.nodes@.len(),
{
    let ghost t = tree.nodes@;
    let node = &tree.nodes[n];
    let mut j: usize = 0;
    while j < node.children.len()
        invariant
            t == tree.nodes@,
            wf_tree(t),
            n < t.len(),
            *node == t[n as int],
            j <= node.children@.len(),
            first_stmt_from(t, n, 0) == first_stmt_from(t, n, j as int),
        decreases node.children.len() - j,
    {
        let c = node.children[j];
        assert(c == t[n as int].children@[j as int]);
        if is_statement(tree.nodes[c].kind.as_str()) {
            return Some(c);
        }
        j = j + 1;
    }
    None
}

/// The body of function node `f`: its first "block" child, else `f`.
pub fn function_body_of(tree: &AstTree, f: usize) -> (r: usize)
    requires
        wf_tree(tree.nodes@),
        f < tree.nodes@.len(),
    ensures
        r == function_body(tree.nodes@, f),
        f <= r < tree.nodes@.len(),
{
    let ghost t = tree.nodes@;
    let node = &tree.nodes[f];
    let mut j: usize = 0;
    while j < node.children.len()
        invariant
            t == tree.nodes@,
            wf_tree(t),
            f < t.len(),
            *node == t[f as int],
            j <= node.children@.len(),
            block_child_from(t, f, 0) == block_child_from(t, f, j as int),
        decreases node.children.len() - j,
    {
        let c = node.children[j];
        assert(c == t[f as int].children@[j as int]);
        if same_text(tree.nodes[c].kind.as_str(), "block") {
            return c;
        }
        j = j + 1;
    }
    f
}

fn insert_opt(leaders: &mut HashSet<usize>, o: Option<usize>)
    ensures
        final(leaders)@ == old(leaders)@.union(opt_set(o)),
{
    match o {
        Some(x) => {
            leaders.insert(x);
            proof {
                assert(final(leaders)@ =~= old(leaders)@.union(opt_set(o)));
            }
        },
        None => {
            proof {
                assert(old(leaders)@.union(opt_set(o)) =~= old(leaders)@);
            }
        },
    }
}

fn first_of_opt(tree: &AstTree, o: Option<usize>) -> (r: Option<usize>)
    requires
        wf_tree(tree.nodes@),
        o matches Some(x) ==> x < tree.nodes@.len(),
    ensures
        r == first_of(tree.nodes@, o),
        r matches Some(c) ==> c < tree.nodes@.len(),
{
    match o {
        Some(x) => first_statement(tree, x),
        None => None,
    }
}

fn consequence_node(tree: &AstTree, n: usize) -> (r: Option<usize>)
    requires
        wf_tree(tree.nodes@),
        n < tree.nodes@.len(),
    ensures
        r == consequence_of(tree.nodes@, n),
        r matches Some(c) ==> c < tree.nodes@.len(),
{
    let x = &tree.nodes[n];
    if x.consequence.is_some() { x.consequence } else if x.then_branch.is_some() { x.then_branch } else { x.body }
}

fn alternate_node(tree: &AstTree, n: usize) -> (r: Option<usize>)
    requires
        wf_tree(tree.nodes@),
        n < tree.nodes@.len(),
    ensures
        r == alternate_of(tree.nodes@, n),
        r matches Some(c) ==> c < tree.nodes@.len(),
{
    let x = &tree.nodes[n];
    if x.alternative.is_some() { x.alternative } else { x.else_branch }
}

/// Add the leaders the scan finds below node `n` (see `scan_from`).
fn scan_for_leaders(leaders: &mut HashSet<usize>, tree: &AstTree, n: usize)
    requires
        wf_tree(tree.nodes@),
        n < tree.nodes@.len(),
    ensures
        final(leaders)@ == old(leaders)@.union(scan_from(tree.nodes@, n, 0)),
    decreases tree.nodes@.len() - n,
{
    let ghost t = tree.nodes@;
    let ghost start = leaders@;
    let count = tree.nodes[n].children.len();
    let mut j: usize = 0;
    while j < count
        invariant
            t == tree.nodes@,
            wf_tree(t),
            n < t.len(),
            count == t[n as int].children@.len(),
            j <= count,
            leaders@.union(scan_from(t, n, j as int)) == start.union(scan_from(t, n, 0)),
        decreases count - j,
    {
        let c = tree.nodes[n].children[j];
        assert(c == t[n as int].children@[j as int]);
        let ghost before = leaders@;
        let k = tree.nodes[c].kind.as_str();
        if is_branch(k) {
            let cons = consequence_node(tree, c);
            let f1 = first_of_opt(tree, cons);
            insert_opt(leaders, f1);
            let alt = alternate_node(tree, c);
            let f2 = first_of_opt(tree, alt);
            insert_opt(leaders, f2);
            insert_opt(leaders, tree.nodes[c].next_sibling);
        } else if is_loop(k) {
            let f1 = first_of_opt(tree, tree.nodes[c].body);
            insert_opt(leaders, f1);
            insert_opt(leaders, tree.nodes[c].next_sibling);
        } else if is_jump(k) {
            insert_opt(leaders, tree.nodes[c].next_sibling);
        } else {
            scan_for_leaders(leaders, tree, c);
        }
        proof {
            let kk = t[c as int].kind@;
            let here = if is_branch_kind(kk) {
                opt_set(first_of(t, consequence_of(t, c))).union(opt_set(first_of(t, alternate_of(t, c))))
                    .union(opt_set(t[c as int].next_sibling))
            } else if is_loop_kind(kk) {
                opt_set(first_of(t, t[c as int].body)).union(opt_set(t[c as int].next_sibling))
            } else if is_jump_kind(kk) {
                opt_set(t[c as int].next_sibling)
            } else {
                scan_from(t, c, 0)
            };
            assert(leaders@ =~= before.union(here));
            assert(scan_from(t, n, j as int) == here.union(scan_from(t, n, j + 1)));
            assert(leaders@.union(scan_from(t, n, j + 1)) =~= before.union(scan_from(t, n, j as int)));
        }
        j = j + 1;
    }
    proof {
        assert(scan_from(t, n, count as int) == Set::<usize>::empty());
        assert(leaders@.union(Set::<usize>::empty()) =~= leaders@);
    }
}

/// The leaders of function node `f` (see `leaders_of`).
pub fn find_leaders(tree: &AstTree, f: usize) -> (r: HashSet<usize>)
    requires
        wf_tree(tree.nodes@),
        f < tree.nodes@.len(),
    ensures
        r@ == leaders_of(tree.nodes@, f),
{
    let body = function_body_of(tree, f);
    let mut leaders: HashSet<usize> = HashSet::new();
    let first = first_statement(tree, body);
    insert_opt(&mut leaders, first);
    scan_for_leaders(&mut leaders, tree, body);
    proof {
        assert(leaders@ =~= leaders_of(tree.nodes@, f));
    }
    leaders
}

/// The contents of a list of vectors.
pub open spec fn vec_views(v: Seq<Vec<usize>>) -> Seq<Seq<usize>> {
    v.map_values(|x: Vec<usize>| x@)
}

/// Split the statements among the children of body node `body` into basic
/// blocks at the leaders (see `partition`), recording each statement's block.
fn build_blocks(tree: &AstTree, f: usize, body: usize, leaders: &HashSet<usize>)
    -> (r: (Vec<Vec<usize>>, HashMap<usize, usize>))
    requires
        wf_tree(tree.nodes@),
        f < tree.nodes@.len(),
        body == function_body(tree.nodes@, f),
        body < tree.nodes@.len(),
        leaders@ == leaders_of(tree.nodes@, f),
    ensures
        vec_views(r.0@) == blocks_of(tree.nodes@, f).0,
        r.1@ == blocks_of(tree.nodes@, f).1,
        r.0@.len() <= tree.nodes@[body as int].children@.len(),
        forall|i: int, k: int| 0 <= i < r.0@.len() && 0 <= k < r.0@[i]@.len() ==> #[trigger] r.0@[i]@[k] < tree.nodes@.len(),
{
    let ghost t = tree.nodes@;
    let ghost lead = leaders@;
    let count = tree.nodes[body].children.len();
    let mut done: Vec<Vec<usize>> = Vec::new();
    let mut cur: Vec<usize> = Vec::new();
    let mut ntb: HashMap<usize, usize> = HashMap::new();
    let mut j: usize = 0;
    while j < count
        invariant
            t == tree.nodes@,
            wf_tree(t),
            body < t.len(),
            lead == leaders@,
            count == t[body as int].children@.len(),
            j <= count,
            done@.len() + (if cur@.len() > 0 { 1int } else { 0int }) <= j,
            (vec_views(done@), cur@, ntb@) == partition(t, body, lead, j as int),
            forall|i: int, k: int| 0 <= i < done@.len() && 0 <= k < done@[i]@.len() ==> #[trigger] done@[i]@[k] < t.len(),
            forall|k: int| 0 <= k < cur@.len() ==> #[trigger] cur@[k] < t.len(),
        decreases count - j,
    {
        let c = tree.nodes[body].children[j];
        assert(c == t[body as int].children@[j as int]);
        let ghost before = partition(t, body, lead, j as int);
        if is_statement(tree.nodes[c].kind.as_str()) {
            if leaders.contains(&c) && cur.len() > 0 {
                let mut fresh: Vec<usize> = Vec::new();
                fresh.push(c);
                std::mem::swap(&mut cur, &mut fresh);
                done.push(fresh);
                ntb.insert(c, done.len());
                proof {
                    assert(vec_views(done@) =~= before.0.push(before.1));
                    assert(cur@ =~= seq![c]);
                }
            } else {
                cur.push(c);
                ntb.insert(c, done.len());
                proof {
                    assert(vec_views(done@) =~= before.0);
                }
            }
        }
        j = j + 1;
    }
    if cur.len() > 0 {
        let ghost before = vec_views(done@);
        done.push(cur);
        proof {
            assert(vec_views(done@) =~= before.push(partition(t, body, lead, count as int).1));
        }
    }
    (done, ntb)
}

/// The first block (in order) whose statements include `node`; 0 when none.
fn find_containing(blocks: &Vec<Vec<usize>>, node: usize) -> (r: usize)
    ensures
        r == containing_from(vec_views(blocks@), node, 0),
{
    let ghost bv = vec_views(blocks@);
    let mut i: usize = 0;
    while i < blocks.len()
        invariant
            bv == vec_views(blocks@),
            i <= blocks.len(),
            containing_from(bv, node, 0) == containing_from(bv, node, i as int),
        decreases blocks.len() - i,
    {
        assert(bv[i as int] == blocks@[i as int]@);
        if contains_node(&blocks[i], node) {
            return i;
        }
        i = i + 1;
    }
    0
}

/// The block of the first statement of an optional node.
fn block_for_node(tree: &AstTree, ntb: &HashMap<usize, usize>, o: Option<usize>) -> (r: Option<usize>)
    requires
        wf_tree(tree.nodes@),
        o matches Some(x) ==> x < tree.nodes@.len(),
    ensures
        r == block_for(tree.nodes@, ntb@, o),
{
    match first_of_opt(tree, o) {
        Some(s) => match ntb.get(&s) {
            Some(b) => Some(*b),
            None => None,
        },
        None => None,
    }
}

fn is_block_exec(nb: usize, o: Option<usize>) -> (r: bool)
    ensures
        r == is_block(nb as nat, o),
{
    match o {
        Some(x) => x < nb,
        None => false,
    }
}

fn push_edge_between(edges: &mut Vec<CfgEdge>, nb: usize, a: Option<usize>, b: Option<usize>, k: EdgeType)
    ensures
        final(edges)@ == old(edges)@ + edge_between(nb as nat, a, b, k),
{
    if is_block_exec(nb, a) && is_block_exec(nb, b) {
        edges.push((a.unwrap(), b.unwrap(), k));
        proof {
            assert(final(edges)@ =~= old(edges)@ + edge_between(nb as nat, a, b, k));
        }
    } else {
        proof {
            assert(old(edges)@ + edge_between(nb as nat, a, b, k) =~= old(edges)@);
        }
    }
}

fn mark_exit(marked: &mut Vec<bool>, o: Option<usize>)
    ensures
        final(marked)@.len() == old(marked)@.len(),
        forall|b: int| 0 <= b < old(marked)@.len() ==>
            (#[trigger] final(marked)@[b] <==> (old(marked)@[b] || (o == Some(b as usize)))),
{
    match o {
        Some(x) => {
            if x < marked.len() {
                marked.set(x, true);
            }
        },
        None => {},
    }
}

/// Append the edges of conditional `c` and mark its branches without a
/// following block as exits (see `if_edges`, `if_exits`).
fn add_if_edges(tree: &AstTree, blocks: &Vec<Vec<usize>>, ntb: &HashMap<usize, usize>, c: usize,
    edges: &mut Vec<CfgEdge>, marked: &mut Vec<bool>)
    requires
        wf_tree(tree.nodes@),
        c < tree.nodes@.len(),
        old(marked)@.len() == blocks@.len(),
    ensures
        final(edges)@ == old(edges)@ + if_edges(tree.nodes@, vec_views(blocks@), ntb@, c),
        final(marked)@.len() == old(marked)@.len(),
        forall|b: int| 0 <= b < old(marked)@.len() ==> (#[trigger] final(marked)@[b] <==>
            (old(marked)@[b] || if_exits(tree.nodes@, vec_views(blocks@), ntb@, c).contains(b as usize))),
{
    let ghost t = tree.nodes@;
    let ghost bv = vec_views(blocks@);
    let nb = blocks.len();
    let cond = Some(find_containing(blocks, c));
    let cons = consequence_node(tree, c);
    let then_b = block_for_node(tree, ntb, cons);
    let alt = alternate_node(tree, c);
    let else_b = block_for_node(tree, ntb, alt);
    let after = block_for_node(tree, ntb, tree.nodes[c].next_sibling);
    let ghost e0 = edges@;
    let ghost m0 = marked@;
    if is_block_exec(nb, cond) && is_block_exec(nb, then_b) {
        push_edge_between(edges, nb, cond, then_b, EdgeType::TrueBranch);
        push_edge_between(edges, nb, then_b, after, EdgeType::Fallthrough);
        if !is_block_exec(nb, after) {
            mark_exit(marked, then_b);
        }
    }
    let ghost e1 = edges@;
    let ghost m1 = marked@;
    if is_block_exec(nb, cond) && is_block_exec(nb, else_b) {
        push_edge_between(edges, nb, cond, else_b, EdgeType::FalseBranch);
        push_edge_between(edges, nb, else_b, after, EdgeType::Fallthrough);
        if !is_block_exec(nb, after) {
            mark_exit(marked, else_b);
        }
    }
    proof {
        assert(bv.len() == nb);
        assert(edges@ =~= e0 + if_edges(t, bv, ntb@, c));
        assert forall|b: int| 0 <= b < m0.len() implies (#[trigger] marked@[b] <==>
            (m0[b] || if_exits(t, bv, ntb@, c).contains(b as usize))) by {
            assert(marked@[b] == (m1[b] || (is_block(nb as nat, cond) && is_block(nb as nat, else_b) && !is_block(nb as nat, after) && else_b == Some(b as usize))));
            assert(m1[b] == (m0[b] || (is_block(nb as nat, cond) && is_block(nb as nat, then_b) && !is_block(nb as nat, after) && then_b == Some(b as usize))));
        }
    }
}

/// Append the edges of loop `c` (see `loop_edges`).
fn add_loop_edges(tree: &AstTree, blocks: &Vec<Vec<usize>>, ntb: &HashMap<usize, usize>, c: usize,
    edges: &mut Vec<CfgEdge>)
    requires
        wf_tree(tree.nodes@),
        c < tree.nodes@.len(),
    ensures
        final(edges)@ == old(edges)@ + loop_edges(tree.nodes@, vec_views(blocks@), ntb@, c),
{
    let nb = blocks.len();
    let header = Some(find_containing(blocks, c));
    let body_b = block_for_node(tree, ntb, tree.nodes[c].body);
    let after = block_for_node(tree, ntb, tree.nodes[c].next_sibling);
    let ghost e0 = edges@;
    push_edge_between(edges, nb, header, body_b, EdgeType::TrueBranch);
    push_edge_between(edges, nb, body_b, header, EdgeType::LoopBack);
    push_edge_between(edges, nb, header, after, EdgeType::LoopExit);
    proof {
        assert(edges@ =~= e0 + loop_edges(tree.nodes@, vec_views(blocks@), ntb@, c));
    }
}

proof fn lemma_edge_between_bounds(nb: nat, a: Option<usize>, b: Option<usize>, k: EdgeType)
    ensures
        edge_between(nb, a, b, k).len() <= 1,
        forall|q: int| 0 <= q < edge_between(nb, a, b, k).len() ==>
            (#[trigger] edge_between(nb, a, b, k)[q]).0 < nb && edge_between(nb, a, b, k)[q].1 < nb,
{
}

/// Every edge joins two blocks, and each child adds at most four edges.
proof fn lemma_edges_upto_bounds(t: Seq<AstNode>, body: usize, bv: Seq<Seq<usize>>, ntb: Map<usize, usize>, j: int)
    requires
        j >= 0,
    ensures
        edges_upto(t, body, bv, ntb, j).len() <= 4 * j,
        forall|q: int| 0 <= q < edges_upto(t, body, bv, ntb, j).len() ==>
            (#[trigger] edges_upto(t, body, bv, ntb, j)[q]).0 < bv.len() && edges_upto(t, body, bv, ntb, j)[q].1 < bv.len(),
    decreases j,
{
    if j > 0 {
        lemma_edges_upto_bounds(t, body, bv, ntb, j - 1);
        let c = t[body as int].children@[j - 1];
        let nb = bv.len();
        let cond = Some(containing_from(bv, c, 0));
        let then_b = block_for(t, ntb, consequence_of(t, c));
        let else_b = block_for(t, ntb, alternate_of(t, c));
        let after = block_for(t, ntb, t[c as int].next_sibling);
        let body_b = block_for(t, ntb, t[c as int].body);
        lemma_edge_between_bounds(nb, cond, then_b, EdgeType::TrueBranch);
        lemma_edge_between_bounds(nb, then_b, after, EdgeType::Fallthrough);
        lemma_edge_between_bounds(nb, cond, else_b, EdgeType::FalseBranch);
        lemma_edge_between_bounds(nb, else_b, after, EdgeType::Fallthrough);
        lemma_edge_between_bounds(nb, cond, body_b, EdgeType::TrueBranch);
        lemma_edge_between_bounds(nb, body_b, cond, EdgeType::LoopBack);
        lemma_edge_between_bounds(nb, cond, after, EdgeType::LoopExit);
        let prev = edges_upto(t, body, bv, ntb, j - 1);
        let k = t[c as int].kind@;
        let here = if !is_statement_kind(k) {
            Seq::<CfgEdge>::empty()
        } else if is_if_kind(k) {
            if_edges(t, bv, ntb, c)
        } else if is_loop_kind(k) {
            loop_edges(t, bv, ntb, c)
        } else {
            Seq::<CfgEdge>::empty()
        };
        assert(here.len() <= 4);
        assert forall|q: int| 0 <= q < here.len() implies (#[trigger] here[q]).0 < nb && here[q].1 < nb by {
            if is_statement_kind(k) && is_if_kind(k) {
                let a1 = if is_block(nb, cond) && is_block(nb, then_b) {
                    edge_between(nb, cond, then_b, EdgeType::TrueBranch) + edge_between(nb, then_b, after, EdgeType::Fallthrough)
                } else { Seq::<CfgEdge>::empty() };
                let a2 = if is_block(nb, cond) && is_block(nb, else_b) {
                    edge_between(nb, cond, else_b, EdgeType::FalseBranch) + edge_between(nb, else_b, after, EdgeType::Fallthrough)
                } else { Seq::<CfgEdge>::empty() };
                assert(here == a1 + a2);
                if q < a1.len() {
                    assert(here[q] == a1[q]);
                } else {
                    assert(here[q] == a2[q - a1.len()]);
                }
            } else if is_statement_kind(k) && is_loop_kind(k) {
                let l1 = edge_between(nb, cond, body_b, EdgeType::TrueBranch);
                let l2 = edge_between(nb, body_b, cond, EdgeType::LoopBack);
                let l3 = edge_between(nb, cond, after, EdgeType::LoopExit);
                assert(here == l1 + l2 + l3);
                if q < l1.len() {
                    assert(here[q] == l1[q]);
                } else if q < l1.len() + l2.len() {
                    assert(here[q] == l2[q - l1.len()]);
                } else {
                    assert(here[q] == l3[q - l1.len() - l2.len()]);
                }
            }
        }
        assert(edges_upto(t, body, bv, ntb, j) == prev + here);
        assert forall|q: int| 0 <= q < edges_upto(t, body, bv, ntb, j).len() implies
            (#[trigger] edges_upto(t, body, bv, ntb, j)[q]).0 < nb && edges_upto(t, body, bv, ntb, j)[q].1 < nb by {
            if q < prev.len() {
                assert(edges_upto(t, body, bv, ntb, j)[q] == prev[q]);
            } else {
                assert(edges_upto(t, body, bv, ntb, j)[q] == here[q - prev.len()]);
            }
        }
    }
}

/// The edges of the body's children in order, and which blocks the
/// conditionals mark as exits.
fn collect_edges(tree: &AstTree, body: usize, blocks: &Vec<Vec<usize>>, ntb: &HashMap<usize, usize>)
    -> (r: (Vec<CfgEdge>, Vec<bool>))
    requires
        wf_tree(tree.nodes@),
        body < tree.nodes@.len(),
    ensures
        r.0@ == edges_upto(tree.nodes@, body, vec_views(blocks@), ntb@, tree.nodes@[body as int].children@.len() as int),
        r.1@.len() == blocks@.len(),
        forall|b: int| 0 <= b < blocks@.len() ==> (#[trigger] r.1@[b] <==> exits_upto(tree.nodes@, body,
            vec_views(blocks@), ntb@, tree.nodes@[body as int].children@.len() as int).contains(b as usize)),
{
    let ghost t = tree.nodes@;
    let ghost bv = vec_views(blocks@);
    let mut marked: Vec<bool> = Vec::new();
    let mut b: usize = 0;
    while b < blocks.len()
        invariant
            b <= blocks.len(),
            marked@.len() == b,
            forall|q: int| 0 <= q < b ==> !marked@[q],
        decreases blocks.len() - b,
    {
        marked.push(false);
        b = b + 1;
    }
    let mut edges: Vec<CfgEdge> = Vec::new();
    let count = tree.nodes[body].children.len();
    let mut j: usize = 0;
    while j < count
        invariant
            t == tree.nodes@,
            bv == vec_views(blocks@),
            wf_tree(t),
            body < t.len(),
            count == t[body as int].children@.len(),
            j <= count,
            edges@ == edges_upto(t, body, bv, ntb@, j as int),
            marked@.len() == blocks@.len(),
            forall|q: int| 0 <= q < blocks@.len() ==> (#[trigger] marked@[q] <==>
                exits_upto(t, body, bv, ntb@, j as int).contains(q as usize)),
        decreases count - j,
    {
        let c = tree.nodes[body].children[j];
        assert(c == t[body as int].children@[j as int]);
        let k = tree.nodes[c].kind.as_str();
        let ghost m0 = marked@;
        if is_statement(k) && is_if(k) {
            add_if_edges(tree, blocks, ntb, c, &mut edges, &mut marked);
        } else if is_statement(k) && is_loop(k) {
            add_loop_edges(tree, blocks, ntb, c, &mut edges);
        }
        proof {
            let kk = t[c as int].kind@;
            let here = if !is_statement_kind(kk) {
                Seq::<CfgEdge>::empty()
            } else if is_if_kind(kk) {
                if_edges(t, bv, ntb@, c)
            } else if is_loop_kind(kk) {
                loop_edges(t, bv, ntb@, c)
            } else {
                Seq::<CfgEdge>::empty()
            };
            assert(edges_upto(t, body, bv, ntb@, j + 1) == edges_upto(t, body, bv, ntb@, j as int) + here);
            assert(edges@ =~= edges_upto(t, body, bv, ntb@, j + 1));
            assert forall|q: int| 0 <= q < blocks@.len() implies (#[trigger] marked@[q] <==>
                exits_upto(t, body, bv, ntb@, j + 1).contains(q as usize)) by {
                assert(m0[q] == exits_upto(t, body, bv, ntb@, j as int).contains(q as usize));
            }
        }
        j = j + 1;
    }
    (edges, marked)
}

/// The kind of a block from its statements (see `classify_kind`).
fn classify_statements(tree: &AstTree, stmts: &[usize]) -> (r: BlockKind)
    requires
        forall|k: int| 0 <= k < stmts@.len() ==> #[trigger] stmts@[k] < tree.nodes@.len(),
    ensures
        r == classify_kind(tree.nodes@, stmts@),
{
    if stmts.len() > 0 && is_jump(tree.nodes[stmts[stmts.len() - 1]].kind.as_str()) {
        BlockKind::Exit
    } else {
        BlockKind::Normal
    }
}

/// The terminator of a block from its last statement (see `terminator_fits`).
fn terminator_of(tree: &AstTree, stmts: &[usize]) -> (r: Terminator)
    requires
        forall|k: int| 0 <= k < stmts@.len() ==> #[trigger] stmts@[k] < tree.nodes@.len(),
    ensures
        terminator_fits(tree.nodes@, stmts@, r),
{
    if stmts.len() == 0 {
        return Terminator::Return;
    }
    let k = tree.nodes[stmts[stmts.len() - 1]].kind.as_str();
    if same_text(k, "return_statement") || same_text(k, "break_statement") || same_text(k, "continue_statement") {
        Terminator::Return
    } else if same_text(k, "if_statement") || is_loop(k) {
        Terminator::SwitchInt { targets: Vec::new(), otherwise: 0 }
    } else {
        Terminator::Goto { target: 0 }
    }
}

/// The source texts of the statements.
fn statement_texts(tree: &AstTree, stmts: &[usize]) -> (r: Vec<String>)
    requires
        forall|k: int| 0 <= k < stmts@.len() ==> #[trigger] stmts@[k] < tree.nodes@.len(),
    ensures
        r@ == stmts@.map_values(|s: usize| tree.nodes@[s as int].text),
{
    let mut r: Vec<String> = Vec::new();
    let mut i: usize = 0;
    while i < stmts.len()
        invariant
            i <= stmts@.len(),
            forall|k: int| 0 <= k < stmts@.len() ==> #[trigger] stmts@[k] < tree.nodes@.len(),
            r@ == stmts@.take(i as int).map_values(|s: usize| tree.nodes@[s as int].text),
        decreases stmts.len() - i,
    {
        r.push(tree.nodes[stmts[i]].text.clone());
        proof {
            assert(stmts@.take(i + 1).drop_last() == stmts@.take(i as int));
            assert(r@ =~= stmts@.take(i + 1).map_values(|s: usize| tree.nodes@[s as int].text));
        }
        i = i + 1;
    }
    proof {
        assert(stmts@.take(stmts@.len() as int) == stmts@);
    }
    r
}

/// Block `b` with statements `stmts`; `exit` when a branch marked it.
fn make_block(tree: &AstTree, b: usize, stmts: &[usize], exit: bool) -> (r: BasicBlock)
    requires
        forall|k: int| 0 <= k < stmts@.len() ==> #[trigger] stmts@[k] < tree.nodes@.len(),
    ensures
        forall|exits: Set<usize>| exits.contains(b) == exit ==> is_ast_block(tree.nodes@, r, b, stmts@, exits),
{
    let kind = if exit {
        BlockKind::Exit
    } else if b == 0 {
        BlockKind::Entry
    } else {
        classify_statements(tree, stmts)
    };
    BasicBlock {
        id: b,
        db_id: None,
        kind,
        statements: statement_texts(tree, stmts),
        terminator: terminator_of(tree, stmts),
        source_location: None,
        coord_x: 0,
        coord_y: 0,
        coord_z: 0,
    }
}

/// The body of function `f` is small enough for the graph's index space:
/// each of its children adds at most one block and four edges.
pub open spec fn ast_fits(t: Seq<AstNode>, f: usize) -> bool {
    t[function_body(t, f) as int].children@.len() < 0x3fff_ffff
}

fn later_ok(i: usize, o: Option<usize>, n: usize) -> (r: bool)
    ensures
        r == (o matches Some(c) ==> i < c < n),
{
    match o {
        Some(c) => i < c && c < n,
        None => true,
    }
}

/// Whether the arena is laid out as `wf_tree` asks.
pub fn check_tree(tree: &AstTree) -> (r: bool)
    ensures
        r == wf_tree(tree.nodes@),
{
    let ghost t = tree.nodes@;
    let n = tree.nodes.len();
    let mut i: usize = 0;
    while i < n
        invariant
            n == t.len(),
            t == tree.nodes@,
            i <= n,
            forall|a: int, k: int| 0 <= a < i && 0 <= k < t[a].children@.len() ==> a < #[trigger] t[a].children@[k] < t.len(),
            forall|a: int| 0 <= a < i ==> later_node(t, a, #[trigger] t[a].consequence),
            forall|a: int| 0 <= a < i ==> later_node(t, a, #[trigger] t[a].then_branch),
            forall|a: int| 0 <= a < i ==> later_node(t, a, #[trigger] t[a].body),
            forall|a: int| 0 <= a < i ==> later_node(t, a, #[trigger] t[a].alternative),
            forall|a: int| 0 <= a < i ==> later_node(t, a, #[trigger] t[a].else_branch),
            forall|a: int| 0 <= a < i ==> (#[trigger] t[a].next_sibling matches Some(x) ==> x < t.len()),
        decreases n - i,
    {
        let node = &tree.nodes[i];
        let mut k: usize = 0;
        while k < node.children.len()
            invariant
                n == t.len(),
                t == tree.nodes@,
                i < n,
                *node == t[i as int],
                k <= node.children@.len(),
                forall|q: int| 0 <= q < k ==> i < #[trigger] t[i as int].children@[q] < t.len(),
            decreases node.children@.len() - k,
        {
            let c = node.children[k];
            if !(i < c && c < n) {
                proof {
                    assert(t[i as int].children@[k as int] == c);
                    assert(!(i < t[i as int].children@[k as int] < t.len()));
                }
                return false;
            }
            k = k + 1;
        }
        if !later_ok(i, node.consequence, n) || !later_ok(i, node.then_branch, n) || !later_ok(i, node.body, n)
            || !later_ok(i, node.alternative, n) || !later_ok(i, node.else_branch, n) {
            return false;
        }
        match node.next_sibling {
            Some(x) => {
                if x >= n {
                    return false;
                }
            },
            None => {},
        }
        i = i + 1;
    }
    true
}

/// Build the CFG of function node `f` after checking the inputs
/// `ast_to_cfg` needs: `None` when the arena is not laid out in pre-order,
/// `f` is not one of its nodes, or the function body is too large for the
/// graph's index space.
pub fn checked_ast_to_cfg(tree: &AstTree, f: usize) -> (r: Option<Cfg>)
    ensures
        r is Some <==> (wf_tree(tree.nodes@) && f < tree.nodes@.len() && ast_fits(tree.nodes@, f)),
        r matches Some(g) ==> {
            &&& cfg_blocks(g).len() == blocks_of(tree.nodes@, f).0.len()
            &&& forall|b: int| 0 <= b < cfg_blocks(g).len() ==> is_ast_block(tree.nodes@, #[trigger] cfg_blocks(g)[b],
                b as usize, blocks_of(tree.nodes@, f).0[b], ast_exits(tree.nodes@, f))
            &&& cfg_edges(g) == ast_edges(tree.nodes@, f)
        },
{
    if !check_tree(tree) || f >= tree.nodes.len() {
        return None;
    }
    let body = function_body_of(tree, f);
    if tree.nodes[body].children.len() >= 0x3fff_ffff {
        return None;
    }
    Some(ast_to_cfg(tree, f))
}

/// Build the CFG of function node `f`: node `i` holds block `i` (see
/// `blocks_of`, `is_ast_block`), the edges are `ast_edges`.
pub fn ast_to_cfg(tree: &AstTree, f: usize) -> (r: Cfg)
    requires
        wf_tree(tree.nodes@),
        f < tree.nodes@.len(),
        ast_fits(tree.nodes@, f),
    ensures
        cfg_blocks(r).len() == blocks_of(tree.nodes@, f).0.len(),
        forall|b: int| 0 <= b < cfg_blocks(r).len() ==> is_ast_block(tree.nodes@, #[trigger] cfg_blocks(r)[b],
            b as usize, blocks_of(tree.nodes@, f).0[b], ast_exits(tree.nodes@, f)),
        cfg_edges(r) == ast_edges(tree.nodes@, f),
{
    let ghost t = tree.nodes@;
    let leaders = find_leaders(tree, f);
    let body = function_body_of(tree, f);
    let (blocks, ntb) = build_blocks(tree, f, body, &leaders);
    let ghost bv = vec_views(blocks@);
    let (edges, marked) = collect_edges(tree, body, &blocks, &ntb);
    let ghost count = t[body as int].children@.len();
    proof {
        lemma_edges_upto_bounds(t, body, bv, ntb@, count as int);
    }
    let ghost exits = ast_exits(t, f);
    let mut g = cfg_new();
    let mut b: usize = 0;
    while b < blocks.len()
        invariant
            t == tree.nodes@,
            bv == vec_views(blocks@),
            bv == blocks_of(t, f).0,
            exits == ast_exits(t, f),
            blocks@.len() <= count,
            count < 0x3fff_ffff,
            marked@.len() == blocks@.len(),
            forall|q: int| 0 <= q < blocks@.len() ==> (#[trigger] marked@[q] <==> exits.contains(q as usize)),
            forall|i: int, k: int| 0 <= i < blocks@.len() && 0 <= k < blocks@[i]@.len() ==> #[trigger] blocks@[i]@[k] < t.len(),
            b <= blocks.len(),
            cfg_blocks(g).len() == b,
            cfg_edges(g) == Seq::<CfgEdge>::empty(),
            forall|q: int| 0 <= q < b ==> is_ast_block(t, #[trigger] cfg_blocks(g)[q], q as usize, bv[q], exits),
        decreases blocks.len() - b,
    {
        let stmts = blocks[b].as_slice();
        assert(forall|k: int| 0 <= k < stmts@.len() ==> #[trigger] stmts@[k] == blocks@[b as int]@[k]);
        let bb = make_block(tree, b, stmts, marked[b]);
        assert(bv[b as int] == stmts@);
        add_block(&mut g, bb);
        b = b + 1;
    }
    let mut e: usize = 0;
    while e < edges.len()
        invariant
            edges@ == edges_upto(t, body, bv, ntb@, count as int),
            edges@.len() <= 4 * count,
            count < 0x3fff_ffff,
            forall|q: int| 0 <= q < edges@.len() ==> (#[trigger] edges@[q]).0 < bv.len() && edges@[q].1 < bv.len(),
            bv.len() == blocks@.len(),
            cfg_blocks(g).len() == blocks@.len(),
            forall|q: int| 0 <= q < blocks@.len() ==> is_ast_block(t, #[trigger] cfg_blocks(g)[q], q as usize, bv[q], exits),
            e <= edges.len(),
            cfg_edges(g) == edges@.take(e as int),
        decreases edges.len() - e,
    {
        let (from, to, kind) = edges[e];
        add_cfg_edge(&mut g, from, to, kind);
        proof {
            assert(edges@.take(e + 1) == edges@.take(e as int).push(edges@[e as int]));
        }
        e = e + 1;
    }
    proof {
        assert(edges@.take(edges@.len() as int) == edges@);
    }
    g
}

/// CFG builder over a syntax tree: leaders, the statements of each block,
/// the block of each statement and the graph node of each block, filled
/// as the build proceeds.
pub struct CFGBuilder {
    /// Source code the tree was parsed from
    pub source: String,
    /// The resulting CFG graph
    pub graph: Cfg,
    /// Leader nodes (basic block boundaries)
    pub leaders: HashSet<usize>,
    /// Statement nodes of each block, by block id
    pub blocks: Vec<Vec<usize>>,
    /// Block of each statement node
    pub node_to_block: HashMap<usize, usize>,
    /// Graph node of each block
    pub node_map: HashMap<usize, usize>,
    /// Next block id to assign
    pub next_block_id: usize,
}

impl CFGBuilder {
    /// A builder with nothing found yet.
    pub fn new(source: &str) -> (r: Self)
        ensures
            r.source@ == source@,
            cfg_blocks(r.graph).len() == 0,
            cfg_edges(r.graph).len() == 0,
            r.leaders@.is_empty(),
            r.blocks@.len() == 0,
            r.node_to_block@.is_empty(),
            r.node_map@.is_empty(),
            r.next_block_id == 0,
    {
        CFGBuilder {
            source: source.to_string(),
            graph: cfg_new(),
            leaders: HashSet::new(),
            blocks: Vec::new(),
            node_to_block: HashMap::new(),
            node_map: HashMap::new(),
            next_block_id: 0,
        }
    }

    /// Build the CFG of function node `fn_node` (see `ast_to_cfg`).
    pub fn build_from_function(self, tree: &AstTree, fn_node: usize) -> (r: Cfg)
        requires
            wf_tree(tree.nodes@),
            fn_node < tree.nodes@.len(),
            ast_fits(tree.nodes@, fn_node),
        ensures
            cfg_blocks(r).len() == blocks_of(tree.nodes@, fn_node).0.len(),
            forall|b: int| 0 <= b < cfg_blocks(r).len() ==> is_ast_block(tree.nodes@, #[trigger] cfg_blocks(r)[b],
                b as usize, blocks_of(tree.nodes@, fn_node).0[b], ast_exits(tree.nodes@, fn_node)),
            cfg_edges(r) == ast_edges(tree.nodes@, fn_node),
    {
        ast_to_cfg(tree, fn_node)
    }

    /// The kind of a block from its statements: an exit when the last one
    /// is a jump, normal otherwise (also for no statement).
    pub fn classify_block(&self, tree: &AstTree, statements: &[usize]) -> (r: BlockKind)
        requires
            forall|k: int| 0 <= k < statements@.len() ==> #[trigger] statements@[k] < tree.nodes@.len(),
        ensures
            r == classify_kind(tree.nodes@, statements@),
    {
        classify_statements(tree, statements)
    }

    /// The terminator of a block from its last statement (see
    /// `terminator_fits`; a return when there is none).
    pub fn extract_terminator(&self, tree: &AstTree, statements: &[usize]) -> (r: Terminator)
        requires
            forall|k: int| 0 <= k < statements@.len() ==> #[trigger] statements@[k] < tree.nodes@.len(),
        ensures
            terminator_fits(tree.nodes@, statements@, r),
    {
        terminator_of(tree, statements)
    }

    /// The first block holding `node_id` among the recorded blocks; 0 when none.
    pub fn find_block_containing(&self, node_id: usize) -> (r: usize)
        ensures
            r == containing_from(vec_views(self.blocks@), node_id, 0),
    {
        find_containing(&self.blocks, node_id)
    }

    /// The recorded block of the first statement of an optional node.
    pub fn find_block_for_node(&self, tree: &AstTree, node: Option<usize>) -> (r: Option<usize>)
        requires
            wf_tree(tree.nodes@),
            node matches Some(x) ==> x < tree.nodes@.len(),
        ensures
            r == block_for(tree.nodes@, self.node_to_block@, node),
    {
        block_for_node(tree, &self.node_to_block, node)
    }
}

} // verus!
