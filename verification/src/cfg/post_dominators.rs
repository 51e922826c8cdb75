//! Post-dominator tree construction and queries.
//!
//! A node d post-dominates node n if every path from n to the exit must go
//! through d. Post-dominance is computed by running the dominance algorithm
//! on the reversed CFG, rooted at the primary exit.

use vstd::prelude::*;
use crate::cfg::BlockId;
use crate::cfg::analysis::{find_exits, exit_indices, first_with_id, node_from_id};
use crate::cfg::dominance::{valid_idoms, lemma_chain_is_dominators};
use crate::cfg::dominators::{DominatorTree, lemma_valid_chains_end, idom_of, dom_chain, children_of, first_common};
use crate::cfg::graph::{Cfg, CfgEdge, cfg_blocks, cfg_edges, block, immediate_dominators_reversed, idom_answer, reversed_edges,
    is_walk, has_edge, walk_between, reachable_from, dominates_in};

verus! {

/// Post-dominator tree: a dominator tree of the reversed CFG rooted at the
/// primary exit (the first exit node).
#[derive(Debug)]
pub struct PostDominatorTree {
    /// Dominator tree on the reversed graph
    inner: DominatorTree,
    /// Root node (exit block)
    exit: usize,
}

impl Clone for PostDominatorTree {
    fn clone(&self) -> (r: Self)
        ensures
            r.exit_node() == self.exit_node(),
            r.ipdoms() == self.ipdoms(),
            r.tree().root_node() == self.tree().root_node(),
    {
        PostDominatorTree { inner: self.inner.clone(), exit: self.exit }
    }
}

impl PostDominatorTree {
    /// The root of the tree (the primary exit).
    pub closed spec fn exit_node(&self) -> usize {
        self.exit
    }

    /// The immediate post-dominator recorded for each node.
    pub closed spec fn ipdoms(&self) -> Seq<Option<usize>> {
        self.inner.idoms()
    }

    /// The underlying dominator tree of the reversed graph.
    pub closed spec fn tree(&self) -> DominatorTree {
        self.inner
    }

    /// Compute the post-dominator tree rooted at the first exit node
    /// (Return, Unreachable or Abort terminator); `None` when the CFG has
    /// no exit node.
    pub fn new(cfg: &Cfg) -> (r: Option<Self>)
        ensures
            r is None <==> exit_indices(cfg_blocks(*cfg), cfg_blocks(*cfg).len()).len() == 0,
            r matches Some(t) ==> {
                &&& t.exit_node() == exit_indices(cfg_blocks(*cfg), cfg_blocks(*cfg).len())[0]
                &&& is_post_dominator_tree_of(t, cfg_edges(*cfg), cfg_blocks(*cfg).len())
            },
    {
        let exits = find_exits(cfg);
        if exits.len() == 0 {
            return None;
        }
        let exit = exits[0];
        let idoms = immediate_dominators_reversed(cfg, exit);
        proof {
            lemma_valid_chains_end(reversed_edges(cfg_edges(*cfg)), exit, idoms@.len(), idoms@);
        }
        let inner = DominatorTree::from_idoms(exit, idoms);
        Some(PostDominatorTree { inner, exit })
    }

    /// The root node of the post-dominator tree (the primary exit).
    pub fn root(&self) -> (r: usize)
        ensures
            r == self.exit_node(),
    {
        self.exit
    }

    /// Immediate post-dominator of `node`; `None` for the exit, for nodes
    /// that do not reach it and for nodes outside the tree.
    pub fn immediate_post_dominator(&self, node: usize) -> (r: Option<usize>)
        ensures
            r == idom_of(self.ipdoms(), node),
    {
        self.inner.immediate_dominator(node)
    }

    /// Check if `a` post-dominates `b`: `a` lies on the post-dominator chain of `b`.
    pub fn post_dominates(&self, a: usize, b: usize) -> (r: bool)
        ensures
            r == dom_chain(self.ipdoms(), b, self.ipdoms().len()).contains(a),
    {
        self.inner.dominates(a, b)
    }

    /// Nodes immediately post-dominated by `node`, in node order.
    pub fn children(&self, node: usize) -> (r: &[usize])
        ensures
            r@ == (if node < self.ipdoms().len() {
                children_of(self.ipdoms(), node, self.ipdoms().len())
            } else {
                Seq::<usize>::empty()
            }),
    {
        self.inner.children(node)
    }

    /// Check if `a` strictly post-dominates `b`.
    pub fn strictly_post_dominates(&self, a: usize, b: usize) -> (r: bool)
        ensures
            r == (a != b && dom_chain(self.ipdoms(), b, self.ipdoms().len()).contains(a)),
    {
        self.inner.strictly_dominates(a, b)
    }

    /// Nodes on the post-dominator chain of `node`, from `node` up to the exit.
    pub fn post_dominators(&self, node: usize) -> (r: Vec<usize>)
        ensures
            r@ == dom_chain(self.ipdoms(), node, self.ipdoms().len()),
    {
        self.inner.dominators(node)
    }

    /// Nearest common post-dominator: the first node on the chain of `b`
    /// that is also on the chain of `a`.
    pub fn common_post_dominator(&self, a: usize, b: usize) -> (r: Option<usize>)
        ensures
            r == first_common(
                dom_chain(self.ipdoms(), b, self.ipdoms().len()),
                dom_chain(self.ipdoms(), a, self.ipdoms().len()),
            ),
    {
        self.inner.common_dominator(a, b)
    }

    /// Depth of `node` in the post-dominator tree (0 for the exit).
    pub fn depth(&self, node: usize) -> (r: usize)
        ensures
            r == dom_chain(self.ipdoms(), node, self.ipdoms().len()).len() - 1,
    {
        self.inner.depth(node)
    }

    /// The underlying dominator tree of the reversed graph.
    pub fn as_dominator_tree(&self) -> (r: &DominatorTree)
        ensures
            *r == self.tree(),
    {
        &self.inner
    }
}

/// Compute the post-dominator tree of a CFG (see `PostDominatorTree::new`).
pub fn compute_post_dominator_tree(cfg: &Cfg) -> (r: Option<PostDominatorTree>)
    ensures
        r is None <==> exit_indices(cfg_blocks(*cfg), cfg_blocks(*cfg).len()).len() == 0,
        r matches Some(t) ==> {
            &&& t.exit_node() == exit_indices(cfg_blocks(*cfg), cfg_blocks(*cfg).len())[0]
            &&& is_post_dominator_tree_of(t, cfg_edges(*cfg), cfg_blocks(*cfg).len())
        },
{
    PostDominatorTree::new(cfg)
}

/// `t` is the post-dominator tree of the graph with edges `es` and `n`
/// nodes: a dominator tree of the reversed graph rooted at its exit node,
/// recording the true immediate dominator of every node there.
pub open spec fn is_post_dominator_tree_of(t: PostDominatorTree, es: Seq<CfgEdge>, n: nat) -> bool {
    &&& t.tree().root_node() == t.exit_node()
    &&& t.tree().idoms() == t.ipdoms()
    &&& valid_idoms(reversed_edges(es), t.exit_node(), n, t.ipdoms())
}

/// With exit `x`, `a` post-dominates `b`: every walk from `b` to `x` contains `a`.
pub open spec fn post_dominates_in(es: Seq<CfgEdge>, x: usize, a: usize, b: usize) -> bool {
    forall|p: Seq<usize>| walk_between(es, p, b, x) ==> p.contains(a)
}

/// A walk read backwards is a walk of the reversed graph.
pub proof fn lemma_reverse_walk(es: Seq<CfgEdge>, p: Seq<usize>)
    requires
        is_walk(es, p),
    ensures
        is_walk(reversed_edges(es), p.reverse()),
{
    let q = p.reverse();
    let res = reversed_edges(es);
    let m = p.len();
    assert forall|i: int| 0 <= i < q.len() - 1 implies has_edge(res, #[trigger] q[i], q[i + 1]) by {
        let j = m - 2 - i;
        assert(q[i] == p[j + 1] && q[i + 1] == p[j]);
        assert(has_edge(es, p[j], p[j + 1]));
        let k = choose|k: int| 0 <= k < es.len() && (#[trigger] es[k]).0 == p[j] && es[k].1 == p[j + 1];
        assert(res[k] == (es[k].1, es[k].0, es[k].2));
    }
}

proof fn lemma_reversed_twice(es: Seq<CfgEdge>)
    ensures
        reversed_edges(reversed_edges(es)) == es,
{
    assert(reversed_edges(reversed_edges(es)) =~= es);
}

proof fn lemma_reverse_contains(p: Seq<usize>, a: usize)
    ensures
        p.reverse().contains(a) <==> p.contains(a),
{
    let q = p.reverse();
    if p.contains(a) {
        let k = choose|k: int| 0 <= k < p.len() && p[k] == a;
        assert(q[p.len() - 1 - k] == a);
    }
    if q.contains(a) {
        let k = choose|k: int| 0 <= k < q.len() && q[k] == a;
        assert(p[p.len() - 1 - k] == a);
    }
}

/// Post-dominance queries answer the path question: for a node `b` from
/// which the exit can be reached, `a` lies on the post-dominator chain of
/// `b` (so `post_dominates(a, b)` holds) exactly when every path from `b`
/// to the exit passes through `a`.
pub proof fn post_dominator_tree_matches_paths(es: Seq<CfgEdge>, n: nat, t: PostDominatorTree, a: usize, b: usize)
    requires
        is_post_dominator_tree_of(t, es, n),
        b < n,
        reachable_from(es, b, t.exit_node()),
    ensures
        dom_chain(t.ipdoms(), b, t.ipdoms().len()).contains(a) <==> post_dominates_in(es, t.exit_node(), a, b),
{
    let x = t.exit_node();
    let res = reversed_edges(es);
    let p0 = choose|p: Seq<usize>| walk_between(es, p, b, x);
    lemma_reverse_walk(es, p0);
    assert(p0.reverse()[0] == x && p0.reverse().last() == b);
    assert(walk_between(res, p0.reverse(), x, b));
    lemma_chain_is_dominators(res, x, n, t.ipdoms(), a, b);
    if dominates_in(res, x, a, b) {
        assert forall|p: Seq<usize>| walk_between(es, p, b, x) implies p.contains(a) by {
            lemma_reverse_walk(es, p);
            assert(walk_between(res, p.reverse(), x, b));
            lemma_reverse_contains(p, a);
        }
    }
    if post_dominates_in(es, x, a, b) {
        assert forall|q: Seq<usize>| walk_between(res, q, x, b) implies q.contains(a) by {
            lemma_reverse_walk(res, q);
            lemma_reversed_twice(es);
            assert(walk_between(es, q.reverse(), b, x));
            lemma_reverse_contains(q, a);
        }
    }
}

/// Immediate post-dominator of the block with identifier `block_id` (the
/// first node carrying it), as a block identifier: `None` when no block has
/// that identifier or its node has no immediate post-dominator.
pub fn immediate_post_dominator_id(tree: &PostDominatorTree, block_id: BlockId, cfg: &Cfg) -> (r: Option<BlockId>)
    requires
        first_with_id(cfg_blocks(*cfg), block_id, cfg_blocks(*cfg).len()) matches Some(i) ==>
            (idom_of(tree.ipdoms(), i) matches Some(d) ==> d < cfg_blocks(*cfg).len()),
    ensures
        r == match first_with_id(cfg_blocks(*cfg), block_id, cfg_blocks(*cfg).len()) {
            None => None,
            Some(i) => match idom_of(tree.ipdoms(), i) {
                None => None,
                Some(d) => Some(cfg_blocks(*cfg)[d as int].id),
            },
        },
{
    let i = node_from_id(cfg, block_id)?;
    let d = tree.immediate_post_dominator(i)?;
    Some(block(cfg, d).id)
}

} // verus!
