//! Dominator tree construction and queries.
//!
//! A node d dominates node n if every path from the entry node to n must go
//! through d. The immediate dominator of a node is its closest strict
//! dominator. The immediate dominators come from petgraph's dominance
//! algorithm; this module builds the tree and answers queries over it.

use vstd::prelude::*;
use crate::cfg::{BasicBlock, BlockId, BlockKind};
use crate::cfg::graph::{Cfg, CfgEdge, cfg_blocks, cfg_edges, node_count, block, immediate_dominators, idom_answer,
    reachable_from, dominates_in, walk_between};
use crate::cfg::analysis::{first_with_id, node_from_id};
use crate::cfg::dominance::{valid_idoms, lemma_chain_is_dominators, lemma_dominates_refl, lemma_chain_complete};

verus! {

/// Immediate dominator recorded for node `i` (`None` outside the table).
pub open spec fn idom_of(idoms: Seq<Option<usize>>, i: usize) -> Option<usize> {
    if i < idoms.len() {
        idoms[i as int]
    } else {
        None
    }
}

/// Nodes below `k` whose recorded immediate dominator is `p`, ascending.
pub open spec fn children_of(idoms: Seq<Option<usize>>, p: usize, k: nat) -> Seq<usize>
    decreases k,
{
    if k == 0 {
        Seq::empty()
    } else {
        let prev = children_of(idoms, p, (k - 1) as nat);
        if idoms[k - 1] == Some(p) {
            prev.push((k - 1) as usize)
        } else {
            prev
        }
    }
}

/// `start` followed by its chain of immediate dominators, following at most
/// `fuel` links.
pub open spec fn dom_chain(idoms: Seq<Option<usize>>, start: usize, fuel: nat) -> Seq<usize>
    decreases fuel,
{
    if fuel == 0 {
        seq![start]
    } else {
        match idom_of(idoms, start) {
            Some(x) => seq![start] + dom_chain(idoms, x, (fuel - 1) as nat),
            None => seq![start],
        }
    }
}

/// The first element of `s` that also occurs in `t`.
pub open spec fn first_common(s: Seq<usize>, t: Seq<usize>) -> Option<usize>
    decreases s.len(),
{
    if s.len() == 0 {
        None
    } else if t.contains(s[0]) {
        Some(s[0])
    } else {
        first_common(s.drop_first(), t)
    }
}

/// A dominator chain always starts with its own node.
pub proof fn lemma_dom_chain_start(idoms: Seq<Option<usize>>, start: usize, fuel: nat)
    ensures
        dom_chain(idoms, start, fuel).len() >= 1,
        dom_chain(idoms, start, fuel)[0] == start,
        dom_chain(idoms, start, fuel).len() <= fuel + 1,
    decreases fuel,
{
    if fuel > 0 {
        if let Some(x) = idom_of(idoms, start) {
            lemma_dom_chain_start(idoms, x, (fuel - 1) as nat);
        }
    }
}

/// Every chain of immediate dominators ends within the table: following
/// `idoms` from any node reaches a node without an immediate dominator
/// before the links run out.
pub open spec fn chains_end(idoms: Seq<Option<usize>>) -> bool {
    forall|i: usize| i < idoms.len() ==> #[trigger] dom_chain(idoms, i, idoms.len()).len() <= idoms.len()
}

/// On a chain that ends before its fuel runs out, the immediate dominator of
/// any member is a member too.
pub proof fn lemma_chain_step(idoms: Seq<Option<usize>>, p: usize, f: nat, c: usize, d: usize)
    requires
        dom_chain(idoms, p, f).contains(c),
        idom_of(idoms, c) == Some(d),
        dom_chain(idoms, p, f).len() <= f,
    ensures
        dom_chain(idoms, p, f).contains(d),
    decreases f,
{
    let ch = dom_chain(idoms, p, f);
    if f > 0 {
        match idom_of(idoms, p) {
            Some(x) => {
                let rest = dom_chain(idoms, x, (f - 1) as nat);
                assert(ch == seq![p] + rest);
                lemma_dom_chain_start(idoms, x, (f - 1) as nat);
                if c == p {
                    assert(ch[1] == x);
                } else {
                    let k = choose|k: int| 0 <= k < ch.len() && ch[k] == c;
                    assert(rest[k - 1] == c);
                    lemma_chain_step(idoms, x, (f - 1) as nat, c, d);
                    let j = choose|j: int| 0 <= j < rest.len() && rest[j] == d;
                    assert(ch[j + 1] == d);
                }
            },
            None => {
                assert(ch == seq![p]);
                assert(ch[0] == c);
            },
        }
    }
}

/// Linear membership test on a node list.
pub fn contains_node(v: &Vec<usize>, x: usize) -> (r: bool)
    ensures
        r == v@.contains(x),
{
    let mut i: usize = 0;
    while i < v.len()
        invariant
            i <= v.len(),
            forall|k: int| 0 <= k < i ==> v@[k] != x,
        decreases v.len() - i,
    {
        if v[i] == x {
            assert(v@[i as int] == x);
            return true;
        }
        i = i + 1;
    }
    false
}

/// Dominator tree for a CFG: the immediate dominator of every node and the
/// children lists derived from them.
#[derive(Debug)]
pub struct DominatorTree {
    /// Root node (entry block)
    root: usize,
    /// Immediate dominator of each node; `None` for the root and unreachable nodes
    immediate_dominator: Vec<Option<usize>>,
    /// Children in the dominator tree, for each node
    children: Vec<Vec<usize>>,
    /// Children list of a node outside the tree
    no_children: Vec<usize>,
}

impl Clone for DominatorTree {
    fn clone(&self) -> (r: Self)
        ensures
            r.root_node() == self.root_node(),
            r.idoms() == self.idoms(),
    {
        proof {
            use_type_invariant(self);
        }
        let idoms = self.immediate_dominator.clone();
        proof {
            assert(idoms@ == self.immediate_dominator@);
        }
        Self::from_idoms(self.root, idoms)
    }
}

/// Some block has kind `Entry`.
pub open spec fn has_entry_block(bs: Seq<BasicBlock>) -> bool {
    exists|i: int| 0 <= i < bs.len() && (#[trigger] bs[i]).kind == BlockKind::Entry
}

/// Whether some block of the graph has kind `Entry`.
pub fn contains_entry_block(cfg: &Cfg) -> (r: bool)
    ensures
        r == has_entry_block(cfg_blocks(*cfg)),
{
    let n = node_count(cfg);
    let mut i: usize = 0;
    while i < n
        invariant
            n == cfg_blocks(*cfg).len(),
            i <= n,
            forall|j: int| 0 <= j < i ==> (#[trigger] cfg_blocks(*cfg)[j]).kind != BlockKind::Entry,
        decreases n - i,
    {
        if block(cfg, i).kind == BlockKind::Entry {
            return true;
        }
        i = i + 1;
    }
    false
}

impl DominatorTree {
    /// The root of the tree.
    pub closed spec fn root_node(&self) -> usize {
        self.root
    }

    /// The recorded immediate dominator of each node.
    pub closed spec fn idoms(&self) -> Seq<Option<usize>> {
        self.immediate_dominator@
    }

    /// Children lists agree with the immediate dominators; every recorded
    /// immediate dominator is a node of the tree.
    #[verifier::type_invariant]
    closed spec fn well_formed(&self) -> bool {
        &&& self.children@.len() == self.immediate_dominator@.len()
        &&& self.no_children@.len() == 0
        &&& forall|p: int| 0 <= p < self.children@.len() ==>
            (#[trigger] self.children@[p])@ == children_of(self.immediate_dominator@, p as usize, self.immediate_dominator@.len())
        &&& forall|i: int| 0 <= i < self.immediate_dominator@.len() ==>
            (#[trigger] self.immediate_dominator@[i] matches Some(d) ==> d < self.immediate_dominator@.len())
        &&& chains_end(self.immediate_dominator@)
    }

    /// The recorded immediate dominators stay inside the table and their
    /// chains end.
    pub(crate) fn shape(&self)
        ensures
            chains_end(self.idoms()),
            self.idoms().len() <= usize::MAX,
            forall|i: int| 0 <= i < self.idoms().len() ==>
                (#[trigger] self.idoms()[i] matches Some(d) ==> d < self.idoms().len()),
    {
        proof {
            use_type_invariant(self);
        }
        let _n = self.immediate_dominator.len();
    }

    /// Build a tree from a table of immediate dominators.
    pub(crate) fn from_idoms(root: usize, idoms: Vec<Option<usize>>) -> (t: Self)
        requires
            forall|i: int| 0 <= i < idoms.len() ==> (#[trigger] idoms@[i] matches Some(d) ==> d < idoms.len()),
            chains_end(idoms@),
        ensures
            t.root_node() == root,
            t.idoms() == idoms@,
    {
        let n = idoms.len();
        let mut children: Vec<Vec<usize>> = Vec::new();
        let mut k: usize = 0;
        while k < n
            invariant
                k <= n,
                n == idoms.len(),
                children@.len() == k,
                forall|p: int| 0 <= p < k ==> (#[trigger] children@[p])@ == Seq::<usize>::empty(),
            decreases n - k,
        {
            children.push(Vec::new());
            k = k + 1;
        }
        proof {
            assert forall|p: int| 0 <= p < n implies (#[trigger] children@[p])@ == children_of(idoms@, p as usize, 0) by {}
        }
        let mut node: usize = 0;
        while node < n
            invariant
                node <= n,
                n == idoms.len(),
                children@.len() == n,
                forall|i: int| 0 <= i < idoms.len() ==> (#[trigger] idoms@[i] matches Some(d) ==> d < idoms.len()),
                forall|p: int| 0 <= p < n ==> (#[trigger] children@[p])@ == children_of(idoms@, p as usize, node as nat),
            decreases n - node,
        {
            if let Some(parent) = idoms[node] {
                let ghost before = children@;
                let mut list: Vec<usize> = Vec::new();
                std::mem::swap(&mut list, &mut children[parent]);
                list.push(node);
                children.set(parent, list);
                proof {
                    assert forall|p: int| 0 <= p < n implies (#[trigger] children@[p])@
                        == children_of(idoms@, p as usize, (node + 1) as nat) by {
                        if p != parent as int {
                            assert(children@[p] == before[p]);
                        }
                    }
                }
            }
            node = node + 1;
        }
        DominatorTree { root, immediate_dominator: idoms, children, no_children: Vec::new() }
    }

    /// Compute the dominator tree rooted at the entry node (the first node);
    /// `None` when no block has kind `Entry` (in particular for an empty CFG).
    pub fn new(cfg: &Cfg) -> (r: Option<Self>)
        ensures
            r is None <==> !has_entry_block(cfg_blocks(*cfg)),
            r matches Some(t) ==> is_dominator_tree_of(t, cfg_edges(*cfg), cfg_blocks(*cfg).len()),
    {
        if !contains_entry_block(cfg) {
            return None;
        }
        let idoms = immediate_dominators(cfg, 0);
        proof {
            lemma_valid_chains_end(cfg_edges(*cfg), 0, idoms@.len(), idoms@);
        }
        Some(Self::from_idoms(0, idoms))
    }

    /// The root node of the dominator tree (the entry node).
    pub fn root(&self) -> (r: usize)
        ensures
            r == self.root_node(),
    {
        self.root
    }

    /// Immediate dominator of `node`; `None` for the root, for unreachable
    /// nodes and for nodes outside the tree.
    pub fn immediate_dominator(&self, node: usize) -> (r: Option<usize>)
        ensures
            r == idom_of(self.idoms(), node),
    {
        if node < self.immediate_dominator.len() {
            self.immediate_dominator[node]
        } else {
            None
        }
    }

    /// Nodes on the dominator chain of `node`: `node`, its immediate
    /// dominator, and so on up to the root.
    pub fn dominators(&self, node: usize) -> (r: Vec<usize>)
        ensures
            r@ == dom_chain(self.idoms(), node, self.idoms().len()),
    {
        let n = self.immediate_dominator.len();
        let mut r: Vec<usize> = vec![node];
        let mut cur = node;
        let mut fuel = n;
        while fuel > 0
            invariant
                n == self.idoms().len(),
                fuel <= n,
                r@.len() >= 1,
                r@.last() == cur,
                r@.drop_last() + dom_chain(self.idoms(), cur, fuel as nat) == dom_chain(self.idoms(), node, n as nat),
            decreases fuel,
        {
            match self.immediate_dominator(cur) {
                Some(x) => {
                    let ghost old_r = r@;
                    let ghost old_cur = cur;
                    r.push(x);
                    proof {
                        lemma_dom_chain_start(self.idoms(), x, (fuel - 1) as nat);
                        assert(dom_chain(self.idoms(), old_cur, fuel as nat) == seq![old_cur] + dom_chain(self.idoms(), x, (fuel - 1) as nat));
                        assert(r@.drop_last() == old_r);
                        assert(old_r.drop_last() + seq![old_cur] == old_r);
                        assert(old_r.drop_last() + (seq![old_cur] + dom_chain(self.idoms(), x, (fuel - 1) as nat))
                            == old_r + dom_chain(self.idoms(), x, (fuel - 1) as nat));
                    }
                    cur = x;
                    fuel = fuel - 1;
                },
                None => {
                    proof {
                        assert(dom_chain(self.idoms(), cur, fuel as nat) == seq![cur]);
                        assert(r@.drop_last() + seq![cur] == r@);
                    }
                    return r;
                },
            }
        }
        proof {
            assert(dom_chain(self.idoms(), cur, 0) == seq![cur]);
            assert(r@.drop_last() + seq![cur] == r@);
        }
        r
    }

    /// Check if `a` dominates `b`: `a` lies on the dominator chain of `b`
    /// (every node dominates itself).
    pub fn dominates(&self, a: usize, b: usize) -> (r: bool)
        ensures
            r == dom_chain(self.idoms(), b, self.idoms().len()).contains(a),
    {
        let chain = self.dominators(b);
        contains_node(&chain, a)
    }

    /// Nodes immediately dominated by `node` (its children in the tree), in
    /// node order; empty for a node outside the tree.
    pub fn children(&self, node: usize) -> (r: &[usize])
        ensures
            r@ == (if node < self.idoms().len() {
                children_of(self.idoms(), node, self.idoms().len())
            } else {
                Seq::<usize>::empty()
            }),
    {
        proof {
            use_type_invariant(self);
        }
        if node < self.children.len() {
            self.children[node].as_slice()
        } else {
            self.no_children.as_slice()
        }
    }

    /// Check if `a` strictly dominates `b`: `a` dominates `b` and `a != b`.
    pub fn strictly_dominates(&self, a: usize, b: usize) -> (r: bool)
        ensures
            r == (a != b && dom_chain(self.idoms(), b, self.idoms().len()).contains(a)),
    {
        a != b && self.dominates(a, b)
    }

    /// Nearest common dominator of `a` and `b`: the first node on the
    /// dominator chain of `b` that is also on the chain of `a`.
    pub fn common_dominator(&self, a: usize, b: usize) -> (r: Option<usize>)
        ensures
            r == first_common(
                dom_chain(self.idoms(), b, self.idoms().len()),
                dom_chain(self.idoms(), a, self.idoms().len()),
            ),
    {
        let a_doms = self.dominators(a);
        let b_doms = self.dominators(b);
        let mut i: usize = 0;
        proof {
            assert(b_doms@.skip(0) == b_doms@);
        }
        while i < b_doms.len()
            invariant
                i <= b_doms.len(),
                first_common(b_doms@, a_doms@) == first_common(b_doms@.skip(i as int), a_doms@),
                b_doms@ == dom_chain(self.idoms(), b, self.idoms().len()),
                a_doms@ == dom_chain(self.idoms(), a, self.idoms().len()),
            decreases b_doms.len() - i,
        {
            let d = b_doms[i];
            let found = contains_node(&a_doms, d);
            proof {
                assert(b_doms@.skip(i as int)[0] == d);
                assert(b_doms@.skip(i as int).drop_first() == b_doms@.skip(i + 1));
            }
            if found {
                proof {
                    let s = b_doms@.skip(i as int);
                    assert(s.len() > 0);
                    assert(first_common(s, a_doms@) == Some(d));
                }
                return Some(d);
            }
            i = i + 1;
        }
        None
    }

    /// Depth of `node` in the dominator tree: the number of links on its
    /// dominator chain (0 for the root).
    pub fn depth(&self, node: usize) -> (r: usize)
        ensures
            r == dom_chain(self.idoms(), node, self.idoms().len()).len() - 1,
    {
        let chain = self.dominators(node);
        chain.len() - 1
    }
}

/// Compute the dominator tree of a CFG (see `DominatorTree::new`).
pub fn compute_dominator_tree(cfg: &Cfg) -> (r: Option<DominatorTree>)
    ensures
        r is None <==> !has_entry_block(cfg_blocks(*cfg)),
        r matches Some(t) ==> is_dominator_tree_of(t, cfg_edges(*cfg), cfg_blocks(*cfg).len()),
{
    DominatorTree::new(cfg)
}

/// A table of true immediate dominators has ending chains and stays inside
/// the graph.
pub proof fn lemma_valid_chains_end(es: Seq<CfgEdge>, r: usize, n: nat, idoms: Seq<Option<usize>>)
    requires
        valid_idoms(es, r, n, idoms),
    ensures
        chains_end(idoms),
        forall|i: int| 0 <= i < idoms.len() ==> (#[trigger] idoms[i] matches Some(d) ==> d < idoms.len()),
{
    assert forall|i: usize| i < idoms.len() implies #[trigger] dom_chain(idoms, i, idoms.len()).len() <= idoms.len() by {
        if reachable_from(es, r, i) {
            lemma_chain_complete(es, r, n, idoms, i);
        } else {
            assert(idom_answer(es, r, n, i, idoms[i as int]));
            assert(dom_chain(idoms, i, idoms.len()) == seq![i]);
        }
    }
    assert forall|i: int| 0 <= i < idoms.len() implies (#[trigger] idoms[i] matches Some(d) ==> d < idoms.len()) by {
        assert(idom_answer(es, r, n, i as usize, idoms[i]));
    }
}

/// `t` is the dominator tree of the graph with edges `es` and `n` nodes,
/// rooted at the entry node 0: it records the true immediate dominator of
/// every node.
pub open spec fn is_dominator_tree_of(t: DominatorTree, es: Seq<CfgEdge>, n: nat) -> bool {
    t.root_node() == 0 && valid_idoms(es, 0, n, t.idoms())
}

/// Dominance queries answer the path question: for a node `b` reached from
/// the entry, `a` lies on the dominator chain of `b` (so `dominates(a, b)`
/// holds) exactly when every path from the entry to `b` passes through `a`.
pub proof fn dominator_tree_matches_paths(es: Seq<CfgEdge>, n: nat, t: DominatorTree, a: usize, b: usize)
    requires
        is_dominator_tree_of(t, es, n),
        b < n,
        reachable_from(es, 0, b),
    ensures
        dom_chain(t.idoms(), b, t.idoms().len()).contains(a) <==> dominates_in(es, 0, a, b),
{
    lemma_chain_is_dominators(es, 0, n, t.idoms(), a, b);
}

/// The entry dominates every node it reaches, and every node dominates
/// itself, in any dominator tree built from a CFG.
pub proof fn dominator_tree_entry_and_self(es: Seq<CfgEdge>, n: nat, t: DominatorTree, b: usize)
    requires
        is_dominator_tree_of(t, es, n),
        b < n,
        reachable_from(es, 0, b),
    ensures
        dom_chain(t.idoms(), b, t.idoms().len()).contains(0),
        dom_chain(t.idoms(), b, t.idoms().len()).contains(b),
{
    lemma_chain_is_dominators(es, 0, n, t.idoms(), 0, b);
    lemma_chain_is_dominators(es, 0, n, t.idoms(), b, b);
    assert forall|p: Seq<usize>| walk_between(es, p, 0, b) implies p.contains(0) by {
        assert(p[0] == 0);
    }
    lemma_dominates_refl(es, 0, b);
}

/// Immediate dominator of the block with identifier `block_id` (the first
/// node carrying it), as a block identifier: `None` when no block has that
/// identifier or its node has no immediate dominator.
pub fn immediate_dominator_id(tree: &DominatorTree, block_id: BlockId, cfg: &Cfg) -> (r: Option<BlockId>)
    requires
        first_with_id(cfg_blocks(*cfg), block_id, cfg_blocks(*cfg).len()) matches Some(i) ==>
            (idom_of(tree.idoms(), i) matches Some(d) ==> d < cfg_blocks(*cfg).len()),
    ensures
        r == match first_with_id(cfg_blocks(*cfg), block_id, cfg_blocks(*cfg).len()) {
            None => None,
            Some(i) => match idom_of(tree.idoms(), i) {
                None => None,
                Some(d) => Some(cfg_blocks(*cfg)[d as int].id),
            },
        },
{
    let i = node_from_id(cfg, block_id)?;
    let d = tree.immediate_dominator(i)?;
    Some(block(cfg, d).id)
}

} // verus!
