//! Dominance frontier computation.
//!
//! The dominance frontier of a node n is the set of nodes where dominance
//! from n ends: join points where control flow from n's dominated region
//! meets control from outside it. Frontiers drive SSA phi placement and
//! control-dependence analysis.

use vstd::prelude::*;
use std::collections::HashSet;
use crate::cfg::dominators::{DominatorTree, dom_chain, children_of, idom_of, chains_end, lemma_chain_step,
    lemma_dom_chain_start};
use crate::cfg::graph::{lemma_same_multiset, Cfg, CfgEdge, cfg_blocks, cfg_edges, node_count, predecessors, in_nbrs, has_edge,
    lemma_in_nbrs_contains};
use crate::cfg::node_set::clone_node_set;
use crate::cfg::reachability::{count_unmarked, lemma_count_unmarked_update};
use crate::cfg::graph::{reachable_from, dominates_in, strictly_dominates_in, edges_in_range};
use crate::cfg::dominators::{is_dominator_tree_of, dominator_tree_matches_paths};

verus! {

broadcast use vstd::std_specs::hash::group_hash_axioms;

/// `v` lies in the dominance frontier of `n` (with dominance read off the
/// chains of `idoms`): `n` dominates a predecessor of `v` and does not
/// strictly dominate `v`.
pub open spec fn in_df(es: Seq<CfgEdge>, idoms: Seq<Option<usize>>, n: usize, v: usize) -> bool {
    &&& exists|p: usize| #[trigger] has_edge(es, p, v) && dom_chain(idoms, p, idoms.len()).contains(n)
    &&& !(n != v && dom_chain(idoms, v, idoms.len()).contains(n))
}

/// The dominance frontier of `n` among the nodes below `cnt`.
pub open spec fn df_set(es: Seq<CfgEdge>, idoms: Seq<Option<usize>>, cnt: nat, n: usize) -> Set<usize> {
    Set::new(|v: usize| v < cnt && in_df(es, idoms, n, v))
}

/// Dominance frontiers for all nodes of a CFG, with the dominator tree they
/// were computed from.
pub struct DominanceFrontiers {
    /// Dominance frontier of each node
    frontiers: Vec<HashSet<usize>>,
    /// Dominator tree for dominance queries
    dominator_tree: DominatorTree,
    /// Edges of the graph the frontiers describe
    edges: Ghost<Seq<CfgEdge>>,
}

impl DominanceFrontiers {
    /// Edges of the graph the frontiers were computed for.
    pub closed spec fn edges(&self) -> Seq<CfgEdge> {
        self.edges@
    }

    /// Number of nodes of that graph.
    pub closed spec fn node_total(&self) -> nat {
        self.frontiers@.len()
    }

    /// The dominator tree the frontiers were computed with.
    pub closed spec fn tree(&self) -> DominatorTree {
        self.dominator_tree
    }

    /// The frontier recorded for `n`: empty for a node outside the graph.
    pub open spec fn frontier_of(&self, n: usize) -> Set<usize> {
        if n < self.node_total() {
            df_set(self.edges(), self.tree().idoms(), self.node_total(), n)
        } else {
            Set::empty()
        }
    }

    #[verifier::type_invariant]
    closed spec fn frontiers_exact(&self) -> bool {
        forall|n: int| 0 <= n < self.frontiers@.len() ==>
            (#[trigger] self.frontiers@[n])@ == df_set(self.edges@, self.dominator_tree.idoms(), self.frontiers@.len(), n as usize)
    }

    /// Compute the dominance frontier of every node: `v` is in the frontier
    /// of `n` when `n` dominates a predecessor of `v` but does not strictly
    /// dominate `v`. Frontiers of a node's children in the dominator tree
    /// (those already computed) are merged in as well, which the first rule
    /// already covers.
    pub fn new(cfg: &Cfg, dominator_tree: DominatorTree) -> (r: Self)
        ensures
            r.edges() == cfg_edges(*cfg),
            r.node_total() == cfg_blocks(*cfg).len(),
            r.tree() == dominator_tree,
    {
        dominator_tree.shape();
        let ghost es = cfg_edges(*cfg);
        let ghost idoms = dominator_tree.idoms();
        let total = node_count(cfg);
        let mut frontiers: Vec<HashSet<usize>> = Vec::new();
        let mut n: usize = 0;
        while n < total
            invariant
                n <= total,
                total == cfg_blocks(*cfg).len(),
                es == cfg_edges(*cfg),
                idoms == dominator_tree.idoms(),
                chains_end(idoms),
                idoms.len() <= usize::MAX,
                frontiers.len() == n,
                forall|k: int| 0 <= k < n ==> (#[trigger] frontiers@[k])@ == df_set(es, idoms, total as nat, k as usize),
            decreases total - n,
        {
            let mut df: HashSet<usize> = HashSet::new();
            // Rule 1: n dominates a predecessor of v but not strictly v.
            let mut v: usize = 0;
            while v < total
                invariant
                    v <= total,
                    n < total,
                    total == cfg_blocks(*cfg).len(),
                    es == cfg_edges(*cfg),
                    idoms == dominator_tree.idoms(),
                    forall|x: usize| #[trigger] df@.contains(x) <==> (x < v && in_df(es, idoms, n, x)),
                decreases total - v,
            {
                let preds = predecessors(cfg, v);
                proof {
                    lemma_same_multiset(preds@, in_nbrs(es, v));
                }
                let mut found = false;
                let mut j: usize = 0;
                while j < preds.len()
                    invariant
                        j <= preds.len(),
                        forall|x: usize| #![trigger preds@.contains(x)] #![trigger in_nbrs(es, v).contains(x)]
                            preds@.contains(x) <==> in_nbrs(es, v).contains(x),
                        idoms == dominator_tree.idoms(),
                        found <==> exists|k: int| 0 <= k < j && dom_chain(idoms, #[trigger] preds@[k], idoms.len()).contains(n),
                    decreases preds.len() - j,
                {
                    if dominator_tree.dominates(n, preds[j]) {
                        found = true;
                    }
                    j = j + 1;
                }
                proof {
                    if found {
                        let k = choose|k: int| 0 <= k < preds.len() && dom_chain(idoms, #[trigger] preds@[k], idoms.len()).contains(n);
                        assert(in_nbrs(es, v).contains(preds@[k]));
                        lemma_in_nbrs_contains(es, v, preds@[k]);
                    }
                    if exists|p: usize| #[trigger] has_edge(es, p, v) && dom_chain(idoms, p, idoms.len()).contains(n) {
                        let p = choose|p: usize| #[trigger] has_edge(es, p, v) && dom_chain(idoms, p, idoms.len()).contains(n);
                        lemma_in_nbrs_contains(es, v, p);
                        let k = choose|k: int| 0 <= k < preds@.len() && preds@[k] == p;
                        assert(dom_chain(idoms, preds@[k], idoms.len()).contains(n));
                    }
                }
                if found && !dominator_tree.strictly_dominates(n, v) {
                    df.insert(v);
                }
                v = v + 1;
            }
            // Rule 2: merge the frontiers of children computed so far.
            let children = dominator_tree.children(n);
            let mut c: usize = 0;
            while c < children.len()
                invariant
                    n < total,
                    total == cfg_blocks(*cfg).len(),
                    idoms == dominator_tree.idoms(),
                    chains_end(idoms),
                    idoms.len() <= usize::MAX,
                    children@ == (if n < idoms.len() { children_of(idoms, n, idoms.len()) } else { Seq::<usize>::empty() }),
                    c <= children.len(),
                    frontiers.len() == n,
                    forall|k: int| 0 <= k < n ==> (#[trigger] frontiers@[k])@ == df_set(es, idoms, total as nat, k as usize),
                    forall|x: usize| #[trigger] df@.contains(x) <==> (x < total && in_df(es, idoms, n, x)),
                decreases children.len() - c,
            {
                let child = children[c];
                if child < n {
                    proof {
                        lemma_children_of(idoms, n, idoms.len(), child);
                        assert(children@.contains(child)) by { assert(children@[c as int] == child); }
                    }
                    let mut v: usize = 0;
                    while v < total
                        invariant
                            v <= total,
                            child < n < total,
                            total == cfg_blocks(*cfg).len(),
                            idoms == dominator_tree.idoms(),
                            chains_end(idoms),
                            child < idoms.len(),
                            idom_of(idoms, child) == Some(n),
                            frontiers.len() == n,
                            frontiers@[child as int]@ == df_set(es, idoms, total as nat, child),
                            forall|x: usize| #[trigger] df@.contains(x) <==> (x < total && in_df(es, idoms, n, x)),
                        decreases total - v,
                    {
                        if frontiers[child].contains(&v) && !dominator_tree.strictly_dominates(n, v) {
                            proof {
                                assert(df_set(es, idoms, total as nat, child).contains(v));
                                let p = choose|p: usize| #[trigger] has_edge(es, p, v) && dom_chain(idoms, p, idoms.len()).contains(child);
                                lemma_chain_through_parent(idoms, p, child, n);
                            }
                            df.insert(v);
                        }
                        v = v + 1;
                    }
                }
                c = c + 1;
            }
            proof {
                assert(df@ == df_set(es, idoms, total as nat, n));
            }
            frontiers.push(df);
            n = n + 1;
        }
        DominanceFrontiers { frontiers, dominator_tree, edges: Ghost(es) }
    }

    /// Dominance frontier of `node` (empty for a node outside the graph).
    pub fn frontier(&self, node: usize) -> (r: HashSet<usize>)
        ensures
            r@ == self.frontier_of(node),
    {
        proof {
            use_type_invariant(self);
        }
        if node < self.frontiers.len() {
            clone_node_set(&self.frontiers[node])
        } else {
            let r: HashSet<usize> = HashSet::new();
            proof {
                assert(r@ == Set::<usize>::empty());
            }
            r
        }
    }

    /// Check if `v` is in `n`'s dominance frontier.
    pub fn in_frontier(&self, n: usize, v: usize) -> (r: bool)
        ensures
            r == self.frontier_of(n).contains(v),
    {
        proof {
            use_type_invariant(self);
        }
        if n < self.frontiers.len() {
            self.frontiers[n].contains(&v)
        } else {
            false
        }
    }

    /// The underlying dominator tree.
    pub fn dominator_tree(&self) -> (r: &DominatorTree)
        ensures
            *r == self.tree(),
    {
        &self.dominator_tree
    }

    /// Nodes with a non-empty dominance frontier, in node order.
    pub fn nodes_with_frontiers(&self) -> (r: Vec<usize>)
        ensures
            r@ == nodes_with_nonempty(self, self.node_total()),
    {
        proof {
            use_type_invariant(self);
        }
        let mut r: Vec<usize> = Vec::new();
        let mut n: usize = 0;
        while n < self.frontiers.len()
            invariant
                n <= self.frontiers.len(),
                self.node_total() == self.frontiers.len(),
                r@ == nodes_with_nonempty(self, n as nat),
            decreases self.frontiers.len() - n,
        {
            if !self.frontiers[n].is_empty() {
                r.push(n);
            }
            proof {
                use_type_invariant(self);
                assert(self.frontiers@[n as int]@ == self.frontier_of(n));
            }
            n = n + 1;
        }
        r
    }

    /// Iterated dominance frontier of `nodes`: every node reached from one of
    /// them by one or more frontier steps (the closure used for SSA phi
    /// placement).
    pub fn iterated_frontier(&self, nodes: &[usize]) -> (r: HashSet<usize>)
        ensures
            forall|v: usize| #[trigger] r@.contains(v) <==> in_iterated(self, nodes@, v),
    {
        proof {
            use_type_invariant(self);
        }
        let total = self.frontiers.len();
        let mut marked: Vec<bool> = Vec::new();
        let mut k: usize = 0;
        while k < total
            invariant
                k <= total,
                marked.len() == k,
                forall|i: int| 0 <= i < k ==> !marked@[i],
            decreases total - k,
        {
            marked.push(false);
            k = k + 1;
        }
        let mut work: Vec<usize> = Vec::new();
        let mut i: usize = 0;
        while i < nodes.len()
            invariant
                i <= nodes@.len(),
                work@ == nodes@.take(i as int),
            decreases nodes@.len() - i,
        {
            work.push(nodes[i]);
            i = i + 1;
        }
        proof {
            assert(nodes@.take(nodes@.len() as int) == nodes@);
        }
        let mut result: HashSet<usize> = HashSet::new();
        while work.len() > 0
            invariant
                total == self.node_total(),
                marked.len() == total,
                forall|x: usize| #[trigger] result@.contains(x) <==> (x < total && marked@[x as int]),
                forall|x: usize| x < total && #[trigger] marked@[x as int] ==> in_iterated(self, nodes@, x),
                forall|j: int| 0 <= j < work.len() ==>
                    nodes@.contains(#[trigger] work@[j]) || (work@[j] < total && marked@[work@[j] as int]),
                forall|w: usize| (nodes@.contains(w) || (w < total && marked@[w as int])) ==>
                    work@.contains(w) || #[trigger] successors_marked(self, marked@, w),
            decreases 2 * count_unmarked(marked@) + work.len(),
        {
            let ghost measure = 2 * count_unmarked(marked@) + work.len();
            let ghost old_work = work@;
            let n = work.pop().unwrap();
            proof {
                assert(old_work == work@.push(n));
                assert(old_work[old_work.len() - 1] == n);
                assert forall|w: usize| w != n && (nodes@.contains(w) || (w < total && marked@[w as int])) implies
                    work@.contains(w) || #[trigger] successors_marked(self, marked@, w) by {
                    if old_work.contains(w) {
                        let q = choose|q: int| 0 <= q < old_work.len() && old_work[q] == w;
                        assert(work@[q] == w);
                    }
                }
            }
            let ghost n_source = nodes@.contains(n) || (n < total && marked@[n as int]);
            let mut v: usize = 0;
            while v < total
                invariant
                    v <= total,
                    total == self.node_total(),
                    marked.len() == total,
                    n_source,
                    n_source == (nodes@.contains(n) || (n < total && marked@[n as int])),
                    2 * count_unmarked(marked@) + work.len() < measure,
                    forall|x: usize| #[trigger] result@.contains(x) <==> (x < total && marked@[x as int]),
                    forall|x: usize| x < total && #[trigger] marked@[x as int] ==> in_iterated(self, nodes@, x),
                    forall|j: int| 0 <= j < work.len() ==>
                        nodes@.contains(#[trigger] work@[j]) || (work@[j] < total && marked@[work@[j] as int]),
                    forall|w: usize| w != n && (nodes@.contains(w) || (w < total && marked@[w as int])) ==>
                        work@.contains(w) || #[trigger] successors_marked(self, marked@, w),
                    forall|x: usize| x < v && self.frontier_of(n).contains(x) ==> #[trigger] marked@[x as int],
                decreases total - v,
            {
                if self.in_frontier(n, v) && !marked[v] {
                    proof {
                        lemma_count_unmarked_update(marked@, v as int);
                        lemma_iterated_step(self, nodes@, n, v);
                    }
                    let ghost before = marked@;
                    let ghost before_work = work@;
                    marked.set(v, true);
                    result.insert(v);
                    work.push(v);
                    proof {
                        assert forall|w: usize| w != n && (nodes@.contains(w) || (w < total && marked@[w as int])) implies
                            work@.contains(w) || #[trigger] successors_marked(self, marked@, w) by {
                            if w == v {
                                assert(work@[work.len() - 1] == v);
                            } else {
                                assert(nodes@.contains(w) || (w < total && before[w as int]));
                                if before_work.contains(w) {
                                    let q = choose|q: int| 0 <= q < before_work.len() && before_work[q] == w;
                                    assert(work@[q] == w);
                                } else {
                                    assert(successors_marked(self, before, w));
                                    assert forall|x: usize| #[trigger] self.frontier_of(w).contains(x) implies
                                        x < total && marked@[x as int] by {
                                        assert(before[x as int]);
                                    }
                                }
                            }
                        }
                        assert(work@[work.len() - 1] == v);
                    }
                }
                v = v + 1;
            }
            proof {
                assert forall|x: usize| #[trigger] self.frontier_of(n).contains(x) implies x < total && marked@[x as int] by {
                    if n >= total {
                        assert(!self.frontier_of(n).contains(x));
                    }
                }
                assert(successors_marked(self, marked@, n));
            }
        }
        proof {
            lemma_iterated_exact(self, nodes@, marked@, total as nat);
        }
        result
    }

    /// Union of the dominance frontiers of `nodes`.
    pub fn union_frontier(&self, nodes: &[usize]) -> (r: HashSet<usize>)
        ensures
            forall|v: usize| #[trigger] r@.contains(v) <==>
                exists|i: int| 0 <= i < nodes@.len() && (#[trigger] self.frontier_of(nodes@[i])).contains(v),
    {
        proof {
            use_type_invariant(self);
        }
        let total = self.frontiers.len();
        let mut r: HashSet<usize> = HashSet::new();
        let mut i: usize = 0;
        while i < nodes.len()
            invariant
                i <= nodes@.len(),
                total == self.node_total(),
                forall|v: usize| #[trigger] r@.contains(v) <==>
                    exists|k: int| 0 <= k < i && (#[trigger] self.frontier_of(nodes@[k])).contains(v),
            decreases nodes@.len() - i,
        {
            let n = nodes[i];
            let mut v: usize = 0;
            while v < total
                invariant
                    v <= total,
                    i < nodes@.len(),
                    n == nodes@[i as int],
                    total == self.node_total(),
                    forall|x: usize| #[trigger] r@.contains(x) <==>
                        ((exists|k: int| 0 <= k < i && (#[trigger] self.frontier_of(nodes@[k])).contains(x))
                        || (x < v && self.frontier_of(n).contains(x))),
                decreases total - v,
            {
                if self.in_frontier(n, v) {
                    r.insert(v);
                }
                v = v + 1;
            }
            proof {
                assert forall|x: usize| #[trigger] r@.contains(x) <==>
                    exists|k: int| 0 <= k < i + 1 && (#[trigger] self.frontier_of(nodes@[k])).contains(x) by {
                    if self.frontier_of(n).contains(x) {
                        assert(x < total);
                    }
                    if exists|k: int| 0 <= k < i + 1 && (#[trigger] self.frontier_of(nodes@[k])).contains(x) {
                        let k = choose|k: int| 0 <= k < i + 1 && (#[trigger] self.frontier_of(nodes@[k])).contains(x);
                        if k == i {
                            assert(x < total);
                        }
                    }
                }
            }
            i = i + 1;
        }
        r
    }
}

/// `p` is a walk of at least one step along frontier edges.
pub open spec fn df_walk(d: &DominanceFrontiers, p: Seq<usize>) -> bool {
    &&& p.len() >= 2
    &&& forall|i: int| 0 <= i < p.len() - 1 ==> d.frontier_of(#[trigger] p[i]).contains(p[i + 1])
}

/// `v` is reached from one of `nodes` by one or more frontier steps.
pub open spec fn in_iterated(d: &DominanceFrontiers, nodes: Seq<usize>, v: usize) -> bool {
    exists|p: Seq<usize>| #[trigger] df_walk(d, p) && nodes.contains(p[0]) && p.last() == v
}

/// Every frontier member of `w` is marked.
pub open spec fn successors_marked(d: &DominanceFrontiers, marked: Seq<bool>, w: usize) -> bool {
    forall|x: usize| #[trigger] d.frontier_of(w).contains(x) ==> x < marked.len() && marked[x as int]
}

/// One more frontier step from a start node or an iterated-frontier node
/// stays in the iterated frontier.
proof fn lemma_iterated_step(d: &DominanceFrontiers, nodes: Seq<usize>, n: usize, v: usize)
    requires
        nodes.contains(n) || in_iterated(d, nodes, n),
        d.frontier_of(n).contains(v),
    ensures
        in_iterated(d, nodes, v),
{
    if in_iterated(d, nodes, n) {
        let p = choose|p: Seq<usize>| #[trigger] df_walk(d, p) && nodes.contains(p[0]) && p.last() == n;
        let q = p.push(v);
        assert forall|i: int| 0 <= i < q.len() - 1 implies d.frontier_of(#[trigger] q[i]).contains(q[i + 1]) by {
            if i < p.len() - 1 {
                assert(q[i] == p[i] && q[i + 1] == p[i + 1]);
            } else {
                assert(q[i] == n && q[i + 1] == v);
            }
        }
        assert(df_walk(d, q));
        assert(q[0] == p[0]);
    } else {
        let q = seq![n, v];
        assert(df_walk(d, q));
        assert(q[0] == n);
    }
}

/// A set that holds the frontier of every start node and of each of its
/// own members holds the end of every frontier walk from a start node.
proof fn lemma_closed_marks(d: &DominanceFrontiers, nodes: Seq<usize>, src: spec_fn(usize) -> bool, p: Seq<usize>)
    requires
        df_walk(d, p),
        nodes.contains(p[0]),
        forall|w: usize, x: usize| (nodes.contains(w) || src(w)) && #[trigger] d.frontier_of(w).contains(x) ==> src(x),
    ensures
        src(p.last()),
    decreases p.len(),
{
    if p.len() == 2 {
        assert(d.frontier_of(p[0]).contains(p[1]));
        assert(p.last() == p[1]);
    } else {
        let q = p.drop_last();
        assert forall|i: int| 0 <= i < q.len() - 1 implies d.frontier_of(#[trigger] q[i]).contains(q[i + 1]) by {
            assert(q[i] == p[i] && q[i + 1] == p[i + 1]);
        }
        lemma_closed_marks(d, nodes, src, q);
        assert(q.last() == p[p.len() - 2]);
        assert(d.frontier_of(p[p.len() - 2]).contains(p[p.len() - 1]));
        assert(p.last() == p[p.len() - 1]);
    }
}

/// When every start node and every marked node has all its frontier marked,
/// and marked nodes are in the iterated frontier, the marks are exactly the
/// iterated frontier.
proof fn lemma_iterated_exact(d: &DominanceFrontiers, nodes: Seq<usize>, marked: Seq<bool>, total: nat)
    requires
        marked.len() == total,
        total == d.node_total(),
        forall|x: usize| x < total && #[trigger] marked[x as int] ==> in_iterated(d, nodes, x),
        forall|w: usize| (nodes.contains(w) || (w < total && marked[w as int])) ==>
            #[trigger] successors_marked(d, marked, w),
    ensures
        forall|v: usize| (v < total && marked[v as int]) <==> #[trigger] in_iterated(d, nodes, v),
{
    let src = |x: usize| x < total && marked[x as int];
    assert forall|w: usize, x: usize| (nodes.contains(w) || src(w)) && #[trigger] d.frontier_of(w).contains(x) implies src(x) by {
        assert(successors_marked(d, marked, w));
    }
    assert forall|v: usize| #[trigger] in_iterated(d, nodes, v) implies v < total && marked[v as int] by {
        let p = choose|p: Seq<usize>| #[trigger] df_walk(d, p) && nodes.contains(p[0]) && p.last() == v;
        lemma_closed_marks(d, nodes, src, p);
    }
}

/// The nodes below `k` with a non-empty frontier, ascending.
pub open spec fn nodes_with_nonempty(d: &DominanceFrontiers, k: nat) -> Seq<usize>
    decreases k,
{
    if k == 0 {
        Seq::empty()
    } else {
        let prev = nodes_with_nonempty(d, (k - 1) as nat);
        if d.frontier_of((k - 1) as usize).is_empty() {
            prev
        } else {
            prev.push((k - 1) as usize)
        }
    }
}

/// A child in the dominator tree has its parent as immediate dominator.
proof fn lemma_children_of(idoms: Seq<Option<usize>>, p: usize, k: nat, c: usize)
    requires
        k <= idoms.len(),
        idoms.len() <= usize::MAX,
        children_of(idoms, p, k).contains(c),
    ensures
        c < k,
        idom_of(idoms, c) == Some(p),
    decreases k,
{
    if k > 0 {
        let prev = children_of(idoms, p, (k - 1) as nat);
        if idoms[k - 1] == Some(p) {
            if c != (k - 1) as usize {
                let j = choose|j: int| 0 <= j < children_of(idoms, p, k).len() && children_of(idoms, p, k)[j] == c;
                assert(prev[j] == c);
                lemma_children_of(idoms, p, (k - 1) as nat, c);
            }
        } else {
            lemma_children_of(idoms, p, (k - 1) as nat, c);
        }
    }
}

/// Whatever a child dominates, its parent dominates too.
proof fn lemma_chain_through_parent(idoms: Seq<Option<usize>>, p: usize, child: usize, parent: usize)
    requires
        chains_end(idoms),
        dom_chain(idoms, p, idoms.len()).contains(child),
        idom_of(idoms, child) == Some(parent),
    ensures
        dom_chain(idoms, p, idoms.len()).contains(parent),
{
    if p < idoms.len() {
        lemma_chain_step(idoms, p, idoms.len(), child, parent);
    } else {
        if idoms.len() > 0 {
            assert(dom_chain(idoms, p, idoms.len()) == seq![p]);
        } else {
            assert(dom_chain(idoms, p, idoms.len()) == seq![p]);
        }
        assert(dom_chain(idoms, p, idoms.len())[0] == child);
    }
}

/// Convenience function to compute dominance frontiers (see `DominanceFrontiers::new`).
pub fn compute_dominance_frontiers(cfg: &Cfg, dominator_tree: DominatorTree) -> (r: DominanceFrontiers)
    ensures
        r.edges() == cfg_edges(*cfg),
        r.node_total() == cfg_blocks(*cfg).len(),
        r.tree() == dominator_tree,
{
    DominanceFrontiers::new(cfg, dominator_tree)
}

/// Read off the frontiers' own dominator tree, `v` is in the frontier of a
/// node `x` of the graph exactly when `x` dominates (in the tree) some
/// predecessor of `v` without strictly dominating `v`; a node outside the
/// graph has an empty frontier.
pub proof fn frontier_is_tree_frontier(f: DominanceFrontiers, x: usize, v: usize)
    ensures
        x < f.node_total() && v < f.node_total() ==> (f.frontier_of(x).contains(v) <==> (
            (exists|p: usize| #[trigger] has_edge(f.edges(), p, v)
                && dom_chain(f.tree().idoms(), p, f.tree().idoms().len()).contains(x))
            && !(x != v && dom_chain(f.tree().idoms(), v, f.tree().idoms().len()).contains(x)))),
        x >= f.node_total() ==> f.frontier_of(x) == Set::<usize>::empty(),
        v >= f.node_total() ==> !f.frontier_of(x).contains(v),
{
}

/// The frontier is the classical dominance frontier: for nodes `x` and `v`
/// reached from the entry, `v` is in the frontier of `x` exactly when `x`
/// dominates some reached predecessor of `v` but does not strictly
/// dominate `v`.
pub proof fn frontier_matches_paths(f: DominanceFrontiers, t: DominatorTree, x: usize, v: usize)
    requires
        f.tree() == t,
        is_dominator_tree_of(t, f.edges(), f.node_total()),
        edges_in_range(f.edges(), f.node_total()),
        x < f.node_total(),
        v < f.node_total(),
        reachable_from(f.edges(), 0, x),
        reachable_from(f.edges(), 0, v),
    ensures
        f.frontier_of(x).contains(v) <==> (
            (exists|p: usize| #[trigger] has_edge(f.edges(), p, v) && reachable_from(f.edges(), 0, p)
                && dominates_in(f.edges(), 0, x, p))
            && !strictly_dominates_in(f.edges(), 0, x, v)),
{
    let es = f.edges();
    let n = f.node_total();
    let idoms = t.idoms();
    dominator_tree_matches_paths(es, n, t, x, v);
    if f.frontier_of(x).contains(v) {
        let p = choose|p: usize| #[trigger] has_edge(es, p, v) && dom_chain(idoms, p, idoms.len()).contains(x);
        if p < n && reachable_from(es, 0, p) {
            dominator_tree_matches_paths(es, n, t, x, p);
        } else {
            if p < n {
                assert(idoms[p as int] is None);
            }
            assert(idom_of(idoms, p) is None);
            assert(dom_chain(idoms, p, idoms.len()) == seq![p]);
            assert(x == p);
        }
    }
    if (exists|p: usize| #[trigger] has_edge(es, p, v) && reachable_from(es, 0, p) && dominates_in(es, 0, x, p))
        && !strictly_dominates_in(es, 0, x, v) {
        let p = choose|p: usize| #[trigger] has_edge(es, p, v) && reachable_from(es, 0, p) && dominates_in(es, 0, x, p);
        let k = choose|k: int| 0 <= k < es.len() && (#[trigger] es[k]).0 == p && es[k].1 == v;
        assert(p < n);
        dominator_tree_matches_paths(es, n, t, x, p);
        assert(in_df(es, idoms, x, v));
    }
}

} // verus!
