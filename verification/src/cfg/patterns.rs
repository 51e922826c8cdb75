//! Branching patterns recovered from CFG shapes: if/else diamonds and
//! multi-way matches.

use vstd::prelude::*;
use crate::cfg::{BasicBlock, Terminator};
use crate::cfg::edge::EdgeType;
use crate::cfg::analysis::{first_with_id, is_branch_point, node_from_id};
use crate::cfg::graph::{lemma_same_multiset, neighbor_order, found_edge, Cfg, CfgEdge, cfg_blocks, cfg_edges, node_count, block, cfg_edge, successors, find_edge,
    out_nbrs, has_edge, is_walk, walk_between, lemma_out_nbrs_contains};
use crate::cfg::reachability::{count_unmarked, lemma_count_unmarked_update};

verus! {

/// Classification of a node's branching structure.
#[derive(Debug, Clone, Copy, PartialEq, Eq, Structural)]
pub enum BranchType {
    /// No branching (0 or 1 successor): linear control flow
    Linear,
    /// Two-way branch whose arms merge again (if/else)
    Conditional,
    /// Multi-way branch of a switch (match)
    MultiWay,
    /// Any other branching
    Unknown,
}

/// An if/else structure: a branch point with two successors.
#[derive(Debug, Clone, Copy, PartialEq, Eq, Structural)]
pub struct IfElsePattern {
    /// Condition node (branch point)
    pub condition: usize,
    /// True branch target
    pub true_branch: usize,
    /// False branch target
    pub false_branch: usize,
    /// Where the branches reconverge; none when they do not (early return)
    pub merge_point: Option<usize>,
}

impl IfElsePattern {
    /// The branches merge again.
    pub fn has_else(&self) -> (r: bool)
        ensures
            r == self.merge_point is Some,
    {
        self.merge_point.is_some()
    }

    /// Number of blocks in the pattern: the two branches, and the merge
    /// point when there is one.
    pub fn size(&self) -> (r: usize)
        ensures
            r == 2 + if self.merge_point is Some { 1int } else { 0int },
    {
        2 + if self.merge_point.is_some() { 1 } else { 0 }
    }
}

/// A match/switch structure: a switch with at least two targets.
#[derive(Debug, Clone)]
pub struct MatchPattern {
    /// Switch node
    pub switch_node: usize,
    /// Nodes of the branch targets (excluding the default)
    pub targets: Vec<usize>,
    /// Node of the default branch
    pub otherwise: usize,
}

impl MatchPattern {
    /// Number of branches, the default included.
    pub fn branch_count(&self) -> (r: usize)
        requires
            self.targets@.len() < usize::MAX,
        ensures
            r == self.targets@.len() + 1,
    {
        self.targets.len() + 1
    }

    /// Whether the match has a default branch: always, in this representation.
    pub fn has_explicit_default(&self) -> (r: bool)
        ensures
            r,
    {
        true
    }
}

/// A walk leads from `start` to `x` in at least one step, and no node after
/// `start` is `a` or `b`.
pub open spec fn reaches_beyond(es: Seq<CfgEdge>, start: usize, x: usize, a: usize, b: usize) -> bool {
    exists|p: Seq<usize>| #[trigger] walk_between(es, p, start, x) && p.len() >= 2 && !p.skip(1).contains(a)
        && !p.skip(1).contains(b)
}

/// `x` is where branches `n1` and `n2` reconverge: both reach it without
/// passing through either branch node again.
pub open spec fn merges_at(es: Seq<CfgEdge>, n1: usize, n2: usize, x: usize) -> bool {
    reaches_beyond(es, n1, x, n1, n2) && reaches_beyond(es, n2, x, n1, n2)
}

/// Every successor of `w` other than `a` and `b` is marked.
pub open spec fn succs_marked_but(es: Seq<CfgEdge>, marked: Seq<bool>, a: usize, b: usize, w: usize) -> bool {
    forall|x: usize| #[trigger] out_nbrs(es, w).contains(x) ==> x == a || x == b || (x < marked.len() && marked[x as int])
}

proof fn lemma_succs_marked_grow(es: Seq<CfgEdge>, m1: Seq<bool>, m2: Seq<bool>, a: usize, b: usize, w: usize)
    requires
        succs_marked_but(es, m1, a, b, w),
        m1.len() == m2.len(),
        forall|i: int| 0 <= i < m1.len() && m1[i] ==> m2[i],
    ensures
        succs_marked_but(es, m2, a, b, w),
{
    assert forall|x: usize| #[trigger] out_nbrs(es, w).contains(x) implies x == a || x == b || (x < m2.len() && m2[x as int]) by {
        if x != a && x != b {
            assert(m1[x as int]);
        }
    }
}

/// A walk whose later nodes avoid `a` and `b`, starting in a set closed
/// under such steps, ends in the set.
proof fn lemma_forward_closed(es: Seq<CfgEdge>, a: usize, b: usize, s: spec_fn(usize) -> bool, p: Seq<usize>)
    requires
        is_walk(es, p),
        !p.skip(1).contains(a),
        !p.skip(1).contains(b),
        s(p[0]),
        forall|i: int| 0 <= i < es.len() && s((#[trigger] es[i]).0) && es[i].1 != a && es[i].1 != b ==> s(es[i].1),
    ensures
        s(p.last()),
    decreases p.len(),
{
    if p.len() > 1 {
        let q = p.drop_last();
        assert(is_walk(es, q)) by {
            assert forall|i: int| 0 <= i < q.len() - 1 implies has_edge(es, #[trigger] q[i], q[i + 1]) by {
                assert(q[i] == p[i] && q[i + 1] == p[i + 1]);
                assert(has_edge(es, p[i], p[i + 1]));
            }
        }
        assert forall|x: usize| q.skip(1).contains(x) implies p.skip(1).contains(x) by {
            let j = choose|j: int| 0 <= j < q.skip(1).len() && q.skip(1)[j] == x;
            assert(p.skip(1)[j] == x);
        }
        lemma_forward_closed(es, a, b, s, q);
        let m = p.len() - 2;
        assert(q.last() == p[m]);
        assert(has_edge(es, p[m], p[m + 1]));
        let k = choose|k: int| 0 <= k < es.len() && (#[trigger] es[k]).0 == p[m] && es[k].1 == p[m + 1];
        assert(p.skip(1)[m] == p[m + 1]);
        assert(p[m + 1] != a && p[m + 1] != b);
        assert(p.last() == p[m + 1]);
    }
}

/// Flags of the nodes `start` reaches in at least one step without entering
/// `a` or `b` (see `reaches_beyond`).
fn forward_flags(cfg: &Cfg, start: usize, a: usize, b: usize) -> (marked: Vec<bool>)
    requires
        start < cfg_blocks(*cfg).len(),
    ensures
        marked.len() == cfg_blocks(*cfg).len(),
        forall|i: int| 0 <= i < marked.len() ==>
            (#[trigger] marked@[i] <==> reaches_beyond(cfg_edges(*cfg), start, i as usize, a, b)),
        forall|i: int| 0 <= i < marked.len() && marked@[i] ==> i != a && i != b,
{
    let n = node_count(cfg);
    let ghost es = cfg_edges(*cfg);
    let mut marked: Vec<bool> = Vec::new();
    let mut k: usize = 0;
    while k < n
        invariant
            k <= n,
            marked.len() == k,
            forall|i: int| 0 <= i < k ==> !marked@[i],
        decreases n - k,
    {
        marked.push(false);
        k = k + 1;
    }
    let mut work: Vec<usize> = Vec::new();
    let first = successors(cfg, start);
    proof {
        lemma_same_multiset(first@, out_nbrs(es, start));
    }
    let mut j: usize = 0;
    while j < first.len()
        invariant
            n == cfg_blocks(*cfg).len(),
            es == cfg_edges(*cfg),
            start < n,
            forall|x: usize| #![trigger first@.contains(x)] #![trigger out_nbrs(es, start).contains(x)]
                first@.contains(x) <==> out_nbrs(es, start).contains(x),
            forall|q: int| 0 <= q < first.len() ==> (#[trigger] first@[q]) < n,
            j <= first.len(),
            marked.len() == n,
            forall|q: int| 0 <= q < j ==> (#[trigger] first@[q]) == a || first@[q] == b || marked@[first@[q] as int],
            forall|q: int| 0 <= q < work.len() ==> (#[trigger] work@[q]) < n && marked@[work@[q] as int],
            forall|i: usize| i < n && #[trigger] marked@[i as int] ==> reaches_beyond(es, start, i, a, b),
            forall|i: usize| i < n && #[trigger] marked@[i as int] ==> i != a && i != b,
            forall|w: usize| w < n && #[trigger] marked@[w as int] ==> work@.contains(w),
        decreases first.len() - j,
    {
        let x = first[j];
        if x != a && x != b && !marked[x] {
            proof {
                assert(first@.contains(x)) by { assert(first@[j as int] == x); }
                lemma_out_nbrs_contains(es, start, x);
                let p = seq![start, x];
                assert(walk_between(es, p, start, x));
                assert(p.skip(1) =~= seq![x]);
                assert(reaches_beyond(es, start, x, a, b));
            }
            let ghost before_work = work@;
            marked.set(x, true);
            work.push(x);
            proof {
                assert forall|w: usize| w < n && #[trigger] marked@[w as int] implies work@.contains(w) by {
                    if w == x {
                        assert(work@[work.len() - 1] == x);
                    } else {
                        let q = choose|q: int| 0 <= q < before_work.len() && before_work[q] == w;
                        assert(work@[q] == w);
                    }
                }
            }
        }
        j = j + 1;
    }
    proof {
        assert forall|x: usize| #[trigger] out_nbrs(es, start).contains(x) implies
            x == a || x == b || (x < marked@.len() && marked@[x as int]) by {
            let k = choose|k: int| 0 <= k < first@.len() && first@[k] == x;
        }
        assert forall|w: usize| w < n && #[trigger] marked@[w as int] implies
            work@.contains(w) || succs_marked_but(es, marked@, a, b, w) by {
        }
    }
    while work.len() > 0
        invariant
            n == cfg_blocks(*cfg).len(),
            es == cfg_edges(*cfg),
            start < n,
            marked.len() == n,
            succs_marked_but(es, marked@, a, b, start),
            forall|q: int| 0 <= q < work.len() ==> (#[trigger] work@[q]) < n && marked@[work@[q] as int],
            forall|i: usize| i < n && #[trigger] marked@[i as int] ==> reaches_beyond(es, start, i, a, b),
            forall|i: usize| i < n && #[trigger] marked@[i as int] ==> i != a && i != b,
            forall|w: usize| w < n && #[trigger] marked@[w as int] ==>
                work@.contains(w) || succs_marked_but(es, marked@, a, b, w),
        decreases 2 * count_unmarked(marked@) + work.len(),
    {
        let ghost measure = 2 * count_unmarked(marked@) + work.len();
        let ghost old_work = work@;
        let u = work.pop().unwrap();
        proof {
            assert(old_work == work@.push(u));
            assert forall|w: usize| w < n && w != u && #[trigger] marked@[w as int] implies
                work@.contains(w) || succs_marked_but(es, marked@, a, b, w) by {
                if old_work.contains(w) {
                    let q = choose|q: int| 0 <= q < old_work.len() && old_work[q] == w;
                    assert(work@[q] == w);
                }
            }
        }
        let succs = successors(cfg, u);
        proof {
            lemma_same_multiset(succs@, out_nbrs(es, u));
        }
        let mut j: usize = 0;
        while j < succs.len()
            invariant
                n == cfg_blocks(*cfg).len(),
                es == cfg_edges(*cfg),
                start < n,
                u < n,
                marked@[u as int],
                forall|x: usize| #![trigger succs@.contains(x)] #![trigger out_nbrs(es, u).contains(x)]
                    succs@.contains(x) <==> out_nbrs(es, u).contains(x),
                forall|k: int| 0 <= k < succs.len() ==> (#[trigger] succs@[k]) < n,
                j <= succs.len(),
                marked.len() == n,
                succs_marked_but(es, marked@, a, b, start),
                2 * count_unmarked(marked@) + work.len() < measure,
                forall|k: int| 0 <= k < j ==> (#[trigger] succs@[k]) == a || succs@[k] == b || marked@[succs@[k] as int],
                forall|q: int| 0 <= q < work.len() ==> (#[trigger] work@[q]) < n && marked@[work@[q] as int],
                forall|i: usize| i < n && #[trigger] marked@[i as int] ==> reaches_beyond(es, start, i, a, b),
                forall|i: usize| i < n && #[trigger] marked@[i as int] ==> i != a && i != b,
                forall|w: usize| w < n && w != u && #[trigger] marked@[w as int] ==>
                    work@.contains(w) || succs_marked_but(es, marked@, a, b, w),
            decreases succs.len() - j,
        {
            let x = succs[j];
            if x != a && x != b && !marked[x] {
                proof {
                    lemma_count_unmarked_update(marked@, x as int);
                    assert(reaches_beyond(es, start, u, a, b));
                    let p = choose|p: Seq<usize>| #[trigger] walk_between(es, p, start, u) && p.len() >= 2
                        && !p.skip(1).contains(a) && !p.skip(1).contains(b);
                    assert(succs@.contains(x)) by { assert(succs@[j as int] == x); }
                    lemma_out_nbrs_contains(es, u, x);
                    let q = p.push(x);
                    assert forall|i: int| 0 <= i < q.len() - 1 implies has_edge(es, #[trigger] q[i], q[i + 1]) by {
                        if i < p.len() - 1 {
                            assert(q[i] == p[i] && q[i + 1] == p[i + 1]);
                        } else {
                            assert(q[i] == u && q[i + 1] == x);
                        }
                    }
                    assert(q.skip(1) =~= p.skip(1).push(x));
                    assert(!q.skip(1).contains(a)) by {
                        if q.skip(1).contains(a) {
                            let j2 = choose|j2: int| 0 <= j2 < q.skip(1).len() && q.skip(1)[j2] == a;
                            if j2 < p.skip(1).len() {
                                assert(p.skip(1)[j2] == a);
                            }
                        }
                    }
                    assert(!q.skip(1).contains(b)) by {
                        if q.skip(1).contains(b) {
                            let j2 = choose|j2: int| 0 <= j2 < q.skip(1).len() && q.skip(1)[j2] == b;
                            if j2 < p.skip(1).len() {
                                assert(p.skip(1)[j2] == b);
                            }
                        }
                    }
                    assert(walk_between(es, q, start, x));
                    assert(reaches_beyond(es, start, x, a, b));
                }
                let ghost before = marked@;
                let ghost before_work = work@;
                marked.set(x, true);
                work.push(x);
                proof {
                    lemma_succs_marked_grow(es, before, marked@, a, b, start);
                    assert forall|w: usize| w < n && w != u && #[trigger] marked@[w as int] implies
                        work@.contains(w) || succs_marked_but(es, marked@, a, b, w) by {
                        if w == x {
                            assert(work@[work.len() - 1] == x);
                        } else {
                            assert(before[w as int]);
                            if before_work.contains(w) {
                                let q = choose|q: int| 0 <= q < before_work.len() && before_work[q] == w;
                                assert(work@[q] == w);
                            } else {
                                lemma_succs_marked_grow(es, before, marked@, a, b, w);
                            }
                        }
                    }
                }
            }
            j = j + 1;
        }
        proof {
            assert forall|x: usize| #[trigger] out_nbrs(es, u).contains(x) implies
                x == a || x == b || (x < marked@.len() && marked@[x as int]) by {
                let k = choose|k: int| 0 <= k < succs@.len() && succs@[k] == x;
            }
            assert(succs_marked_but(es, marked@, a, b, u));
        }
    }
    proof {
        let s = |x: usize| x < n && marked@[x as int];
        assert forall|i: int| 0 <= i < es.len() && s((#[trigger] es[i]).0) && es[i].1 != a && es[i].1 != b implies s(es[i].1) by {
            let u = es[i].0;
            let v = es[i].1;
            assert(has_edge(es, u, v));
            lemma_out_nbrs_contains(es, u, v);
            assert(!work@.contains(u));
            assert(succs_marked_but(es, marked@, a, b, u));
            assert(out_nbrs(es, u).contains(v));
        }
        assert forall|i: int| 0 <= i < marked.len() implies
            (#[trigger] marked@[i] <==> reaches_beyond(es, start, i as usize, a, b)) by {
            let t = i as usize;
            if marked@[i] {
                assert(marked@[t as int]);
            }
            if reaches_beyond(es, start, t, a, b) {
                let p = choose|p: Seq<usize>| #[trigger] walk_between(es, p, start, t) && p.len() >= 2
                    && !p.skip(1).contains(a) && !p.skip(1).contains(b);
                lemma_walk_tail(es, p);
                let q = p.skip(1);
                assert(has_edge(es, p[0], p[1]));
                lemma_out_nbrs_contains(es, start, p[1]);
                assert(q[0] == p[1]);
                assert(p[1] != a && p[1] != b) by {
                    assert(q[0] == p[1]);
                }
                assert(s(q[0]));
                assert forall|x: usize| q.skip(1).contains(x) implies p.skip(1).contains(x) by {
                    let j = choose|j: int| 0 <= j < q.skip(1).len() && q.skip(1)[j] == x;
                    assert(p.skip(1)[j + 1] == x);
                }
                lemma_forward_closed(es, a, b, s, q);
                assert(q.last() == t);
            }
        }
        assert forall|i: int| 0 <= i < marked.len() && marked@[i] implies i != a && i != b by {
            assert(marked@[(i as usize) as int]);
        }
    }
    marked
}

/// The walk after its first node is still a walk.
proof fn lemma_walk_tail(es: Seq<CfgEdge>, p: Seq<usize>)
    requires
        is_walk(es, p),
        p.len() >= 2,
    ensures
        is_walk(es, p.skip(1)),
        p.skip(1).last() == p.last(),
{
    let q = p.skip(1);
    assert forall|i: int| 0 <= i < q.len() - 1 implies has_edge(es, #[trigger] q[i], q[i + 1]) by {
        assert(q[i] == p[i + 1] && q[i + 1] == p[i + 2]);
        assert(has_edge(es, p[i + 1], p[i + 2]));
    }
}

/// Where two branches reconverge: the node of least index that both reach
/// without passing through either of them again; none when they do not
/// meet (an early return, say).
pub fn find_common_successor(cfg: &Cfg, n1: usize, n2: usize) -> (r: Option<usize>)
    requires
        n1 < cfg_blocks(*cfg).len(),
        n2 < cfg_blocks(*cfg).len(),
    ensures
        r is None <==> forall|x: usize| x < cfg_blocks(*cfg).len() ==> !merges_at(cfg_edges(*cfg), n1, n2, x),
        r matches Some(x) ==> x < cfg_blocks(*cfg).len() && merges_at(cfg_edges(*cfg), n1, n2, x)
            && x != n1 && x != n2
            && forall|y: usize| y < x ==> !merges_at(cfg_edges(*cfg), n1, n2, y),
{
    let n = node_count(cfg);
    let ghost es = cfg_edges(*cfg);
    let from1 = forward_flags(cfg, n1, n1, n2);
    let from2 = forward_flags(cfg, n2, n1, n2);
    let mut x: usize = 0;
    while x < n
        invariant
            n == cfg_blocks(*cfg).len(),
            es == cfg_edges(*cfg),
            x <= n,
            from1.len() == n,
            from2.len() == n,
            forall|i: int| 0 <= i < n ==> (#[trigger] from1@[i] <==> reaches_beyond(es, n1, i as usize, n1, n2)),
            forall|i: int| 0 <= i < n ==> (#[trigger] from2@[i] <==> reaches_beyond(es, n2, i as usize, n1, n2)),
            forall|i: int| 0 <= i < n && from1@[i] ==> i != n1 && i != n2,
            forall|y: usize| y < x ==> !merges_at(es, n1, n2, y),
        decreases n - x,
    {
        if from1[x] && from2[x] {
            proof {
                assert(from1@[x as int] && from2@[x as int]);
                assert(merges_at(es, n1, n2, x));
            }
            return Some(x);
        }
        x = x + 1;
    }
    None
}

/// The successor count of a node, and whether its arms merge.
pub open spec fn branch_class(cfg: Cfg, node: usize) -> BranchType {
    let es = cfg_edges(cfg);
    let succs = neighbor_order(cfg, node);
    if node >= cfg_blocks(cfg).len() || succs.len() <= 1 {
        BranchType::Linear
    } else if succs.len() == 2 {
        if exists|x: usize| x < cfg_blocks(cfg).len() && merges_at(es, succs[0], succs[1], x) {
            BranchType::Conditional
        } else {
            BranchType::Unknown
        }
    } else if cfg_blocks(cfg)[node as int].terminator is SwitchInt {
        BranchType::MultiWay
    } else {
        BranchType::Unknown
    }
}

/// Classify a node's branching: linear with at most one successor;
/// conditional with two whose arms merge, unknown when they do not;
/// multi-way with three or more under a switch, unknown otherwise.
pub fn classify_branch(cfg: &Cfg, node: usize) -> (r: BranchType)
    ensures
        r == branch_class(*cfg, node),
{
    let n = node_count(cfg);
    if node >= n {
        return BranchType::Linear;
    }
    let succs = successors(cfg, node);
    proof {
        lemma_same_multiset(succs@, out_nbrs(cfg_edges(*cfg), node));
    }
    if succs.len() <= 1 {
        BranchType::Linear
    } else if succs.len() == 2 {
        match find_common_successor(cfg, succs[0], succs[1]) {
            Some(_) => BranchType::Conditional,
            None => BranchType::Unknown,
        }
    } else {
        match block(cfg, node).terminator {
            Terminator::SwitchInt { .. } => BranchType::MultiWay,
            _ => BranchType::Unknown,
        }
    }
}

/// The kind of the edge from `from` to `to` that petgraph's `find_edge`
/// finds (see `found_edge`); `None` when there is no such edge.
pub open spec fn found_edge_kind(cfg: Cfg, from: usize, to: usize) -> Option<EdgeType> {
    match found_edge(cfg, from, to) {
        Some(e) => Some(cfg_edges(cfg)[e as int].2),
        None => None,
    }
}

/// The two successors as (true, false): a true-branch edge to the first or
/// the second decides; otherwise a false-branch edge to the first or the
/// second; otherwise they stay in order.
pub open spec fn ordered_branches(k1: Option<EdgeType>, k2: Option<EdgeType>, s1: usize, s2: usize) -> (usize, usize) {
    if k1 == Some(EdgeType::TrueBranch) {
        (s1, s2)
    } else if k2 == Some(EdgeType::TrueBranch) {
        (s2, s1)
    } else if k1 == Some(EdgeType::FalseBranch) {
        (s2, s1)
    } else if k2 == Some(EdgeType::FalseBranch) {
        (s1, s2)
    } else {
        (s1, s2)
    }
}

fn edge_kind_between(cfg: &Cfg, from: usize, to: usize) -> (r: Option<EdgeType>)
    requires
        from < cfg_blocks(*cfg).len(),
        to < cfg_blocks(*cfg).len(),
    ensures
        r == found_edge_kind(*cfg, from, to),
{
    match find_edge(cfg, from, to) {
        Some(e) => {
            let (_a, _b, kind) = cfg_edge(cfg, e);
            Some(kind)
        },
        None => None,
    }
}

/// Order the successors as (true, false) by the kinds of their edges.
fn order_branches_by_edge_type(cfg: &Cfg, from: usize, succ1: usize, succ2: usize) -> (r: (usize, usize))
    requires
        from < cfg_blocks(*cfg).len(),
        succ1 < cfg_blocks(*cfg).len(),
        succ2 < cfg_blocks(*cfg).len(),
    ensures
        r == ordered_branches(found_edge_kind(*cfg, from, succ1),
            found_edge_kind(*cfg, from, succ2), succ1, succ2),
{
    let k1 = edge_kind_between(cfg, from, succ1);
    let k2 = edge_kind_between(cfg, from, succ2);
    if k1 == Some(EdgeType::TrueBranch) {
        (succ1, succ2)
    } else if k2 == Some(EdgeType::TrueBranch) {
        (succ2, succ1)
    } else if k1 == Some(EdgeType::FalseBranch) {
        (succ2, succ1)
    } else if k2 == Some(EdgeType::FalseBranch) {
        (succ1, succ2)
    } else {
        (succ1, succ2)
    }
}

/// The pattern of a two-way node (see `detect_if_else_patterns`).
pub open spec fn if_else_at(cfg: Cfg, node: usize, p: IfElsePattern) -> bool {
    let es = cfg_edges(cfg);
    let n = cfg_blocks(cfg).len();
    let succs = neighbor_order(cfg, node);
    let (t, f) = ordered_branches(found_edge_kind(cfg, node, succs[0]), found_edge_kind(cfg, node, succs[1]),
        succs[0], succs[1]);
    &&& p.condition == node
    &&& p.true_branch == t
    &&& p.false_branch == f
    &&& match p.merge_point {
        Some(x) => x < n && merges_at(es, succs[0], succs[1], x)
            && forall|y: usize| y < x ==> !merges_at(es, succs[0], succs[1], y),
        None => forall|x: usize| x < n ==> !merges_at(es, succs[0], succs[1], x),
    }
}

/// The branches of a detected if/else follow the kinds of the condition's
/// edges, whatever the node indices of its two successors: they are the two
/// successors, one each; when an edge to either successor is a true branch,
/// `true_branch` is reached by a true-branch edge; otherwise, when an edge to
/// either is a false branch, `false_branch` is reached by a false-branch edge.
pub proof fn if_else_branches_follow_edge_kinds(cfg: Cfg, node: usize, p: IfElsePattern)
    requires
        if_else_at(cfg, node, p),
    ensures
        ({
            let succs = neighbor_order(cfg, node);
            let k0 = found_edge_kind(cfg, node, succs[0]);
            let k1 = found_edge_kind(cfg, node, succs[1]);
            &&& (p.true_branch == succs[0] && p.false_branch == succs[1])
                || (p.true_branch == succs[1] && p.false_branch == succs[0])
            &&& (k0 == Some(EdgeType::TrueBranch) || k1 == Some(EdgeType::TrueBranch))
                ==> found_edge_kind(cfg, node, p.true_branch) == Some(EdgeType::TrueBranch)
            &&& (k0 != Some(EdgeType::TrueBranch) && k1 != Some(EdgeType::TrueBranch)
                && (k0 == Some(EdgeType::FalseBranch) || k1 == Some(EdgeType::FalseBranch)))
                ==> found_edge_kind(cfg, node, p.false_branch) == Some(EdgeType::FalseBranch)
        }),
{
}

/// A node heads an if/else: exactly two successors, and not a switch with
/// several targets (that is a match).
pub open spec fn is_if_else_node(cfg: Cfg, node: usize) -> bool {
    &&& node < cfg_blocks(cfg).len()
    &&& out_nbrs(cfg_edges(cfg), node).len() == 2
    &&& !(cfg_blocks(cfg)[node as int].terminator matches Terminator::SwitchInt { targets, .. } && targets@.len() > 1)
}

/// The if/else nodes below `k`, in node order.
pub open spec fn if_else_nodes(cfg: Cfg, k: nat) -> Seq<usize>
    decreases k,
{
    if k == 0 {
        Seq::empty()
    } else {
        let prev = if_else_nodes(cfg, (k - 1) as nat);
        if is_if_else_node(cfg, (k - 1) as usize) { prev.push((k - 1) as usize) } else { prev }
    }
}

/// Detect if/else patterns: one per node with exactly two successors that
/// is not a multi-target switch, in node order, with its true and false
/// branch and the point where they merge (if any).
pub fn detect_if_else_patterns(cfg: &Cfg) -> (r: Vec<IfElsePattern>)
    ensures
        r@.len() == if_else_nodes(*cfg, cfg_blocks(*cfg).len()).len(),
        forall|i: int| 0 <= i < r@.len() ==>
            if_else_at(*cfg, if_else_nodes(*cfg, cfg_blocks(*cfg).len())[i], #[trigger] r@[i]),
{
    let n = node_count(cfg);
    let ghost es = cfg_edges(*cfg);
    let mut patterns: Vec<IfElsePattern> = Vec::new();
    let mut node: usize = 0;
    while node < n
        invariant
            n == cfg_blocks(*cfg).len(),
            es == cfg_edges(*cfg),
            node <= n,
            patterns@.len() == if_else_nodes(*cfg, node as nat).len(),
            forall|i: int| 0 <= i < patterns@.len() ==>
                if_else_at(*cfg, if_else_nodes(*cfg, node as nat)[i], #[trigger] patterns@[i]),
        decreases n - node,
    {
        let ghost prev = if_else_nodes(*cfg, node as nat);
        if is_branch_point(cfg, node) {
            let succs = successors(cfg, node);
            proof {
                lemma_same_multiset(succs@, out_nbrs(es, node));
            }
            if succs.len() == 2 {
                let multi = match &block(cfg, node).terminator {
                    Terminator::SwitchInt { targets, .. } => targets.len() > 1,
                    _ => false,
                };
                if !multi {
                    let merge_point = find_common_successor(cfg, succs[0], succs[1]);
                    let (true_branch, false_branch) = order_branches_by_edge_type(cfg, node, succs[0], succs[1]);
                    patterns.push(IfElsePattern { condition: node, true_branch, false_branch, merge_point });
                    proof {
                        assert(if_else_nodes(*cfg, (node + 1) as nat) == prev.push(node));
                    }
                }
            }
        }
        node = node + 1;
    }
    patterns
}

/// The nodes among `targets` in order, each the first node holding that
/// block id; ids no node holds are dropped.
pub open spec fn target_nodes(bs: Seq<BasicBlock>, targets: Seq<usize>) -> Seq<usize>
    decreases targets.len(),
{
    if targets.len() == 0 {
        Seq::empty()
    } else {
        let prev = target_nodes(bs, targets.drop_last());
        match first_with_id(bs, targets.last(), bs.len()) {
            Some(x) => prev.push(x),
            None => prev,
        }
    }
}

/// A node heads a match: a switch with at least two targets whose default
/// block is in the graph.
pub open spec fn is_match_node(bs: Seq<BasicBlock>, node: usize) -> bool {
    &&& node < bs.len()
    &&& bs[node as int].terminator matches Terminator::SwitchInt { targets, otherwise }
        && targets@.len() >= 2 && first_with_id(bs, otherwise, bs.len()) is Some
}

/// The match nodes below `k`, in node order.
pub open spec fn match_nodes(bs: Seq<BasicBlock>, k: nat) -> Seq<usize>
    decreases k,
{
    if k == 0 {
        Seq::empty()
    } else {
        let prev = match_nodes(bs, (k - 1) as nat);
        if is_match_node(bs, (k - 1) as usize) { prev.push((k - 1) as usize) } else { prev }
    }
}

/// The pattern of a match node.
pub open spec fn match_at(bs: Seq<BasicBlock>, node: usize, p: MatchPattern) -> bool {
    &&& p.switch_node == node
    &&& bs[node as int].terminator matches Terminator::SwitchInt { targets, otherwise }
        && p.targets@ == target_nodes(bs, targets@)
        && first_with_id(bs, otherwise, bs.len()) == Some(p.otherwise)
}

fn nodes_of_targets(cfg: &Cfg, targets: &Vec<usize>) -> (r: Vec<usize>)
    ensures
        r@ == target_nodes(cfg_blocks(*cfg), targets@),
{
    let mut r: Vec<usize> = Vec::new();
    let mut i: usize = 0;
    while i < targets.len()
        invariant
            i <= targets.len(),
            r@ == target_nodes(cfg_blocks(*cfg), targets@.take(i as int)),
        decreases targets.len() - i,
    {
        proof {
            assert(targets@.take(i + 1).drop_last() =~= targets@.take(i as int));
        }
        match node_from_id(cfg, targets[i]) {
            Some(x) => r.push(x),
            None => {},
        }
        i = i + 1;
    }
    proof {
        assert(targets@.take(targets@.len() as int) =~= targets@);
    }
    r
}

/// Detect match patterns: one per switch with at least two targets whose
/// default block is in the graph, in node order; targets whose block is
/// missing are dropped.
pub fn detect_match_patterns(cfg: &Cfg) -> (r: Vec<MatchPattern>)
    ensures
        r@.len() == match_nodes(cfg_blocks(*cfg), cfg_blocks(*cfg).len()).len(),
        forall|i: int| 0 <= i < r@.len() ==>
            match_at(cfg_blocks(*cfg), match_nodes(cfg_blocks(*cfg), cfg_blocks(*cfg).len())[i], #[trigger] r@[i]),
{
    let n = node_count(cfg);
    let ghost bs = cfg_blocks(*cfg);
    let mut patterns: Vec<MatchPattern> = Vec::new();
    let mut node: usize = 0;
    while node < n
        invariant
            n == bs.len(),
            bs == cfg_blocks(*cfg),
            node <= n,
            patterns@.len() == match_nodes(bs, node as nat).len(),
            forall|i: int| 0 <= i < patterns@.len() ==>
                match_at(bs, match_nodes(bs, node as nat)[i], #[trigger] patterns@[i]),
        decreases n - node,
    {
        let ghost prev = match_nodes(bs, node as nat);
        match &block(cfg, node).terminator {
            Terminator::SwitchInt { targets, otherwise } => {
                if targets.len() >= 2 {
                    let target_indices = nodes_of_targets(cfg, targets);
                    match node_from_id(cfg, *otherwise) {
                        Some(otherwise_idx) => {
                            patterns.push(MatchPattern { switch_node: node, targets: target_indices, otherwise: otherwise_idx });
                            proof {
                                assert(match_nodes(bs, (node + 1) as nat) == prev.push(node));
                            }
                        },
                        None => {},
                    }
                }
            },
            _ => {},
        }
        node = node + 1;
    }
    patterns
}

/// Both kinds of patterns (see `detect_if_else_patterns` and
/// `detect_match_patterns`).
pub fn detect_all_patterns(cfg: &Cfg) -> (r: (Vec<IfElsePattern>, Vec<MatchPattern>))
    ensures
        r.0@.len() == if_else_nodes(*cfg, cfg_blocks(*cfg).len()).len(),
        forall|i: int| 0 <= i < r.0@.len() ==>
            if_else_at(*cfg, if_else_nodes(*cfg, cfg_blocks(*cfg).len())[i], #[trigger] r.0@[i]),
        r.1@.len() == match_nodes(cfg_blocks(*cfg), cfg_blocks(*cfg).len()).len(),
        forall|i: int| 0 <= i < r.1@.len() ==>
            match_at(cfg_blocks(*cfg), match_nodes(cfg_blocks(*cfg), cfg_blocks(*cfg).len())[i], #[trigger] r.1@[i]),
{
    (detect_if_else_patterns(cfg), detect_match_patterns(cfg))
}

} // verus!
