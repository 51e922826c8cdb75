//! Reachability from the entry block.

use vstd::prelude::*;
use crate::cfg::graph::{lemma_same_multiset, Cfg, CfgEdge, cfg_blocks, cfg_edges, node_count, successors, out_nbrs,
    has_edge, is_walk, walk_between, reachable_from, lemma_out_nbrs_contains};

verus! {

/// Number of `false` entries.
pub open spec fn count_unmarked(s: Seq<bool>) -> nat
    decreases s.len(),
{
    if s.len() == 0 {
        0
    } else {
        count_unmarked(s.drop_last()) + if s.last() { 0nat } else { 1nat }
    }
}

/// Marking one more entry lowers the count of unmarked entries by one.
pub proof fn lemma_count_unmarked_update(s: Seq<bool>, i: int)
    requires
        0 <= i < s.len(),
        !s[i],
    ensures
        count_unmarked(s.update(i, true)) + 1 == count_unmarked(s),
    decreases s.len(),
{
    let t = s.update(i, true);
    if i == s.len() - 1 {
        assert(t.drop_last() == s.drop_last());
    } else {
        assert(t.drop_last() == s.drop_last().update(i, true));
        lemma_count_unmarked_update(s.drop_last(), i);
    }
}

/// A walk stays a walk when one more edge is appended.
pub proof fn lemma_walk_push(es: Seq<CfgEdge>, p: Seq<usize>, x: usize)
    requires
        is_walk(es, p),
        has_edge(es, p.last(), x),
    ensures
        is_walk(es, p.push(x)),
        p.push(x).last() == x,
        p.push(x)[0] == p[0],
{
    let q = p.push(x);
    assert forall|i: int| 0 <= i < q.len() - 1 implies has_edge(es, #[trigger] q[i], q[i + 1]) by {
        if i < p.len() - 1 {
            assert(q[i] == p[i] && q[i + 1] == p[i + 1]);
        } else {
            assert(q[i] == p.last());
        }
    }
}

/// Any set that holds the root and is closed under edges holds every node
/// the root reaches.
pub proof fn lemma_closed_set_holds_reachable(es: Seq<CfgEdge>, r: usize, s: spec_fn(usize) -> bool, p: Seq<usize>)
    requires
        s(r),
        forall|i: int| 0 <= i < es.len() && s((#[trigger] es[i]).0) ==> s(es[i].1),
        is_walk(es, p),
        p[0] == r,
    ensures
        s(p.last()),
    decreases p.len(),
{
    if p.len() > 1 {
        let q = p.drop_last();
        assert forall|i: int| 0 <= i < q.len() - 1 implies has_edge(es, #[trigger] q[i], q[i + 1]) by {
            assert(q[i] == p[i] && q[i + 1] == p[i + 1]);
        }
        lemma_closed_set_holds_reachable(es, r, s, q);
        assert(has_edge(es, p[p.len() - 2], p[p.len() - 1]));
        let k = choose|k: int| 0 <= k < es.len() && (#[trigger] es[k]).0 == p[p.len() - 2] && es[k].1 == p[p.len() - 1];
        assert(q.last() == p[p.len() - 2]);
    }
}

/// Every successor of `w` is a marked node.
pub open spec fn successors_marked(es: Seq<CfgEdge>, marked: Seq<bool>, w: usize) -> bool {
    forall|x: usize| #[trigger] out_nbrs(es, w).contains(x) ==> x < marked.len() && marked[x as int]
}

/// Marking more nodes keeps successors marked.
proof fn lemma_successors_marked_grow(es: Seq<CfgEdge>, m1: Seq<bool>, m2: Seq<bool>, w: usize)
    requires
        successors_marked(es, m1, w),
        m1.len() == m2.len(),
        forall|i: int| 0 <= i < m1.len() && m1[i] ==> m2[i],
    ensures
        successors_marked(es, m2, w),
{
    assert forall|x: usize| #[trigger] out_nbrs(es, w).contains(x) implies x < m2.len() && m2[x as int] by {
        assert(m1[x as int]);
    }
}

/// Flags marking the nodes reachable from the entry (node 0); all false for
/// an empty graph.
pub fn reachable_flags(cfg: &Cfg) -> (marked: Vec<bool>)
    ensures
        marked.len() == cfg_blocks(*cfg).len(),
        forall|i: int| 0 <= i < marked.len() ==>
            (#[trigger] marked@[i] <==> reachable_from(cfg_edges(*cfg), 0, i as usize)),
{
    let n = node_count(cfg);
    let ghost es = cfg_edges(*cfg);
    let mut marked: Vec<bool> = Vec::new();
    let mut k: usize = 0;
    while k < n
        invariant
            k <= n,
            marked.len() == k,
            forall|i: int| 0 <= i < k ==> !marked@[i],
        decreases n - k,
    {
        marked.push(false);
        k = k + 1;
    }
    if n == 0 {
        return marked;
    }
    let mut stack: Vec<usize> = Vec::new();
    proof {
        lemma_count_unmarked_update(marked@, 0);
        assert(walk_between(es, seq![0usize], 0, 0));
    }
    marked.set(0, true);
    stack.push(0);
    while stack.len() > 0
        invariant
            n == cfg_blocks(*cfg).len(),
            es == cfg_edges(*cfg),
            marked.len() == n,
            marked@[0],
            forall|j: int| 0 <= j < stack.len() ==> (#[trigger] stack@[j]) < n && marked@[stack@[j] as int],
            forall|i: int| 0 <= i < n && #[trigger] marked@[i] ==> reachable_from(es, 0, i as usize),
            forall|w: usize| w < n && #[trigger] marked@[w as int] ==>
                stack@.contains(w) || successors_marked(es, marked@, w),
        decreases 2 * count_unmarked(marked@) + stack.len(),
    {
        let ghost measure = 2 * count_unmarked(marked@) + stack.len();
        let ghost old_stack = stack@;
        let u = stack.pop().unwrap();
        proof {
            assert(old_stack == stack@.push(u));
            assert forall|w: usize| w < n && w != u && #[trigger] marked@[w as int] implies
                stack@.contains(w) || successors_marked(es, marked@, w) by {
                if old_stack.contains(w) {
                    let q = choose|q: int| 0 <= q < old_stack.len() && old_stack[q] == w;
                    assert(q < stack@.len());
                    assert(stack@[q] == w);
                }
            }
        }
        let succ = successors(cfg, u);
        proof {
            lemma_same_multiset(succ@, out_nbrs(es, u));
        }
        let mut j: usize = 0;
        while j < succ.len()
            invariant
                n == cfg_blocks(*cfg).len(),
                es == cfg_edges(*cfg),
                u < n,
                marked@[u as int],
                forall|x: usize| #![trigger succ@.contains(x)] #![trigger out_nbrs(es, u).contains(x)]
                    succ@.contains(x) <==> out_nbrs(es, u).contains(x),
                forall|k: int| 0 <= k < succ.len() ==> (#[trigger] succ@[k]) < n,
                j <= succ.len(),
                marked.len() == n,
                marked@[0],
                2 * count_unmarked(marked@) + stack.len() < measure,
                forall|k: int| 0 <= k < j ==> marked@[(#[trigger] succ@[k]) as int],
                forall|q: int| 0 <= q < stack.len() ==> (#[trigger] stack@[q]) < n && marked@[stack@[q] as int],
                forall|i: int| 0 <= i < n && #[trigger] marked@[i] ==> reachable_from(es, 0, i as usize),
                forall|w: usize| w < n && w != u && #[trigger] marked@[w as int] ==>
                    stack@.contains(w) || successors_marked(es, marked@, w),
            decreases succ.len() - j,
        {
            let s = succ[j];
            if !marked[s] {
                proof {
                    lemma_count_unmarked_update(marked@, s as int);
                    let p = choose|p: Seq<usize>| walk_between(es, p, 0, u);
                    assert(succ@.contains(s)) by { assert(succ@[j as int] == s); }
                    lemma_out_nbrs_contains(es, u, s);
                    lemma_walk_push(es, p, s);
                    assert(walk_between(es, p.push(s), 0, s));
                }
                let ghost before = marked@;
                let ghost before_stack = stack@;
                marked.set(s, true);
                stack.push(s);
                proof {
                    assert forall|w: usize| w < n && w != u && #[trigger] marked@[w as int] implies
                        stack@.contains(w) || successors_marked(es, marked@, w) by {
                        if w == s {
                            assert(stack@[stack.len() - 1] == s);
                        } else {
                            assert(before[w as int]);
                            if before_stack.contains(w) {
                                let q = choose|q: int| 0 <= q < before_stack.len() && before_stack[q] == w;
                                assert(stack@[q] == w);
                            } else {
                                lemma_successors_marked_grow(es, before, marked@, w);
                            }
                        }
                    }
                }
            }
            j = j + 1;
        }
        proof {
            assert forall|x: usize| #[trigger] out_nbrs(es, u).contains(x) implies x < marked@.len() && marked@[x as int] by {
                let k = choose|k: int| 0 <= k < succ@.len() && succ@[k] == x;
            }
            assert(successors_marked(es, marked@, u));
        }
    }
    proof {
        let s = |x: usize| x < n && marked@[x as int];
        assert forall|i: int| 0 <= i < es.len() && s((#[trigger] es[i]).0) implies s(es[i].1) by {
            let a = es[i].0;
            let b = es[i].1;
            assert(has_edge(es, a, b));
            lemma_out_nbrs_contains(es, a, b);
            assert(marked@[a as int]);
            assert(!stack@.contains(a));
            assert(successors_marked(es, marked@, a));
            assert(out_nbrs(es, a).contains(b));
        }
        assert forall|i: int| 0 <= i < marked.len() implies
            (#[trigger] marked@[i] <==> reachable_from(es, 0, i as usize)) by {
            let t = i as usize;
            if reachable_from(es, 0, t) {
                let p = choose|p: Seq<usize>| walk_between(es, p, 0, t);
                lemma_closed_set_holds_reachable(es, 0, s, p);
            }
        }
    }
    marked
}

/// Nodes reachable from the entry, in node order.
pub fn find_reachable(cfg: &Cfg) -> (r: Vec<usize>)
    ensures
        forall|x: usize| r@.contains(x) <==> (x < cfg_blocks(*cfg).len() && reachable_from(cfg_edges(*cfg), 0, x)),
        forall|a: int, b: int| 0 <= a < b < r.len() ==> r@[a] < r@[b],
{
    let marked = reachable_flags(cfg);
    let mut r: Vec<usize> = Vec::new();
    let mut i: usize = 0;
    while i < marked.len()
        invariant
            i <= marked.len(),
            marked.len() == cfg_blocks(*cfg).len(),
            forall|k: int| 0 <= k < marked.len() ==>
                (#[trigger] marked@[k] <==> reachable_from(cfg_edges(*cfg), 0, k as usize)),
            forall|x: usize| r@.contains(x) <==> (x < i && marked@[x as int]),
            forall|a: int, b: int| 0 <= a < b < r.len() ==> r@[a] < r@[b],
            forall|a: int| 0 <= a < r.len() ==> r@[a] < i,
        decreases marked.len() - i,
    {
        if marked[i] {
            let ghost before = r@;
            r.push(i);
            proof {
                assert forall|x: usize| r@.contains(x) <==> (x < i + 1 && marked@[x as int]) by {
                    if x == i {
                        assert(r@[r.len() - 1] == x);
                    } else if r@.contains(x) {
                        let k = choose|k: int| 0 <= k < r@.len() && r@[k] == x;
                        assert(k < before.len());
                        assert(before[k] == x);
                    } else if x < i && marked@[x as int] {
                        let k = choose|k: int| 0 <= k < before.len() && before[k] == x;
                        assert(r@[k] == x);
                    }
                }
            }
        }
        i = i + 1;
    }
    r
}

/// Whether `node` is reachable from the entry (false for a node outside the graph).
pub fn is_reachable_from_entry(cfg: &Cfg, node: usize) -> (r: bool)
    ensures
        r == (node < cfg_blocks(*cfg).len() && reachable_from(cfg_edges(*cfg), 0, node)),
{
    let marked = reachable_flags(cfg);
    node < marked.len() && marked[node]
}

/// The nodes below `k` that the entry does not reach, in node order.
pub open spec fn unreachable_upto(es: Seq<CfgEdge>, k: nat) -> Seq<usize>
    decreases k,
{
    if k == 0 {
        Seq::empty()
    } else {
        let prev = unreachable_upto(es, (k - 1) as nat);
        if reachable_from(es, 0, (k - 1) as usize) { prev } else { prev.push((k - 1) as usize) }
    }
}

/// Nodes the entry does not reach (dead code), in node order.
pub fn find_unreachable(cfg: &Cfg) -> (r: Vec<usize>)
    ensures
        r@ == unreachable_upto(cfg_edges(*cfg), cfg_blocks(*cfg).len()),
{
    let marked = reachable_flags(cfg);
    let mut r: Vec<usize> = Vec::new();
    let mut i: usize = 0;
    while i < marked.len()
        invariant
            i <= marked.len(),
            marked.len() == cfg_blocks(*cfg).len(),
            forall|k: int| 0 <= k < marked.len() ==>
                (#[trigger] marked@[k] <==> reachable_from(cfg_edges(*cfg), 0, k as usize)),
            r@ == unreachable_upto(cfg_edges(*cfg), i as nat),
        decreases marked.len() - i,
    {
        if !marked[i] {
            r.push(i);
        }
        i = i + 1;
    }
    r
}

} // verus!
