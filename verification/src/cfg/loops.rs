//! Natural loop detection using dominance analysis.

use vstd::prelude::*;
use std::collections::HashSet;
use crate::cfg::graph::{lemma_same_multiset, Cfg, CfgEdge, cfg_blocks, cfg_edges, node_count, edge_count, cfg_edge,
    predecessors, in_nbrs, has_edge, is_walk, walk_between, reachable_from, dominates_in,
    immediate_dominators, lemma_in_nbrs_contains};
use crate::cfg::dominators::{dom_chain, contains_node};
use crate::cfg::node_set::clone_node_set;
use crate::cfg::dominance::{valid_idoms, lemma_chain_is_dominators, lemma_walk_skip, lemma_walk_join, lemma_dominates_refl};
use crate::cfg::reachability::{reachable_flags, count_unmarked, lemma_count_unmarked_update};

verus! {

broadcast use vstd::std_specs::hash::group_hash_axioms;

/// `x` belongs to the natural loop of the back edge `tail -> header`: it is
/// the header, or it reaches the tail along a walk that avoids the header.
pub open spec fn in_loop_body(es: Seq<CfgEdge>, header: usize, tail: usize, x: usize) -> bool {
    x == header || reaches_avoiding(es, x, tail, header)
}

/// Some walk leads from `x` to `tail` without visiting `avoid`.
pub open spec fn reaches_avoiding(es: Seq<CfgEdge>, x: usize, tail: usize, avoid: usize) -> bool {
    exists|p: Seq<usize>| #[trigger] walk_between(es, p, x, tail) && !p.contains(avoid)
}

/// `tail -> header` is a back edge: the entry reaches `tail` and `header`
/// dominates it.
pub open spec fn is_back_edge(es: Seq<CfgEdge>, tail: usize, header: usize) -> bool {
    reachable_from(es, 0, tail) && dominates_in(es, 0, header, tail)
}

/// The back edges among the first `k` edges, as (tail, header), in edge order.
pub open spec fn back_edges_upto(es: Seq<CfgEdge>, k: nat) -> Seq<(usize, usize)>
    decreases k,
{
    if k == 0 {
        Seq::empty()
    } else {
        let prev = back_edges_upto(es, (k - 1) as nat);
        let e = es[k - 1];
        if is_back_edge(es, e.0, e.1) {
            prev.push((e.0, e.1))
        } else {
            prev
        }
    }
}

/// The natural loop of each back edge, as (tail, header), in edge order.
pub open spec fn back_edges(es: Seq<CfgEdge>) -> Seq<(usize, usize)> {
    back_edges_upto(es, es.len())
}

/// A natural loop: a single-entry region identified by a back edge whose
/// target (the header) dominates its source.
#[derive(Debug)]
pub struct NaturalLoop {
    /// Loop header node (single entry point)
    pub header: usize,
    /// Back edge (tail -> header) that identifies this loop
    pub back_edge: (usize, usize),
    /// All nodes in the loop body (including the header)
    pub body: HashSet<usize>,
}

/// `lp` is the natural loop of back edge `be` in a graph of `n` nodes.
pub open spec fn is_loop_of(es: Seq<CfgEdge>, n: nat, be: (usize, usize), lp: NaturalLoop) -> bool {
    &&& lp.header == be.1
    &&& lp.back_edge == be
    &&& be.0 < n && be.1 < n
    &&& forall|x: usize| #[trigger] lp.body@.contains(x) <==> (x < n && in_loop_body(es, be.1, be.0, x))
}

impl Clone for NaturalLoop {
    fn clone(&self) -> (r: Self)
        ensures
            r.header == self.header,
            r.back_edge == self.back_edge,
            r.body@ == self.body@,
    {
        NaturalLoop { header: self.header, back_edge: self.back_edge, body: clone_node_set(&self.body) }
    }
}

impl NaturalLoop {
    /// Check if a node is in the loop body.
    pub fn contains(&self, node: usize) -> (r: bool)
        ensures
            r == self.body@.contains(node),
    {
        self.body.contains(&node)
    }

    /// Nesting level relative to `all_loops`: 0 when no other loop (with a
    /// different header) holds this loop's header, otherwise one more than
    /// the deepest such enclosing loop. Enclosing chains are followed through
    /// at most `all_loops.len()` loops.
    pub fn nesting_level(&self, all_loops: &[NaturalLoop]) -> (r: usize)
        ensures
            r == nest_level(all_loops@, self.header, all_loops@.len(), all_loops@.len()),
    {
        level_among(all_loops, self.header, all_loops.len())
    }

    /// Number of nodes in the loop body.
    pub fn size(&self) -> (r: usize)
        ensures
            r == self.body@.len(),
    {
        self.body.len()
    }
}

/// Nesting level of a loop headed by `h` among the first `k` loops of `all`,
/// following chains of enclosing loops for at most `fuel` steps.
pub open spec fn nest_level(all: Seq<NaturalLoop>, h: usize, fuel: nat, k: nat) -> nat
    decreases fuel, k,
{
    if fuel == 0 || k == 0 || k > all.len() {
        0
    } else {
        let prev = nest_level(all, h, fuel, (k - 1) as nat);
        let o = all[k - 1];
        if o.header != h && o.body@.contains(h) {
            let sub = nest_level(all, o.header, (fuel - 1) as nat, all.len()) + 1;
            if prev >= sub { prev } else { sub }
        } else {
            prev
        }
    }
}

proof fn lemma_nest_level_bound(all: Seq<NaturalLoop>, h: usize, fuel: nat, k: nat)
    ensures
        nest_level(all, h, fuel, k) <= fuel,
    decreases fuel, k,
{
    if fuel > 0 && k > 0 && k <= all.len() {
        lemma_nest_level_bound(all, h, fuel, (k - 1) as nat);
        let o = all[k - 1];
        lemma_nest_level_bound(all, o.header, (fuel - 1) as nat, all.len());
    }
}

/// Loop `j` of `all` encloses a loop headed by `h`: another header, and a
/// body that holds `h`.
pub open spec fn encloses(all: Seq<NaturalLoop>, j: int, h: usize) -> bool {
    all[j].header != h && all[j].body@.contains(h)
}

proof fn lemma_nest_level_is_max(all: Seq<NaturalLoop>, h: usize, fuel: nat, k: nat)
    requires
        fuel > 0,
        k <= all.len(),
    ensures
        forall|j: int| 0 <= j < k && #[trigger] encloses(all, j, h) ==>
            nest_level(all, h, fuel, k) >= nest_level(all, all[j].header, (fuel - 1) as nat, all.len()) + 1,
        nest_level(all, h, fuel, k) == 0 || exists|j: int| 0 <= j < k && #[trigger] encloses(all, j, h)
            && nest_level(all, h, fuel, k) == nest_level(all, all[j].header, (fuel - 1) as nat, all.len()) + 1,
    decreases k,
{
    if k > 0 {
        lemma_nest_level_is_max(all, h, fuel, (k - 1) as nat);
        let prev = nest_level(all, h, fuel, (k - 1) as nat);
        if encloses(all, k - 1, h) {
            let sub = nest_level(all, all[k - 1].header, (fuel - 1) as nat, all.len()) + 1;
            if prev < sub {
                assert(encloses(all, k - 1, h));
            } else if prev != 0 {
                let j = choose|j: int| 0 <= j < k - 1 && #[trigger] encloses(all, j, h)
                    && prev == nest_level(all, all[j].header, (fuel - 1) as nat, all.len()) + 1;
                assert(encloses(all, j, h));
            }
        } else if prev != 0 {
            let j = choose|j: int| 0 <= j < k - 1 && #[trigger] encloses(all, j, h)
                && prev == nest_level(all, all[j].header, (fuel - 1) as nat, all.len()) + 1;
            assert(encloses(all, j, h));
        }
    }
}

/// A loop's nesting level is the deepest of its enclosing loops plus one,
/// whatever the order of the list: at least one more than the level of every
/// loop with another header whose body holds its header, and equal to one
/// more than the level of one of them; 0 when none encloses it. So the
/// innermost of three nested loops has level 2.
pub proof fn nesting_level_is_deepest_enclosing_plus_one(all: Seq<NaturalLoop>, h: usize, fuel: nat)
    requires
        fuel > 0,
    ensures
        forall|j: int| 0 <= j < all.len() && #[trigger] encloses(all, j, h) ==>
            nest_level(all, h, fuel, all.len()) >= nest_level(all, all[j].header, (fuel - 1) as nat, all.len()) + 1,
        (forall|j: int| 0 <= j < all.len() ==> !#[trigger] encloses(all, j, h)) ==> nest_level(all, h, fuel, all.len()) == 0,
        nest_level(all, h, fuel, all.len()) == 0 || exists|j: int| 0 <= j < all.len() && #[trigger] encloses(all, j, h)
            && nest_level(all, h, fuel, all.len()) == nest_level(all, all[j].header, (fuel - 1) as nat, all.len()) + 1,
{
    lemma_nest_level_is_max(all, h, fuel, all.len());
}

fn level_among(all: &[NaturalLoop], h: usize, fuel: usize) -> (r: usize)
    ensures
        r == nest_level(all@, h, fuel as nat, all@.len()),
    decreases fuel,
{
    if fuel == 0 {
        return 0;
    }
    let mut level: usize = 0;
    let mut k: usize = 0;
    while k < all.len()
        invariant
            fuel > 0,
            k <= all@.len(),
            level == nest_level(all@, h, fuel as nat, k as nat),
        decreases all@.len() - k,
    {
        proof {
            lemma_nest_level_bound(all@, h, fuel as nat, k as nat);
        }
        let o = &all[k];
        if o.header != h && o.body.contains(&h) {
            let sub = level_among(all, o.header, fuel - 1);
            proof {
                lemma_nest_level_bound(all@, o.header, (fuel - 1) as nat, all@.len());
            }
            if sub + 1 > level {
                level = sub + 1;
            }
        }
        k = k + 1;
    }
    level
}

/// Every predecessor of `w` other than `h` is marked.
pub open spec fn preds_marked(es: Seq<CfgEdge>, marked: Seq<bool>, h: usize, w: usize) -> bool {
    forall|x: usize| #[trigger] in_nbrs(es, w).contains(x) ==> x == h || (x < marked.len() && marked[x as int])
}

pub proof fn lemma_preds_marked_grow(es: Seq<CfgEdge>, m1: Seq<bool>, m2: Seq<bool>, h: usize, w: usize)
    requires
        preds_marked(es, m1, h, w),
        m1.len() == m2.len(),
        forall|i: int| 0 <= i < m1.len() && m1[i] ==> m2[i],
    ensures
        preds_marked(es, m2, h, w),
{
    assert forall|x: usize| #[trigger] in_nbrs(es, w).contains(x) implies x == h || (x < m2.len() && m2[x as int]) by {
        if x != h {
            assert(m1[x as int]);
        }
    }
}

/// A walk whose every step goes backwards into a set closed under
/// predecessors (other than `h`) and that avoids `h` starts inside the set.
proof fn lemma_backward_closed(es: Seq<CfgEdge>, h: usize, s: spec_fn(usize) -> bool, p: Seq<usize>)
    requires
        is_walk(es, p),
        !p.contains(h),
        s(p.last()),
        forall|i: int| 0 <= i < es.len() && s((#[trigger] es[i]).1) && es[i].0 != h ==> s(es[i].0),
    ensures
        s(p[0]),
    decreases p.len(),
{
    if p.len() > 1 {
        lemma_walk_skip(es, p, 1);
        let q = p.skip(1);
        assert forall|x: usize| q.contains(x) implies p.contains(x) by {
            let j = choose|j: int| 0 <= j < q.len() && q[j] == x;
            assert(p[j + 1] == x);
        }
        lemma_backward_closed(es, h, s, q);
        assert(has_edge(es, p[0], p[1]));
        let k = choose|k: int| 0 <= k < es.len() && (#[trigger] es[k]).0 == p[0] && es[k].1 == p[1];
        assert(p[0] != h) by { assert(p[0] == p[0]); if p[0] == h { assert(p.contains(h)); } }
    }
}

/// Flags marking the nodes that reach `tail` without passing through
/// `header` (the header itself is not marked).
fn loop_body_flags(cfg: &Cfg, header: usize, tail: usize) -> (marked: Vec<bool>)
    requires
        header < cfg_blocks(*cfg).len(),
        tail < cfg_blocks(*cfg).len(),
    ensures
        marked.len() == cfg_blocks(*cfg).len(),
        forall|i: int| 0 <= i < marked.len() ==>
            (#[trigger] marked@[i] <==> (i != header && reaches_avoiding(cfg_edges(*cfg), i as usize, tail, header))),
{
    let n = node_count(cfg);
    let ghost es = cfg_edges(*cfg);
    let mut marked: Vec<bool> = Vec::new();
    let mut k: usize = 0;
    while k < n
        invariant
            k <= n,
            marked.len() == k,
            forall|i: int| 0 <= i < k ==> !marked@[i],
        decreases n - k,
    {
        marked.push(false);
        k = k + 1;
    }
    let mut work: Vec<usize> = Vec::new();
    if tail != header {
        proof {
            lemma_count_unmarked_update(marked@, tail as int);
            let p = seq![tail];
            assert(walk_between(es, p, tail, tail));
            assert(!p.contains(header)) by {
                if p.contains(header) {
                    let j = choose|j: int| 0 <= j < p.len() && p[j] == header;
                }
            }
        }
        marked.set(tail, true);
        work.push(tail);
        proof {
            assert(reaches_avoiding(es, tail, tail, header));
        }
    }
    while work.len() > 0
        invariant
            n == cfg_blocks(*cfg).len(),
            es == cfg_edges(*cfg),
            header < n,
            tail < n,
            marked.len() == n,
            !marked@[header as int],
            forall|j: int| 0 <= j < work.len() ==> (#[trigger] work@[j]) < n && marked@[work@[j] as int],
            forall|i: usize| i < n && #[trigger] marked@[i as int] ==> reaches_avoiding(es, i, tail, header),
            forall|w: usize| w < n && #[trigger] marked@[w as int] ==>
                work@.contains(w) || preds_marked(es, marked@, header, w),
            tail != header ==> marked@[tail as int],
        decreases 2 * count_unmarked(marked@) + work.len(),
    {
        let ghost measure = 2 * count_unmarked(marked@) + work.len();
        let ghost old_work = work@;
        let u = work.pop().unwrap();
        proof {
            assert(old_work == work@.push(u));
            assert forall|w: usize| w < n && w != u && #[trigger] marked@[w as int] implies
                work@.contains(w) || preds_marked(es, marked@, header, w) by {
                if old_work.contains(w) {
                    let q = choose|q: int| 0 <= q < old_work.len() && old_work[q] == w;
                    assert(work@[q] == w);
                }
            }
        }
        let preds = predecessors(cfg, u);
        proof {
            lemma_same_multiset(preds@, in_nbrs(es, u));
        }
        let mut j: usize = 0;
        while j < preds.len()
            invariant
                n == cfg_blocks(*cfg).len(),
                es == cfg_edges(*cfg),
                header < n,
                tail < n,
                u < n,
                marked@[u as int],
                forall|x: usize| #![trigger preds@.contains(x)] #![trigger in_nbrs(es, u).contains(x)]
                    preds@.contains(x) <==> in_nbrs(es, u).contains(x),
                forall|k: int| 0 <= k < preds.len() ==> (#[trigger] preds@[k]) < n,
                j <= preds.len(),
                marked.len() == n,
                !marked@[header as int],
                2 * count_unmarked(marked@) + work.len() < measure,
                forall|k: int| 0 <= k < j ==> (#[trigger] preds@[k]) == header || marked@[preds@[k] as int],
                forall|q: int| 0 <= q < work.len() ==> (#[trigger] work@[q]) < n && marked@[work@[q] as int],
                forall|i: usize| i < n && #[trigger] marked@[i as int] ==> reaches_avoiding(es, i, tail, header),
                forall|w: usize| w < n && w != u && #[trigger] marked@[w as int] ==>
                    work@.contains(w) || preds_marked(es, marked@, header, w),
                tail != header ==> marked@[tail as int],
            decreases preds.len() - j,
        {
            let x = preds[j];
            if x != header && !marked[x] {
                proof {
                    lemma_count_unmarked_update(marked@, x as int);
                    assert(reaches_avoiding(es, u, tail, header));
                    let p = choose|p: Seq<usize>| #[trigger] walk_between(es, p, u, tail) && !p.contains(header);
                    assert(preds@.contains(x)) by { assert(preds@[j as int] == x); }
                    lemma_in_nbrs_contains(es, u, x);
                    let q = seq![x] + p;
                    assert forall|i: int| 0 <= i < q.len() - 1 implies has_edge(es, #[trigger] q[i], q[i + 1]) by {
                        if i > 0 {
                            assert(q[i] == p[i - 1] && q[i + 1] == p[i]);
                        } else {
                            assert(q[1] == p[0]);
                        }
                    }
                    assert(q.last() == p.last());
                    assert(!q.contains(header)) by {
                        if q.contains(header) {
                            let j2 = choose|j2: int| 0 <= j2 < q.len() && q[j2] == header;
                            if j2 > 0 {
                                assert(p[j2 - 1] == header);
                            }
                        }
                    }
                    assert(walk_between(es, q, x, tail));
                    assert(reaches_avoiding(es, x, tail, header));
                }
                let ghost before = marked@;
                let ghost before_work = work@;
                marked.set(x, true);
                work.push(x);
                proof {
                    assert forall|w: usize| w < n && w != u && #[trigger] marked@[w as int] implies
                        work@.contains(w) || preds_marked(es, marked@, header, w) by {
                        if w == x {
                            assert(work@[work.len() - 1] == x);
                        } else {
                            assert(before[w as int]);
                            if before_work.contains(w) {
                                let q = choose|q: int| 0 <= q < before_work.len() && before_work[q] == w;
                                assert(work@[q] == w);
                            } else {
                                lemma_preds_marked_grow(es, before, marked@, header, w);
                            }
                        }
                    }
                }
            }
            j = j + 1;
        }
        proof {
            assert forall|x: usize| #[trigger] in_nbrs(es, u).contains(x) implies
                x == header || (x < marked@.len() && marked@[x as int]) by {
                let k = choose|k: int| 0 <= k < preds@.len() && preds@[k] == x;
            }
            assert(preds_marked(es, marked@, header, u));
        }
    }
    proof {
        let s = |x: usize| x < n && marked@[x as int];
        assert forall|i: int| 0 <= i < es.len() && s((#[trigger] es[i]).1) && es[i].0 != header implies s(es[i].0) by {
            let a = es[i].0;
            let b = es[i].1;
            assert(has_edge(es, a, b));
            lemma_in_nbrs_contains(es, b, a);
            assert(marked@[b as int]);
            assert(!work@.contains(b));
            assert(preds_marked(es, marked@, header, b));
            assert(in_nbrs(es, b).contains(a));
        }
        assert forall|i: int| 0 <= i < marked.len() implies
            (#[trigger] marked@[i] <==> (i != header && reaches_avoiding(es, i as usize, tail, header))) by {
            let t = i as usize;
            if marked@[i] {
                assert(marked@[t as int]);
            }
            if t != header && reaches_avoiding(es, t, tail, header) {
                let p = choose|p: Seq<usize>| #[trigger] walk_between(es, p, t, tail) && !p.contains(header);
                if tail == header {
                    assert(p.contains(header)) by { assert(p[p.len() - 1] == header); }
                }
                lemma_backward_closed(es, header, s, p);
            }
        }
    }
    marked
}

/// Compute the body of the natural loop of back edge `tail -> header`: the
/// header plus every node that reaches the tail without going through the
/// header.
fn compute_loop_body(cfg: &Cfg, header: usize, tail: usize) -> (body: HashSet<usize>)
    requires
        header < cfg_blocks(*cfg).len(),
        tail < cfg_blocks(*cfg).len(),
    ensures
        forall|x: usize| #[trigger] body@.contains(x) <==>
            (x < cfg_blocks(*cfg).len() && in_loop_body(cfg_edges(*cfg), header, tail, x)),
{
    let marked = loop_body_flags(cfg, header, tail);
    let mut body: HashSet<usize> = HashSet::new();
    let mut i: usize = 0;
    while i < marked.len()
        invariant
            i <= marked.len(),
            marked.len() == cfg_blocks(*cfg).len(),
            forall|k: int| 0 <= k < marked.len() ==>
                (#[trigger] marked@[k] <==> (k != header && reaches_avoiding(cfg_edges(*cfg), k as usize, tail, header))),
            forall|x: usize| #[trigger] body@.contains(x) <==> (x < i && marked@[x as int]),
        decreases marked.len() - i,
    {
        if marked[i] {
            body.insert(i);
        }
        i = i + 1;
    }
    body.insert(header);
    body
}

/// Detect all natural loops: one per back edge `tail -> header` (the entry
/// reaches `tail` and `header` dominates it), in edge order, each with the
/// nodes of its body. Empty for an empty CFG.
pub fn detect_natural_loops(cfg: &Cfg) -> (loops: Vec<NaturalLoop>)
    ensures
        loops.len() == back_edges(cfg_edges(*cfg)).len(),
        forall|i: int| 0 <= i < loops.len() ==>
            is_loop_of(cfg_edges(*cfg), cfg_blocks(*cfg).len(), back_edges(cfg_edges(*cfg))[i], #[trigger] loops@[i]),
{
    let n = node_count(cfg);
    let m = edge_count(cfg);
    let ghost es = cfg_edges(*cfg);
    let mut loops: Vec<NaturalLoop> = Vec::new();
    if n == 0 {
        proof {
            assert(m == 0) by {
                if m > 0 {
                    assert(es[0].0 < n);
                }
            }
            assert(back_edges_upto(es, 0) == Seq::<(usize, usize)>::empty());
        }
        return loops;
    }
    let idoms = immediate_dominators(cfg, 0);
    let reach = reachable_flags(cfg);
    proof {
        assert(valid_idoms(es, 0, n as nat, idoms@));
    }
    let mut e: usize = 0;
    while e < m
        invariant
            n == cfg_blocks(*cfg).len(),
            m == es.len(),
            es == cfg_edges(*cfg),
            n > 0,
            e <= m,
            valid_idoms(es, 0, n as nat, idoms@),
            reach.len() == n,
            forall|i: int| 0 <= i < n ==> (#[trigger] reach@[i] <==> reachable_from(es, 0, i as usize)),
            loops.len() == back_edges_upto(es, e as nat).len(),
            forall|i: int| 0 <= i < loops.len() ==>
                is_loop_of(es, n as nat, back_edges_upto(es, e as nat)[i], #[trigger] loops@[i]),
        decreases m - e,
    {
        let (tail, header, _kind) = cfg_edge(cfg, e);
        let mut back = false;
        if reach[tail] {
            let chain = dom_chain_vec(&idoms, tail);
            back = contains_node(&chain, header);
            proof {
                lemma_chain_is_dominators(es, 0, n as nat, idoms@, header, tail);
            }
        }
        if back {
            let body = compute_loop_body(cfg, header, tail);
            loops.push(NaturalLoop { header, back_edge: (tail, header), body });
        }
        proof {
            assert(es[e as int] == (tail, header, _kind));
            let prev = back_edges_upto(es, e as nat);
            assert(back_edges_upto(es, (e + 1) as nat) == if is_back_edge(es, tail, header) {
                prev.push((tail, header))
            } else {
                prev
            });
            assert(back == is_back_edge(es, tail, header));
        }
        e = e + 1;
    }
    loops
}

/// The dominator chain of `start` in a table of immediate dominators.
fn dom_chain_vec(idoms: &Vec<Option<usize>>, start: usize) -> (r: Vec<usize>)
    ensures
        r@ == dom_chain(idoms@, start, idoms@.len()),
{
    let n = idoms.len();
    let mut r: Vec<usize> = vec![start];
    let mut cur = start;
    let mut fuel = n;
    while fuel > 0
        invariant
            n == idoms@.len(),
            fuel <= n,
            r@.len() >= 1,
            r@.last() == cur,
            r@.drop_last() + dom_chain(idoms@, cur, fuel as nat) == dom_chain(idoms@, start, n as nat),
        decreases fuel,
    {
        let next = if cur < idoms.len() { idoms[cur] } else { None };
        match next {
            Some(x) => {
                let ghost old_r = r@;
                let ghost old_cur = cur;
                r.push(x);
                proof {
                    assert(dom_chain(idoms@, old_cur, fuel as nat) == seq![old_cur] + dom_chain(idoms@, x, (fuel - 1) as nat));
                    assert(r@.drop_last() == old_r);
                    assert(old_r.drop_last() + seq![old_cur] == old_r);
                    assert(old_r.drop_last() + (seq![old_cur] + dom_chain(idoms@, x, (fuel - 1) as nat))
                        == old_r + dom_chain(idoms@, x, (fuel - 1) as nat));
                }
                cur = x;
                fuel = fuel - 1;
            },
            None => {
                proof {
                    assert(dom_chain(idoms@, cur, fuel as nat) == seq![cur]);
                    assert(r@.drop_last() + seq![cur] == r@);
                }
                return r;
            },
        }
    }
    proof {
        assert(dom_chain(idoms@, cur, 0) == seq![cur]);
        assert(r@.drop_last() + seq![cur] == r@);
    }
    r
}

} // verus!

verus! {

/// `node` is the header of some back edge.
pub open spec fn is_header_of_some(bes: Seq<(usize, usize)>, node: usize) -> bool {
    exists|i: int| 0 <= i < bes.len() && (#[trigger] bes[i]).1 == node
}

/// Find all loop headers: the targets of the back edges.
pub fn find_loop_headers(cfg: &Cfg) -> (r: HashSet<usize>)
    ensures
        forall|h: usize| #[trigger] r@.contains(h) <==> is_header_of_some(back_edges(cfg_edges(*cfg)), h),
{
    let loops = detect_natural_loops(cfg);
    let ghost bes = back_edges(cfg_edges(*cfg));
    let mut r: HashSet<usize> = HashSet::new();
    let mut i: usize = 0;
    while i < loops.len()
        invariant
            i <= loops.len(),
            loops.len() == bes.len(),
            forall|k: int| 0 <= k < loops.len() ==> (#[trigger] loops@[k]).header == bes[k].1,
            forall|h: usize| #[trigger] r@.contains(h) <==> exists|k: int| 0 <= k < i && (#[trigger] bes[k]).1 == h,
        decreases loops.len() - i,
    {
        let h = loops[i].header;
        r.insert(h);
        proof {
            assert forall|x: usize| #[trigger] r@.contains(x) <==> exists|k: int| 0 <= k < i + 1 && (#[trigger] bes[k]).1 == x by {
                if x == h {
                    assert(bes[i as int].1 == x);
                }
            }
        }
        i = i + 1;
    }
    r
}

/// A node is a loop header when it is the target of a back edge.
pub fn is_loop_header(cfg: &Cfg, node: usize) -> (r: bool)
    ensures
        r == is_header_of_some(back_edges(cfg_edges(*cfg)), node),
{
    let headers = find_loop_headers(cfg);
    headers.contains(&node)
}

/// The back edges whose loop body holds `node`, in edge order.
pub open spec fn back_edges_containing(es: Seq<CfgEdge>, n: nat, node: usize) -> Seq<(usize, usize)> {
    back_edges(es).filter(|be: (usize, usize)| loop_holds(es, n, be, node))
}

/// The loop of back edge `be` holds `node`.
pub open spec fn loop_holds(es: Seq<CfgEdge>, n: nat, be: (usize, usize), node: usize) -> bool {
    node < n && in_loop_body(es, be.1, be.0, node)
}

/// All loops whose body holds `node` (a node may lie in several nested loops).
pub fn loops_containing(cfg: &Cfg, node: usize) -> (r: Vec<NaturalLoop>)
    ensures
        r.len() == back_edges_containing(cfg_edges(*cfg), cfg_blocks(*cfg).len(), node).len(),
        forall|i: int| 0 <= i < r.len() ==> is_loop_of(cfg_edges(*cfg), cfg_blocks(*cfg).len(),
            back_edges_containing(cfg_edges(*cfg), cfg_blocks(*cfg).len(), node)[i], #[trigger] r@[i]),
{
    let ghost es = cfg_edges(*cfg);
    let ghost n = cfg_blocks(*cfg).len();
    let ghost bes = back_edges(es);
    let ghost pred = |be: (usize, usize)| loop_holds(es, n, be, node);
    let loops = detect_natural_loops(cfg);
    let mut r: Vec<NaturalLoop> = Vec::new();
    let mut i: usize = 0;
    proof {
        reveal(Seq::filter);
        assert(bes.take(0).filter(pred) == Seq::<(usize, usize)>::empty());
    }
    while i < loops.len()
        invariant
            i <= loops.len(),
            loops.len() == bes.len(),
            forall|k: int| 0 <= k < loops.len() ==> is_loop_of(es, n, bes[k], #[trigger] loops@[k]),
            pred == (|be: (usize, usize)| loop_holds(es, n, be, node)),
            r.len() == bes.take(i as int).filter(pred).len(),
            forall|k: int| 0 <= k < r.len() ==> is_loop_of(es, n, bes.take(i as int).filter(pred)[k], #[trigger] r@[k]),
        decreases loops.len() - i,
    {
        proof {
            assert(bes.take(i + 1).drop_last() == bes.take(i as int));
            assert(bes.take(i + 1).last() == bes[i as int]);
        }
        if loops[i].contains(node) {
            let l = loops[i].clone();
            r.push(l);
            proof {
                assert(is_loop_of(es, n, bes[i as int], loops@[i as int]));
                assert(loops@[i as int].body@.contains(node));
                assert(loop_holds(es, n, bes[i as int], node));
                assert(pred(bes[i as int]));
                reveal(Seq::filter);
                assert(bes.take(i + 1).filter(pred) == bes.take(i as int).filter(pred).push(bes[i as int]));
                assert forall|k: int| 0 <= k < r.len() implies is_loop_of(es, n, bes.take(i + 1).filter(pred)[k], #[trigger] r@[k]) by {
                    if k < r.len() - 1 {
                        assert(bes.take(i + 1).filter(pred)[k] == bes.take(i as int).filter(pred)[k]);
                    }
                }
            }
        } else {
            proof {
                assert(is_loop_of(es, n, bes[i as int], loops@[i as int]));
                assert(!loops@[i as int].body@.contains(node));
                assert(!loop_holds(es, n, bes[i as int], node));
                assert(!pred(bes[i as int]));
                reveal(Seq::filter);
                assert(bes.take(i + 1).filter(pred) == bes.take(i as int).filter(pred));
            }
        }
        i = i + 1;
    }
    proof {
        assert(bes.take(loops.len() as int) == bes);
    }
    r
}

/// The pairs `(i, j)`, `i < j < j_end`, whose loop `j` has its header inside
/// loop `i`, for a fixed `i`, in increasing `j`.
pub open spec fn nested_row(es: Seq<CfgEdge>, bes: Seq<(usize, usize)>, i: int, j_end: int) -> Seq<(int, int)>
    decreases j_end - i,
{
    if j_end <= i + 1 {
        Seq::empty()
    } else {
        let prev = nested_row(es, bes, i, j_end - 1);
        if in_loop_body(es, bes[i].1, bes[i].0, bes[j_end - 1].1) {
            prev.push((i, j_end - 1))
        } else {
            prev
        }
    }
}

/// All pairs `(i, j)`, `i < j`, `i < i_end`, such that loop `j` has its
/// header inside loop `i`, ordered by `i` then `j`.
pub open spec fn nested_pairs(es: Seq<CfgEdge>, bes: Seq<(usize, usize)>, i_end: int) -> Seq<(int, int)>
    decreases i_end,
{
    if i_end <= 0 {
        Seq::empty()
    } else {
        nested_pairs(es, bes, i_end - 1) + nested_row(es, bes, i_end - 1, bes.len() as int)
    }
}

/// Pairs (outer, inner) of loops where the inner loop's header lies in the
/// outer loop's body, the outer one coming first in edge order.
pub fn find_nested_loops(cfg: &Cfg) -> (r: Vec<(NaturalLoop, NaturalLoop)>)
    ensures
        r.len() == nested_pairs(cfg_edges(*cfg), back_edges(cfg_edges(*cfg)), back_edges(cfg_edges(*cfg)).len() as int).len(),
        forall|k: int| 0 <= k < r.len() ==> {
            let pr = nested_pairs(cfg_edges(*cfg), back_edges(cfg_edges(*cfg)), back_edges(cfg_edges(*cfg)).len() as int)[k];
            &&& is_loop_of(cfg_edges(*cfg), cfg_blocks(*cfg).len(), back_edges(cfg_edges(*cfg))[pr.0], (#[trigger] r@[k]).0)
            &&& is_loop_of(cfg_edges(*cfg), cfg_blocks(*cfg).len(), back_edges(cfg_edges(*cfg))[pr.1], r@[k].1)
        },
{
    let ghost es = cfg_edges(*cfg);
    let ghost n = cfg_blocks(*cfg).len();
    let ghost bes = back_edges(es);
    let loops = detect_natural_loops(cfg);
    let m = loops.len();
    let mut r: Vec<(NaturalLoop, NaturalLoop)> = Vec::new();
    let mut i: usize = 0;
    while i < m
        invariant
            i <= m,
            m == loops.len(),
            m == bes.len(),
            forall|k: int| 0 <= k < m ==> is_loop_of(es, n, bes[k], #[trigger] loops@[k]),
            r.len() == nested_pairs(es, bes, i as int).len(),
            forall|k: int| 0 <= k < r.len() ==> {
                let pr = nested_pairs(es, bes, i as int)[k];
                &&& is_loop_of(es, n, bes[pr.0], (#[trigger] r@[k]).0)
                &&& is_loop_of(es, n, bes[pr.1], r@[k].1)
            },
        decreases m - i,
    {
        let ghost base = nested_pairs(es, bes, i as int);
        let mut j: usize = i + 1;
        proof {
            assert(nested_row(es, bes, i as int, j as int) == Seq::<(int, int)>::empty());
            assert(base + Seq::<(int, int)>::empty() == base);
        }
        while j < m
            invariant
                i < m,
                i + 1 <= j <= m,
                m == loops.len(),
                m == bes.len(),
                forall|k: int| 0 <= k < m ==> is_loop_of(es, n, bes[k], #[trigger] loops@[k]),
                base == nested_pairs(es, bes, i as int),
                r.len() == (base + nested_row(es, bes, i as int, j as int)).len(),
                forall|k: int| 0 <= k < r.len() ==> {
                    let pr = (base + nested_row(es, bes, i as int, j as int))[k];
                    &&& is_loop_of(es, n, bes[pr.0], (#[trigger] r@[k]).0)
                    &&& is_loop_of(es, n, bes[pr.1], r@[k].1)
                },
            decreases m - j,
        {
            let ghost old_all = base + nested_row(es, bes, i as int, j as int);
            proof {
                assert(is_loop_of(es, n, bes[i as int], loops@[i as int]));
                assert(is_loop_of(es, n, bes[j as int], loops@[j as int]));
            }
            if loops[i].contains(loops[j].header) {
                let outer = loops[i].clone();
                let inner = loops[j].clone();
                r.push((outer, inner));
                proof {
                    assert(base + nested_row(es, bes, i as int, j + 1) == old_all.push((i as int, j as int)));
                    assert forall|k: int| 0 <= k < r.len() implies {
                        let pr = (base + nested_row(es, bes, i as int, j + 1))[k];
                        &&& is_loop_of(es, n, bes[pr.0], (#[trigger] r@[k]).0)
                        &&& is_loop_of(es, n, bes[pr.1], r@[k].1)
                    } by {
                        if k < r.len() - 1 {
                            assert(old_all.push((i as int, j as int))[k] == old_all[k]);
                        }
                    }
                }
            } else {
                proof {
                    assert(base + nested_row(es, bes, i as int, j + 1) == old_all);
                }
            }
            j = j + 1;
        }
        proof {
            assert(nested_pairs(es, bes, i + 1) == base + nested_row(es, bes, i as int, m as int));
        }
        i = i + 1;
    }
    r
}

/// Every listed back edge is a back edge.
proof fn lemma_back_edges_upto_are_back_edges(es: Seq<CfgEdge>, k: nat, i: int)
    requires
        k <= es.len(),
        0 <= i < back_edges_upto(es, k).len(),
    ensures
        is_back_edge(es, back_edges_upto(es, k)[i].0, back_edges_upto(es, k)[i].1),
    decreases k,
{
    if k > 0 {
        let prev = back_edges_upto(es, (k - 1) as nat);
        if i < prev.len() {
            lemma_back_edges_upto_are_back_edges(es, (k - 1) as nat, i);
            let e = es[k - 1];
            if is_back_edge(es, e.0, e.1) {
                assert(back_edges_upto(es, k)[i] == prev[i]);
            }
        }
    }
}

/// The header of a natural loop dominates every node of its body: a walk
/// from the entry to a body node, continued along the body to the tail,
/// must pass the header, and the continuation avoids it.
pub proof fn loop_header_dominates_body(es: Seq<CfgEdge>, tail: usize, header: usize, x: usize)
    requires
        is_back_edge(es, tail, header),
        in_loop_body(es, header, tail, x),
    ensures
        dominates_in(es, 0, header, x),
{
    if x == header {
        lemma_dominates_refl(es, 0, header);
    } else {
        let q = choose|q: Seq<usize>| #[trigger] walk_between(es, q, x, tail) && !q.contains(header);
        assert forall|p: Seq<usize>| walk_between(es, p, 0, x) implies p.contains(header) by {
            lemma_walk_join(es, p, q);
            let t = p + q.skip(1);
            assert(walk_between(es, t, 0, tail));
            assert(t.contains(header));
            if q.skip(1).contains(header) {
                let j = choose|j: int| 0 <= j < q.skip(1).len() && q.skip(1)[j] == header;
                assert(q[j + 1] == header);
            }
        }
    }
}

/// The loops `detect_natural_loops` finds are headed by a node that
/// dominates each node of their body.
pub proof fn detected_loop_header_dominates_body(es: Seq<CfgEdge>, n: nat, i: int, lp: NaturalLoop, x: usize)
    requires
        0 <= i < back_edges(es).len(),
        is_loop_of(es, n, back_edges(es)[i], lp),
        lp.body@.contains(x),
    ensures
        dominates_in(es, 0, lp.header, x),
{
    lemma_back_edges_upto_are_back_edges(es, es.len(), i);
    let be = back_edges(es)[i];
    loop_header_dominates_body(es, be.0, be.1, x);
}

} // verus!
