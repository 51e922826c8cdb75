//! Spatial coordinates of CFG blocks.
//!
//! - coord_x: dominator depth (control-flow hierarchy), the depth at which a
//!   depth-first walk from the entry first reaches the block;
//! - coord_y: loop nesting depth, the number of natural loops around it;
//! - coord_z: branch distance, the conditional edges crossed by a
//!   breadth-first walk from the entry.

use vstd::prelude::*;
use std::collections::{HashMap, HashSet, VecDeque};
use crate::cfg::edge::EdgeType;
use crate::cfg::graph::{lemma_same_multiset, out_edge_order, incoming_order, Cfg, CfgEdge, cfg_blocks, cfg_edges, node_count, edge_count, cfg_edge, successors,
    predecessors, out_edges, out_nbrs, out_edge_list, in_nbrs, walk_between, is_walk, has_edge,
    lemma_in_nbrs_contains, immediate_dominators, idom_answer, reachable_from};
use crate::cfg::dominators::{DominatorTree, dom_chain, lemma_dom_chain_start, lemma_valid_chains_end};
use crate::cfg::dominance::{valid_idoms, strict_dominator_set, lemma_chain_len_is_depth, lemma_chain_complete};
use crate::cfg::loops::{preds_marked, lemma_preds_marked_grow};
use crate::cfg::dominance::lemma_walk_skip;
use crate::cfg::reachability::{count_unmarked, lemma_count_unmarked_update};

verus! {

broadcast use vstd::std_specs::hash::group_hash_axioms;

/// `m` holds exactly the keys of `s`, with the same values.
pub open spec fn same_int_map(m: Map<usize, i64>, s: Map<usize, int>) -> bool {
    &&& forall|k: usize| #[trigger] m.contains_key(k) <==> s.contains_key(k)
    &&& forall|k: usize| #[trigger] m.contains_key(k) ==> m[k] as int == s[k]
}

/// A stack or queue of (node, value) pairs, with the values as integers.
pub open spec fn int_pairs(s: Seq<(usize, i64)>) -> Seq<(usize, int)> {
    Seq::new(s.len(), |i: int| (s[i].0, s[i].1 as int))
}

// ---------------------------------------------------------------------------
// Dominator depth (coord_x)
// ---------------------------------------------------------------------------

/// Every node reaches itself.
proof fn lemma_reachable_self(es: Seq<CfgEdge>, a: usize)
    ensures
        reachable_from(es, a, a),
{
    assert(walk_between(es, seq![a], a, a));
}

/// Depth of `b` in the dominator tree rooted at `entry`: the number of its
/// strict dominators.
pub open spec fn dominator_depth(es: Seq<CfgEdge>, entry: usize, n: nat, b: usize) -> int {
    strict_dominator_set(es, entry, n, b).len() as int
}

/// Dominator depth of each block (coord_x): every block reached from
/// `entry` maps to its depth in the dominator tree rooted at `entry` (the
/// entry at 0, each level of dominance one more); blocks not reached have no
/// entry. An `entry` outside the graph maps alone to 0.
pub fn calculate_dominator_depth(cfg: &Cfg, entry: usize) -> (r: HashMap<usize, i64>)
    ensures
        entry >= cfg_blocks(*cfg).len() ==> r@ == map![entry => 0i64],
        entry < cfg_blocks(*cfg).len() ==> forall|b: usize| #[trigger] r@.contains_key(b)
            <==> (b < cfg_blocks(*cfg).len() && reachable_from(cfg_edges(*cfg), entry, b)),
        entry < cfg_blocks(*cfg).len() ==> forall|b: usize| #[trigger] r@.contains_key(b)
            ==> r@[b] as int == dominator_depth(cfg_edges(*cfg), entry, cfg_blocks(*cfg).len(), b),
        r@.contains_key(entry) && r@[entry] == 0,
{
    let n = node_count(cfg);
    let ghost es = cfg_edges(*cfg);
    let mut depths: HashMap<usize, i64> = HashMap::new();
    if entry >= n {
        depths.insert(entry, 0);
        proof {
            assert(depths@ =~= map![entry => 0i64]);
        }
        return depths;
    }
    let idoms = immediate_dominators(cfg, entry);
    proof {
        assert(valid_idoms(es, entry, n as nat, idoms@));
        lemma_valid_chains_end(es, entry, n as nat, idoms@);
        assert forall|i: int| 0 <= i < idoms.len() implies (#[trigger] idoms@[i] matches Some(d) ==> d < idoms.len()) by {
            assert(idom_answer(es, entry, n as nat, i as usize, idoms@[i]));
        }
    }
    let tree = DominatorTree::from_idoms(entry, idoms);
    let mut b: usize = 0;
    while b < n
        invariant
            n == cfg_blocks(*cfg).len(),
            n <= u32::MAX,
            es == cfg_edges(*cfg),
            entry < n,
            b <= n,
            valid_idoms(es, entry, n as nat, tree.idoms()),
            forall|x: usize| #[trigger] depths@.contains_key(x) <==> (x < b && reachable_from(es, entry, x)),
            forall|x: usize| #[trigger] depths@.contains_key(x) ==> depths@[x] as int == dominator_depth(es, entry, n as nat, x),
        decreases n - b,
    {
        proof {
            assert(idom_answer(es, entry, n as nat, b, tree.idoms()[b as int]));
        }
        let reached = b == entry || tree.immediate_dominator(b).is_some();
        proof {
            if b == entry {
                lemma_reachable_self(es, entry);
            }
        }
        if reached {
            let d = tree.depth(b);
            proof {
                lemma_chain_len_is_depth(es, entry, n as nat, tree.idoms(), b);
                lemma_chain_complete(es, entry, n as nat, tree.idoms(), b);
            }
            depths.insert(b, d as i64);
        }
        b = b + 1;
    }
    proof {
        lemma_reachable_self(es, entry);
        lemma_chain_len_is_depth(es, entry, n as nat, tree.idoms(), entry);
        assert(dom_chain(tree.idoms(), entry, n as nat) =~= seq![entry]) by {
            assert(idom_answer(es, entry, n as nat, entry, tree.idoms()[entry as int]));
            lemma_dom_chain_start(tree.idoms(), entry, n as nat);
            reveal_with_fuel(dom_chain, 2);
        }
        assert(strict_dominator_set(es, entry, n as nat, entry).len() == 0);
        assert(depths@.contains_key(entry));
        assert(depths@[entry] as int == dominator_depth(es, entry, n as nat, entry));
    }
    depths
}

// ---------------------------------------------------------------------------
// Branch distance (coord_z)
// ---------------------------------------------------------------------------

/// State of the breadth-first walk behind `calculate_branch_distance`: a
/// queue of (node, distance), the flags of the nodes queued so far, and the
/// distances recorded so far.
pub struct DistanceWalk {
    pub queue: Seq<(usize, int)>,
    pub visited: Seq<bool>,
    pub distances: Map<usize, int>,
}

/// Crossing a conditional edge costs one; any other edge costs nothing.
pub open spec fn branch_cost(kind: EdgeType) -> int {
    if kind == EdgeType::TrueBranch || kind == EdgeType::FalseBranch { 1 } else { 0 }
}

/// The targets of `edges` not seen yet, queued in order, each marked seen
/// as it is queued, at `d` plus the cost of its edge.
pub open spec fn enqueue_children(edges: Seq<(usize, EdgeType)>, visited: Seq<bool>, d: int) -> (Seq<(usize, int)>, Seq<bool>)
    decreases edges.len(),
{
    if edges.len() == 0 {
        (Seq::empty(), visited)
    } else {
        let (q, v) = enqueue_children(edges.drop_last(), visited, d);
        let (m, kind) = edges.last();
        if v[m as int] { (q, v) } else { (q.push((m, d + branch_cost(kind))), v.update(m as int, true)) }
    }
}

/// One step: take the front of the queue, record its distance, and queue
/// the targets of its outgoing edges not seen yet.
pub open spec fn distance_step(g: Cfg, w: DistanceWalk) -> DistanceWalk {
    if w.queue.len() == 0 {
        w
    } else {
        let (node, d) = w.queue[0];
        let (q, v) = enqueue_children(out_edge_order(g, node), w.visited, d);
        DistanceWalk { queue: w.queue.drop_first() + q, visited: v, distances: w.distances.insert(node, d) }
    }
}

/// `k` steps of the breadth-first walk.
pub open spec fn distance_run(g: Cfg, w: DistanceWalk, k: nat) -> DistanceWalk
    decreases k,
{
    if k == 0 { w } else { distance_run(g, distance_step(g, w), (k - 1) as nat) }
}

/// The walk starts with the entry queued at distance 0.
pub open spec fn distance_start(n: nat, entry: usize) -> DistanceWalk {
    DistanceWalk { queue: seq![(entry, 0int)], visited: Seq::new(n, |i: int| i == entry), distances: Map::empty() }
}

/// After `k` steps the queue is empty.
pub open spec fn distance_walk_done(g: Cfg, n: nat, entry: usize, k: nat) -> bool {
    distance_run(g, distance_start(n, entry), k).queue.len() == 0
}

/// The distances the walk records once its queue is empty (only the entry,
/// at distance 0, when it is not a node of the graph).
pub open spec fn branch_distances(g: Cfg, n: nat, entry: usize) -> Map<usize, int> {
    if entry >= n {
        map![entry => 0int]
    } else {
        distance_run(g, distance_start(n, entry), choose|k: nat| distance_walk_done(g, n, entry, k)).distances
    }
}

proof fn lemma_distance_run_step(g: Cfg, w: DistanceWalk, k: nat)
    ensures
        distance_run(g, w, k + 1) == distance_step(g, distance_run(g, w, k)),
    decreases k,
{
    assert(distance_run(g, w, k + 1) == distance_run(g, distance_step(g, w), k));
    if k > 0 {
        lemma_distance_run_step(g, distance_step(g, w), (k - 1) as nat);
        assert(distance_run(g, w, k) == distance_run(g, distance_step(g, w), (k - 1) as nat));
    } else {
        assert(distance_run(g, distance_step(g, w), 0) == distance_step(g, w));
    }
}

proof fn lemma_distance_run_idle(g: Cfg, w: DistanceWalk, k: nat)
    requires
        w.queue.len() == 0,
    ensures
        distance_run(g, w, k) == w,
    decreases k,
{
    if k > 0 {
        lemma_distance_run_idle(g, distance_step(g, w), (k - 1) as nat);
    }
}

proof fn lemma_distance_run_add(g: Cfg, w: DistanceWalk, a: nat, b: nat)
    ensures
        distance_run(g, w, a + b) == distance_run(g, distance_run(g, w, a), b),
    decreases a,
{
    if a > 0 {
        lemma_distance_run_add(g, distance_step(g, w), (a - 1) as nat, b);
        assert((a - 1) as nat + b == (a + b - 1) as nat);
    }
}

/// Once the queue is empty the walk is over: any two finished runs agree.
proof fn lemma_distance_done_unique(g: Cfg, n: nat, entry: usize, a: nat, b: nat)
    requires
        distance_walk_done(g, n, entry, a),
        distance_walk_done(g, n, entry, b),
    ensures
        distance_run(g, distance_start(n, entry), a) == distance_run(g, distance_start(n, entry), b),
{
    let s = distance_start(n, entry);
    if a <= b {
        lemma_distance_run_add(g, s, a, (b - a) as nat);
        lemma_distance_run_idle(g, distance_run(g, s, a), (b - a) as nat);
        assert(a + (b - a) as nat == b);
    } else {
        lemma_distance_run_add(g, s, b, (a - b) as nat);
        lemma_distance_run_idle(g, distance_run(g, s, b), (a - b) as nat);
        assert(b + (a - b) as nat == a);
    }
}

/// Branch distance of each block from `entry` (coord_z): a breadth-first
/// walk that adds one for each true or false branch crossed; a block keeps
/// the distance it had when first queued (see `distance_step`).
pub fn calculate_branch_distance(cfg: &Cfg, entry: usize) -> (r: HashMap<usize, i64>)
    ensures
        same_int_map(r@, branch_distances(*cfg, cfg_blocks(*cfg).len(), entry)),
        r@.contains_key(entry) && r@[entry] == 0,
{
    let n = node_count(cfg);
    let ghost es = cfg_edges(*cfg);
    let mut distances: HashMap<usize, i64> = HashMap::new();
    if entry >= n {
        distances.insert(entry, 0);
        proof {
            assert(same_int_map(distances@, branch_distances(*cfg, n as nat, entry)));
        }
        return distances;
    }
    let mut visited: Vec<bool> = Vec::new();
    let mut k: usize = 0;
    while k < n
        invariant
            k <= n,
            visited@ == Seq::new(k as nat, |i: int| i == entry),
        decreases n - k,
    {
        visited.push(k == entry);
        proof {
            assert(visited@ =~= Seq::new((k + 1) as nat, |i: int| i == entry));
        }
        k = k + 1;
    }
    let mut queue: VecDeque<(usize, i64)> = VecDeque::new();
    queue.push_back((entry, 0));
    let ghost start = distance_start(n as nat, entry);
    let ghost mut steps: nat = 0;
    proof {
        assert(int_pairs(queue@) =~= start.queue);
        assert(distances@.map_values(|v: i64| v as int) =~= Map::<usize, int>::empty());
        assert(visited@ == start.visited);
        let all = Seq::new(n as nat, |i: int| false);
        assert(visited@ =~= all.update(entry as int, true));
        lemma_count_unmarked_all(all);
        lemma_count_unmarked_update(all, entry as int);
    }
    while queue.len() > 0
        invariant
            n == cfg_blocks(*cfg).len(),
            n <= u32::MAX,
            es == cfg_edges(*cfg),
            entry < n,
            start == distance_start(n as nat, entry),
            visited.len() == n,
            distance_run(*cfg, start, steps) == (DistanceWalk {
                queue: int_pairs(queue@),
                visited: visited@,
                distances: distances@.map_values(|v: i64| v as int),
            }),
            forall|j: int| 0 <= j < queue@.len() ==> (#[trigger] queue@[j]).0 < n
                && 0 <= queue@[j].1 <= n - count_unmarked(visited@),
            count_unmarked(visited@) <= n,
            visited@[entry as int],
            steps > 0 ==> distances@.contains_key(entry) && distances@[entry] == 0,
            steps == 0 ==> queue@ == seq![(entry, 0i64)],
            steps > 0 ==> forall|j: int| 0 <= j < queue@.len() ==> (#[trigger] queue@[j]).0 != entry,
        decreases 2 * count_unmarked(visited@) + queue@.len(),
    {
        let ghost before = distance_run(*cfg, start, steps);
        let ghost measure = 2 * count_unmarked(visited@) + queue@.len();
        let (node, d) = queue.pop_front().unwrap();
        proof {
            lemma_distance_run_step(*cfg, start, steps);
            assert(before.queue[0] == (node, d as int));
            assert(int_pairs(queue@) =~= before.queue.drop_first());
        }
        distances.insert(node, d);
        let edges = out_edges(cfg, node);
        let ghost base = int_pairs(queue@);
        let ghost vis0 = visited@;
        let mut j: usize = 0;
        while j < edges.len()
            invariant
                n == cfg_blocks(*cfg).len(),
                n <= u32::MAX,
                node < n,
                entry < n,
                visited.len() == n,
                edges@ == out_edge_order(*cfg, node),
                forall|q: int| 0 <= q < edges.len() ==> (#[trigger] edges@[q]).0 < n,
                0 <= d <= n - count_unmarked(vis0),
                vis0.len() == n,
                count_unmarked(visited@) <= count_unmarked(vis0),
                j <= edges.len(),
                (int_pairs(queue@), visited@) == ({
                    let (q, v) = enqueue_children(edges@.take(j as int), vis0, d as int);
                    (base + q, v)
                }),
                forall|q: int| 0 <= q < queue@.len() ==> (#[trigger] queue@[q]).0 < n
                    && 0 <= queue@[q].1 <= n - count_unmarked(visited@),
                2 * count_unmarked(visited@) + queue@.len() < measure,
                visited@[entry as int],
                forall|q: int| 0 <= q < base.len() ==> (#[trigger] queue@[q]) == (base[q].0, base[q].1 as i64),
                forall|q: int| base.len() <= q < queue@.len() ==> !vis0[(#[trigger] queue@[q]).0 as int],
            decreases edges.len() - j,
        {
            let (m, kind) = edges[j];
            proof {
                assert(edges@.take(j + 1).drop_last() =~= edges@.take(j as int));
                assert(edges@.take(j + 1).last() == (m, kind));
            }
            if !visited[m] {
                let cost: i64 = if kind == EdgeType::TrueBranch || kind == EdgeType::FalseBranch { 1 } else { 0 };
                let ghost prev = queue@;
                let ghost prev_vis = visited@;
                proof {
                    lemma_count_unmarked_update(visited@, m as int);
                }
                visited.set(m, true);
                queue.push_back((m, d + cost));
                proof {
                    assert(int_pairs(queue@) =~= int_pairs(prev).push((m, d + cost)));
                    assert(cost == branch_cost(kind));
                    assert(!vis0[m as int]) by {
                        if vis0[m as int] {
                            assert forall|k: int| 0 <= k < edges@.take(j as int).len() implies
                                (#[trigger] edges@.take(j as int)[k]).0 < vis0.len() by {
                                assert(edges@.take(j as int)[k] == edges@[k]);
                            }
                            lemma_enqueue_keeps_marks(edges@.take(j as int), vis0, d as int, m as int);
                        }
                    }
                }
            }
            j = j + 1;
        }
        proof {
            assert(edges@.take(edges.len() as int) =~= edges@);
            assert(distances@.map_values(|v: i64| v as int) =~= before.distances.insert(node, d as int));
            steps = steps + 1;
            assert(distance_run(*cfg, start, steps) == (DistanceWalk {
                queue: int_pairs(queue@),
                visited: visited@,
                distances: distances@.map_values(|v: i64| v as int),
            }));
        }
    }
    proof {
        assert(distance_walk_done(*cfg, n as nat, entry, steps));
        let c = choose|c: nat| distance_walk_done(*cfg, n as nat, entry, c);
        lemma_distance_done_unique(*cfg, n as nat, entry, c, steps);
        let final_distances = branch_distances(*cfg, n as nat, entry);
        assert(final_distances == distances@.map_values(|v: i64| v as int));
        assert forall|k: usize| #[trigger] distances@.contains_key(k) implies distances@[k] as int == final_distances[k] by {
            assert(distances@.map_values(|v: i64| v as int)[k] == distances@[k] as int);
        }
    }
    distances
}

/// Queuing never clears a mark.
proof fn lemma_enqueue_keeps_marks(edges: Seq<(usize, EdgeType)>, visited: Seq<bool>, d: int, i: int)
    requires
        0 <= i < visited.len(),
        visited[i],
        forall|k: int| 0 <= k < edges.len() ==> (#[trigger] edges[k]).0 < visited.len(),
    ensures
        enqueue_children(edges, visited, d).1.len() == visited.len(),
        enqueue_children(edges, visited, d).1[i],
    decreases edges.len(),
{
    if edges.len() > 0 {
        let pre = edges.drop_last();
        assert forall|k: int| 0 <= k < pre.len() implies (#[trigger] pre[k]).0 < visited.len() by {
            assert(pre[k] == edges[k]);
        }
        lemma_enqueue_keeps_marks(pre, visited, d, i);
        assert(edges[edges.len() - 1] == edges.last());
    }
}

// ---------------------------------------------------------------------------
// Loop nesting depth (coord_y)
// ---------------------------------------------------------------------------

/// The immediate-dominator table as the loop-nesting analysis keeps it:
/// node `v` maps to `idom[v]`, and the entry, when it is not a node, maps
/// to itself; anything else has no entry.
pub open spec fn idom_lookup(idom: Seq<usize>, entry: usize, v: usize) -> Option<usize> {
    if v < idom.len() {
        Some(idom[v as int])
    } else if v == entry {
        Some(entry)
    } else {
        None
    }
}

/// The table's entry for `v`, or `v` itself when it has none.
pub open spec fn idom_or_self(idom: Seq<usize>, entry: usize, v: usize) -> usize {
    match idom_lookup(idom, entry, v) {
        Some(x) => x,
        None => v,
    }
}

/// Two fingers climb the table, the one with the larger index moving each
/// time, until they meet; `None` if they have not met after `fuel` moves.
pub open spec fn climb(idom: Seq<usize>, entry: usize, a: usize, b: usize, fuel: nat) -> Option<usize>
    decreases fuel,
{
    if a == b {
        Some(a)
    } else if fuel == 0 {
        None
    } else if a > b {
        climb(idom, entry, idom_or_self(idom, entry, a), b, (fuel - 1) as nat)
    } else {
        climb(idom, entry, a, idom_or_self(idom, entry, b), (fuel - 1) as nat)
    }
}

/// The first `k` predecessors folded with `climb`, starting from the first.
pub open spec fn climb_all(idom: Seq<usize>, entry: usize, preds: Seq<usize>, k: nat, fuel: nat) -> Option<usize>
    decreases k,
{
    if k <= 1 {
        Some(preds[0])
    } else {
        match climb_all(idom, entry, preds, (k - 1) as nat, fuel) {
            Some(acc) => climb(idom, entry, acc, preds[k - 1], fuel),
            None => None,
        }
    }
}

/// One pass over the nodes `0..k` in order: each node other than the entry
/// with predecessors takes the point where its predecessors' climbs meet,
/// reading the table as updated so far; with whether anything changed.
pub open spec fn idom_pass(g: Cfg, entry: usize, idom: Seq<usize>, k: nat, fuel: nat) -> Option<(Seq<usize>, bool)>
    decreases k,
{
    if k == 0 {
        Some((idom, false))
    } else {
        match idom_pass(g, entry, idom, (k - 1) as nat, fuel) {
            None => None,
            Some((cur, changed)) => {
                let node = (k - 1) as usize;
                let preds = incoming_order(g, node);
                if node == entry || preds.len() == 0 {
                    Some((cur, changed))
                } else {
                    match climb_all(cur, entry, preds, preds.len(), fuel) {
                        None => None,
                        Some(v) => if v != cur[k - 1] { Some((cur.update(k - 1, v), true)) } else { Some((cur, changed)) },
                    }
                }
            },
        }
    }
}

/// Passes repeat until one changes nothing; `None` if that takes more than
/// `rounds` passes or some climb does not end within `fuel` moves.
pub open spec fn idom_passes(g: Cfg, entry: usize, idom: Seq<usize>, rounds: nat, fuel: nat) -> Option<Seq<usize>>
    decreases rounds,
{
    if rounds == 0 {
        None
    } else {
        match idom_pass(g, entry, idom, idom.len(), fuel) {
            None => None,
            Some((next, changed)) => if changed { idom_passes(g, entry, next, (rounds - 1) as nat, fuel) } else { Some(next) },
        }
    }
}

/// The table starts with every node mapped to the entry.
pub open spec fn idom_start(n: nat, entry: usize) -> Seq<usize> {
    Seq::new(n, |i: int| entry)
}

/// Climbing from `cur` looking for `d`: true when found; false when the
/// climb reaches a node with no entry or mapped to itself; `None` if not
/// decided within `fuel` moves.
pub open spec fn dominator_walk(idom: Seq<usize>, entry: usize, cur: usize, d: usize, fuel: nat) -> Option<bool>
    decreases fuel,
{
    match idom_lookup(idom, entry, cur) {
        None => Some(false),
        Some(x) => if x == d {
            Some(true)
        } else if x == cur {
            Some(false)
        } else if fuel == 0 {
            None
        } else {
            dominator_walk(idom, entry, x, d, (fuel - 1) as nat)
        },
    }
}

/// `node` is dominated by `d` according to the table.
pub open spec fn dominated_by(idom: Seq<usize>, entry: usize, node: usize, d: usize, fuel: nat) -> Option<bool> {
    if node == d { Some(true) } else { dominator_walk(idom, entry, node, d, fuel) }
}

/// The edges among the first `k` whose target dominates their source, as
/// (source, target), in edge order.
pub open spec fn table_back_edges(es: Seq<CfgEdge>, idom: Seq<usize>, entry: usize, k: nat, fuel: nat) -> Option<Seq<(usize, usize)>>
    decreases k,
{
    if k == 0 {
        Some(Seq::empty())
    } else {
        match table_back_edges(es, idom, entry, (k - 1) as nat, fuel) {
            None => None,
            Some(prev) => {
                let e = es[k - 1];
                match dominated_by(idom, entry, e.0, e.1, fuel) {
                    None => None,
                    Some(b) => if b { Some(prev.push((e.0, e.1))) } else { Some(prev) },
                }
            },
        }
    }
}

/// With `fuel` bounding the passes and every climb, the analysis finishes.
pub open spec fn nesting_settles_within(g: Cfg, n: nat, entry: usize, fuel: nat) -> bool {
    match idom_passes(g, entry, idom_start(n, entry), fuel, fuel) {
        None => false,
        Some(idom) => table_back_edges(cfg_edges(g), idom, entry, cfg_edges(g).len(), fuel) is Some,
    }
}

/// The loop-nesting analysis finishes on this graph: its dominator passes
/// reach a fixed point and none of its climbs goes round a cycle for ever.
pub open spec fn nesting_settles(g: Cfg, n: nat, entry: usize) -> bool {
    exists|f: nat| nesting_settles_within(g, n, entry, f)
}

/// A bound under which the analysis finishes.
pub open spec fn nesting_fuel(g: Cfg, n: nat, entry: usize) -> nat {
    choose|f: nat| nesting_settles_within(g, n, entry, f)
}

/// The value inside an option (arbitrary for `None`).
pub open spec fn some_value<T>(o: Option<T>) -> T {
    match o {
        Some(x) => x,
        None => arbitrary(),
    }
}

/// The back edges the loop-nesting analysis finds, as (source, target).
pub open spec fn nesting_back_edges(g: Cfg, n: nat, entry: usize) -> Seq<(usize, usize)> {
    let f = nesting_fuel(g, n, entry);
    let es = cfg_edges(g);
    some_value(table_back_edges(es, some_value(idom_passes(g, entry, idom_start(n, entry), f, f)), entry, es.len(), f))
}

/// Some walk leads from `x` to `source` and none of its nodes before
/// `source` is `target`.
pub open spec fn reaches_source_avoiding(es: Seq<CfgEdge>, x: usize, source: usize, target: usize) -> bool {
    exists|p: Seq<usize>| #[trigger] walk_between(es, p, x, source) && !p.drop_last().contains(target)
}

/// `x` belongs to the loop of back edge `source -> target`: the header, or
/// a node that reaches the source without passing through the header.
pub open spec fn in_walked_body(es: Seq<CfgEdge>, source: usize, target: usize, x: usize) -> bool {
    x == target || reaches_source_avoiding(es, x, source, target)
}

/// Number of back edges among the first `k` whose loop holds `x`.
pub open spec fn nest_count(es: Seq<CfgEdge>, bes: Seq<(usize, usize)>, k: nat, x: usize) -> nat
    decreases k,
{
    if k == 0 {
        0
    } else {
        nest_count(es, bes, (k - 1) as nat, x) + if in_walked_body(es, bes[k - 1].0, bes[k - 1].1, x) { 1nat } else { 0nat }
    }
}

proof fn lemma_climb_all_prefix(idom: Seq<usize>, entry: usize, preds: Seq<usize>, j: nat, k: nat, fuel: nat)
    requires
        1 <= j <= k,
        climb_all(idom, entry, preds, k, fuel) is Some,
    ensures
        climb_all(idom, entry, preds, j, fuel) is Some,
    decreases k,
{
    if j < k {
        lemma_climb_all_prefix(idom, entry, preds, j, (k - 1) as nat, fuel);
    }
}

proof fn lemma_idom_pass_prefix(g: Cfg, entry: usize, idom: Seq<usize>, j: nat, k: nat, fuel: nat)
    requires
        j <= k,
        idom_pass(g, entry, idom, k, fuel) is Some,
    ensures
        idom_pass(g, entry, idom, j, fuel) is Some,
    decreases k,
{
    if j < k {
        lemma_idom_pass_prefix(g, entry, idom, j, (k - 1) as nat, fuel);
    }
}

proof fn lemma_idom_pass_len(g: Cfg, entry: usize, idom: Seq<usize>, k: nat, fuel: nat)
    requires
        k <= idom.len(),
        idom_pass(g, entry, idom, k, fuel) is Some,
    ensures
        some_value(idom_pass(g, entry, idom, k, fuel)).0.len() == idom.len(),
    decreases k,
{
    if k > 0 {
        lemma_idom_pass_prefix(g, entry, idom, (k - 1) as nat, k, fuel);
        lemma_idom_pass_len(g, entry, idom, (k - 1) as nat, fuel);
    }
}

proof fn lemma_table_back_edges_prefix(es: Seq<CfgEdge>, idom: Seq<usize>, entry: usize, j: nat, k: nat, fuel: nat)
    requires
        j <= k,
        table_back_edges(es, idom, entry, k, fuel) is Some,
    ensures
        table_back_edges(es, idom, entry, j, fuel) is Some,
    decreases k,
{
    if j < k {
        lemma_table_back_edges_prefix(es, idom, entry, j, (k - 1) as nat, fuel);
    }
}

/// The table's entry for `v`, or `v` itself (see `idom_or_self`).
fn idom_step(idom: &Vec<usize>, v: usize) -> (r: usize)
    ensures
        forall|entry: usize| r == idom_or_self(idom@, entry, v),
{
    if v < idom.len() { idom[v] } else { v }
}

/// Climb two fingers until they meet (see `climb`).
fn intersect_dominators(idom: &Vec<usize>, entry: usize, a: usize, b: usize, Ghost(fuel): Ghost<nat>) -> (r: usize)
    requires
        climb(idom@, entry, a, b, fuel) is Some,
    ensures
        climb(idom@, entry, a, b, fuel) == Some(r),
{
    let mut f1 = a;
    let mut f2 = b;
    let ghost mut left = fuel;
    while f1 != f2
        invariant
            climb(idom@, entry, f1, f2, left) == climb(idom@, entry, a, b, fuel),
            climb(idom@, entry, f1, f2, left) is Some,
        decreases left,
    {
        if f1 > f2 {
            f1 = idom_step(idom, f1);
        } else {
            f2 = idom_step(idom, f2);
        }
        proof {
            left = (left - 1) as nat;
        }
    }
    f1
}

/// Fold the predecessors with `intersect_dominators` (see `climb_all`).
fn meet_of_preds(idom: &Vec<usize>, entry: usize, preds: &Vec<usize>, Ghost(fuel): Ghost<nat>) -> (r: usize)
    requires
        preds.len() >= 1,
        climb_all(idom@, entry, preds@, preds@.len(), fuel) is Some,
    ensures
        climb_all(idom@, entry, preds@, preds@.len(), fuel) == Some(r),
{
    let mut acc = preds[0];
    let mut j: usize = 1;
    while j < preds.len()
        invariant
            1 <= j <= preds.len(),
            climb_all(idom@, entry, preds@, j as nat, fuel) == Some(acc),
            climb_all(idom@, entry, preds@, preds@.len(), fuel) is Some,
        decreases preds.len() - j,
    {
        proof {
            lemma_climb_all_prefix(idom@, entry, preds@, (j + 1) as nat, preds@.len(), fuel);
        }
        acc = intersect_dominators(idom, entry, acc, preds[j], Ghost(fuel));
        j = j + 1;
    }
    acc
}

/// One pass of the dominator table (see `idom_pass`).
fn idom_pass_exec(cfg: &Cfg, entry: usize, idom: &mut Vec<usize>, Ghost(fuel): Ghost<nat>) -> (changed: bool)
    requires
        old(idom).len() == cfg_blocks(*cfg).len(),
        idom_pass(*cfg, entry, old(idom)@, old(idom)@.len(), fuel) is Some,
    ensures
        idom_pass(*cfg, entry, old(idom)@, old(idom)@.len(), fuel) == Some((final(idom)@, changed)),
{
    let n = node_count(cfg);
    let ghost es = cfg_edges(*cfg);
    let ghost start = idom@;
    let mut changed = false;
    let mut k: usize = 0;
    while k < n
        invariant
            n == cfg_blocks(*cfg).len(),
            es == cfg_edges(*cfg),
            start.len() == n,
            idom.len() == n,
            k <= n,
            idom_pass(*cfg, entry, start, k as nat, fuel) == Some((idom@, changed)),
            idom_pass(*cfg, entry, start, n as nat, fuel) is Some,
        decreases n - k,
    {
        proof {
            lemma_idom_pass_prefix(*cfg, entry, start, (k + 1) as nat, n as nat, fuel);
        }
        if k != entry {
            let preds = predecessors(cfg, k);
            if preds.len() > 0 {
                let v = meet_of_preds(idom, entry, &preds, Ghost(fuel));
                if idom[k] != v {
                    idom.set(k, v);
                    changed = true;
                }
            }
        }
        k = k + 1;
    }
    changed
}

/// The dominator table of the loop-nesting analysis (see `idom_passes`).
fn compute_immediate_dominators(cfg: &Cfg, entry: usize, Ghost(fuel): Ghost<nat>) -> (r: Vec<usize>)
    requires
        idom_passes(*cfg, entry, idom_start(cfg_blocks(*cfg).len(), entry), fuel, fuel) is Some,
    ensures
        idom_passes(*cfg, entry, idom_start(cfg_blocks(*cfg).len(), entry), fuel, fuel) == Some(r@),
{
    let n = node_count(cfg);
    let ghost es = cfg_edges(*cfg);
    let ghost target = idom_passes(*cfg, entry, idom_start(n as nat, entry), fuel, fuel);
    let mut idom: Vec<usize> = Vec::new();
    let mut k: usize = 0;
    while k < n
        invariant
            k <= n,
            idom@ == Seq::new(k as nat, |i: int| entry),
        decreases n - k,
    {
        idom.push(entry);
        proof {
            assert(idom@ =~= Seq::new((k + 1) as nat, |i: int| entry));
        }
        k = k + 1;
    }
    let mut changed = true;
    let ghost mut rounds = fuel;
    while changed
        invariant
            n == cfg_blocks(*cfg).len(),
            es == cfg_edges(*cfg),
            idom.len() == n,
            target is Some,
            changed ==> idom_passes(*cfg, entry, idom@, rounds, fuel) == target,
            !changed ==> target == Some(idom@),
        decreases rounds,
    {
        let ghost before = idom@;
        changed = idom_pass_exec(cfg, entry, &mut idom, Ghost(fuel));
        proof {
            lemma_idom_pass_len(*cfg, entry, before, before.len(), fuel);
            rounds = (rounds - 1) as nat;
        }
    }
    idom
}

/// Decide whether `d` dominates `node` by climbing the table (see `dominated_by`).
fn is_dominated_by(idom: &Vec<usize>, entry: usize, node: usize, d: usize, Ghost(fuel): Ghost<nat>) -> (r: bool)
    requires
        dominated_by(idom@, entry, node, d, fuel) is Some,
    ensures
        dominated_by(idom@, entry, node, d, fuel) == Some(r),
{
    if node == d {
        return true;
    }
    let mut current = node;
    let ghost mut left = fuel;
    loop
        invariant
            dominator_walk(idom@, entry, current, d, left) == dominator_walk(idom@, entry, node, d, fuel),
            dominator_walk(idom@, entry, current, d, left) is Some,
            node != d,
        decreases left,
    {
        let x: usize = if current < idom.len() {
            idom[current]
        } else if current == entry {
            entry
        } else {
            return false;
        };
        if x == d {
            return true;
        }
        if x == current {
            return false;
        }
        current = x;
        proof {
            left = (left - 1) as nat;
        }
    }
}

/// The edges whose target dominates their source (see `table_back_edges`).
fn back_edges_from_table(cfg: &Cfg, idom: &Vec<usize>, entry: usize, Ghost(fuel): Ghost<nat>) -> (r: Vec<(usize, usize)>)
    requires
        table_back_edges(cfg_edges(*cfg), idom@, entry, cfg_edges(*cfg).len(), fuel) is Some,
    ensures
        table_back_edges(cfg_edges(*cfg), idom@, entry, cfg_edges(*cfg).len(), fuel) == Some(r@),
        forall|k: int| 0 <= k < r.len() ==> (#[trigger] r@[k]).0 < cfg_blocks(*cfg).len() && r@[k].1 < cfg_blocks(*cfg).len(),
{
    let m = edge_count(cfg);
    let ghost es = cfg_edges(*cfg);
    let mut r: Vec<(usize, usize)> = Vec::new();
    let mut k: usize = 0;
    while k < m
        invariant
            m == es.len(),
            es == cfg_edges(*cfg),
            k <= m,
            table_back_edges(es, idom@, entry, k as nat, fuel) == Some(r@),
            table_back_edges(es, idom@, entry, m as nat, fuel) is Some,
            forall|q: int| 0 <= q < r.len() ==> (#[trigger] r@[q]).0 < cfg_blocks(*cfg).len() && r@[q].1 < cfg_blocks(*cfg).len(),
        decreases m - k,
    {
        proof {
            lemma_table_back_edges_prefix(es, idom@, entry, (k + 1) as nat, m as nat, fuel);
        }
        let (source, target, _kind) = cfg_edge(cfg, k);
        if is_dominated_by(idom, entry, source, target, Ghost(fuel)) {
            r.push((source, target));
        }
        k = k + 1;
    }
    r
}

/// A walk whose steps all go backwards into a set closed under predecessors
/// (other than `h`), and whose nodes before the last avoid `h`, starts in
/// the set.
proof fn lemma_backward_closed_before(es: Seq<CfgEdge>, h: usize, s: spec_fn(usize) -> bool, p: Seq<usize>)
    requires
        is_walk(es, p),
        !p.drop_last().contains(h),
        s(p.last()),
        forall|i: int| 0 <= i < es.len() && s((#[trigger] es[i]).1) && es[i].0 != h ==> s(es[i].0),
    ensures
        s(p[0]),
    decreases p.len(),
{
    if p.len() > 1 {
        lemma_walk_skip(es, p, 1);
        let q = p.skip(1);
        assert forall|x: usize| q.drop_last().contains(x) implies p.drop_last().contains(x) by {
            let j = choose|j: int| 0 <= j < q.drop_last().len() && q.drop_last()[j] == x;
            assert(p.drop_last()[j + 1] == x);
        }
        lemma_backward_closed_before(es, h, s, q);
        assert(has_edge(es, p[0], p[1]));
        let k = choose|k: int| 0 <= k < es.len() && (#[trigger] es[k]).0 == p[0] && es[k].1 == p[1];
        assert(p[0] != h) by {
            assert(p.drop_last()[0] == p[0]);
        }
    }
}

/// Flags of the nodes in the loop of back edge `source -> target` (see
/// `in_walked_body`): from the source, predecessors other than the header
/// are followed, and the header is added.
fn walked_body_flags(cfg: &Cfg, source: usize, target: usize) -> (marked: Vec<bool>)
    requires
        source < cfg_blocks(*cfg).len(),
        target < cfg_blocks(*cfg).len(),
    ensures
        marked.len() == cfg_blocks(*cfg).len(),
        forall|i: int| 0 <= i < marked.len() ==>
            (#[trigger] marked@[i] <==> in_walked_body(cfg_edges(*cfg), source, target, i as usize)),
{
    let n = node_count(cfg);
    let ghost es = cfg_edges(*cfg);
    let mut marked: Vec<bool> = Vec::new();
    let mut k: usize = 0;
    while k < n
        invariant
            k <= n,
            marked.len() == k,
            forall|i: int| 0 <= i < k ==> !marked@[i],
        decreases n - k,
    {
        marked.push(false);
        k = k + 1;
    }
    proof {
        lemma_count_unmarked_update(marked@, source as int);
        let p = seq![source];
        assert(walk_between(es, p, source, source));
        assert(p.drop_last() =~= Seq::<usize>::empty());
        assert(reaches_source_avoiding(es, source, source, target));
    }
    marked.set(source, true);
    let mut work: Vec<usize> = Vec::new();
    work.push(source);
    while work.len() > 0
        invariant
            n == cfg_blocks(*cfg).len(),
            es == cfg_edges(*cfg),
            source < n,
            target < n,
            marked.len() == n,
            marked@[source as int],
            forall|j: int| 0 <= j < work.len() ==> (#[trigger] work@[j]) < n && marked@[work@[j] as int],
            forall|i: usize| i < n && #[trigger] marked@[i as int] ==> reaches_source_avoiding(es, i, source, target),
            forall|w: usize| w < n && #[trigger] marked@[w as int] ==>
                work@.contains(w) || preds_marked(es, marked@, target, w),
        decreases 2 * count_unmarked(marked@) + work.len(),
    {
        let ghost measure = 2 * count_unmarked(marked@) + work.len();
        let ghost old_work = work@;
        let u = work.pop().unwrap();
        proof {
            assert(old_work == work@.push(u));
            assert forall|w: usize| w < n && w != u && #[trigger] marked@[w as int] implies
                work@.contains(w) || preds_marked(es, marked@, target, w) by {
                if old_work.contains(w) {
                    let q = choose|q: int| 0 <= q < old_work.len() && old_work[q] == w;
                    assert(work@[q] == w);
                }
            }
        }
        let preds = predecessors(cfg, u);
        proof {
            lemma_same_multiset(preds@, in_nbrs(es, u));
        }
        let mut j: usize = 0;
        while j < preds.len()
            invariant
                n == cfg_blocks(*cfg).len(),
                es == cfg_edges(*cfg),
                source < n,
                target < n,
                u < n,
                marked@[u as int],
                marked@[source as int],
                forall|x: usize| #![trigger preds@.contains(x)] #![trigger in_nbrs(es, u).contains(x)]
                    preds@.contains(x) <==> in_nbrs(es, u).contains(x),
                forall|k: int| 0 <= k < preds.len() ==> (#[trigger] preds@[k]) < n,
                j <= preds.len(),
                marked.len() == n,
                2 * count_unmarked(marked@) + work.len() < measure,
                forall|k: int| 0 <= k < j ==> (#[trigger] preds@[k]) == target || marked@[preds@[k] as int],
                forall|q: int| 0 <= q < work.len() ==> (#[trigger] work@[q]) < n && marked@[work@[q] as int],
                forall|i: usize| i < n && #[trigger] marked@[i as int] ==> reaches_source_avoiding(es, i, source, target),
                forall|w: usize| w < n && w != u && #[trigger] marked@[w as int] ==>
                    work@.contains(w) || preds_marked(es, marked@, target, w),
            decreases preds.len() - j,
        {
            let x = preds[j];
            if x != target && !marked[x] {
                proof {
                    lemma_count_unmarked_update(marked@, x as int);
                    assert(reaches_source_avoiding(es, u, source, target));
                    let p = choose|p: Seq<usize>| #[trigger] walk_between(es, p, u, source) && !p.drop_last().contains(target);
                    assert(preds@.contains(x)) by { assert(preds@[j as int] == x); }
                    lemma_in_nbrs_contains(es, u, x);
                    let q = seq![x] + p;
                    assert forall|i: int| 0 <= i < q.len() - 1 implies has_edge(es, #[trigger] q[i], q[i + 1]) by {
                        if i > 0 {
                            assert(q[i] == p[i - 1] && q[i + 1] == p[i]);
                        } else {
                            assert(q[1] == p[0]);
                        }
                    }
                    assert(q.last() == p.last());
                    assert(q.drop_last() =~= seq![x] + p.drop_last());
                    assert(!q.drop_last().contains(target)) by {
                        if q.drop_last().contains(target) {
                            let j2 = choose|j2: int| 0 <= j2 < q.drop_last().len() && q.drop_last()[j2] == target;
                            if j2 > 0 {
                                assert(p.drop_last()[j2 - 1] == target);
                            }
                        }
                    }
                    assert(walk_between(es, q, x, source));
                    assert(reaches_source_avoiding(es, x, source, target));
                }
                let ghost before = marked@;
                let ghost before_work = work@;
                marked.set(x, true);
                work.push(x);
                proof {
                    assert forall|w: usize| w < n && w != u && #[trigger] marked@[w as int] implies
                        work@.contains(w) || preds_marked(es, marked@, target, w) by {
                        if w == x {
                            assert(work@[work.len() - 1] == x);
                        } else {
                            assert(before[w as int]);
                            if before_work.contains(w) {
                                let q = choose|q: int| 0 <= q < before_work.len() && before_work[q] == w;
                                assert(work@[q] == w);
                            } else {
                                lemma_preds_marked_grow(es, before, marked@, target, w);
                            }
                        }
                    }
                }
            }
            j = j + 1;
        }
        proof {
            assert forall|x: usize| #[trigger] in_nbrs(es, u).contains(x) implies
                x == target || (x < marked@.len() && marked@[x as int]) by {
                let k = choose|k: int| 0 <= k < preds@.len() && preds@[k] == x;
            }
            assert(preds_marked(es, marked@, target, u));
        }
    }
    proof {
        let s = |x: usize| x < n && marked@[x as int];
        assert forall|i: int| 0 <= i < es.len() && s((#[trigger] es[i]).1) && es[i].0 != target implies s(es[i].0) by {
            let a = es[i].0;
            let b = es[i].1;
            assert(has_edge(es, a, b));
            lemma_in_nbrs_contains(es, b, a);
            assert(marked@[b as int]);
            assert(!work@.contains(b));
            assert(preds_marked(es, marked@, target, b));
            assert(in_nbrs(es, b).contains(a));
        }
        assert forall|i: int| 0 <= i < marked.len() implies
            (#[trigger] marked@[i] <==> reaches_source_avoiding(es, i as usize, source, target)) by {
            let t = i as usize;
            if marked@[i] {
                assert(marked@[t as int]);
            }
            if reaches_source_avoiding(es, t, source, target) {
                let p = choose|p: Seq<usize>| #[trigger] walk_between(es, p, t, source) && !p.drop_last().contains(target);
                lemma_backward_closed_before(es, target, s, p);
            }
        }
    }
    marked.set(target, true);
    marked
}

/// The loop body of back edge `source -> target`: the header and every node
/// that reaches the source without passing through the header.
pub fn identify_loop_body(cfg: &Cfg, source: usize, target: usize) -> (body: HashSet<usize>)
    requires
        source < cfg_blocks(*cfg).len(),
        target < cfg_blocks(*cfg).len(),
    ensures
        forall|x: usize| #[trigger] body@.contains(x) <==>
            (x < cfg_blocks(*cfg).len() && in_walked_body(cfg_edges(*cfg), source, target, x)),
{
    let marked = walked_body_flags(cfg, source, target);
    let mut body: HashSet<usize> = HashSet::new();
    let mut i: usize = 0;
    while i < marked.len()
        invariant
            i <= marked.len(),
            marked.len() == cfg_blocks(*cfg).len(),
            forall|k: int| 0 <= k < marked.len() ==>
                (#[trigger] marked@[k] <==> in_walked_body(cfg_edges(*cfg), source, target, k as usize)),
            forall|x: usize| #[trigger] body@.contains(x) <==> (x < i && marked@[x as int]),
        decreases marked.len() - i,
    {
        if marked[i] {
            body.insert(i);
        }
        i = i + 1;
    }
    body
}

/// The back edges of the graph, as (source, target): the edges whose target
/// dominates their source, in edge order, with dominators computed from
/// `entry` by the iterative pass this analysis uses.
pub fn find_back_edges(cfg: &Cfg, entry: usize) -> (r: Vec<(usize, usize)>)
    requires
        nesting_settles(*cfg, cfg_blocks(*cfg).len(), entry),
    ensures
        r@ == nesting_back_edges(*cfg, cfg_blocks(*cfg).len(), entry),
        r.len() <= cfg_edges(*cfg).len(),
        forall|k: int| 0 <= k < r.len() ==> (#[trigger] r@[k]).0 < cfg_blocks(*cfg).len() && r@[k].1 < cfg_blocks(*cfg).len(),
{
    let n = node_count(cfg);
    let m = edge_count(cfg);
    let ghost es = cfg_edges(*cfg);
    let ghost fuel = nesting_fuel(*cfg, n as nat, entry);
    let idom = compute_immediate_dominators(cfg, entry, Ghost(fuel));
    let back_edges = back_edges_from_table(cfg, &idom, entry, Ghost(fuel));
    proof {
        lemma_table_back_edges_len(es, idom@, entry, m as nat, fuel);
    }
    back_edges
}

/// `climb` with an explicit move budget.
fn intersect_within(idom: &Vec<usize>, entry: usize, a: usize, b: usize, fuel: usize) -> (r: Option<usize>)
    ensures
        r == climb(idom@, entry, a, b, fuel as nat),
{
    let mut f1 = a;
    let mut f2 = b;
    let mut left = fuel;
    while f1 != f2
        invariant
            climb(idom@, entry, f1, f2, left as nat) == climb(idom@, entry, a, b, fuel as nat),
        decreases left,
    {
        if left == 0 {
            return None;
        }
        if f1 > f2 {
            f1 = idom_step(idom, f1);
        } else {
            f2 = idom_step(idom, f2);
        }
        left = left - 1;
    }
    Some(f1)
}

/// `climb_all` with an explicit move budget.
fn meet_within(idom: &Vec<usize>, entry: usize, preds: &Vec<usize>, fuel: usize) -> (r: Option<usize>)
    requires
        preds.len() >= 1,
    ensures
        r == climb_all(idom@, entry, preds@, preds@.len(), fuel as nat),
{
    let mut acc = preds[0];
    let mut j: usize = 1;
    while j < preds.len()
        invariant
            1 <= j <= preds.len(),
            climb_all(idom@, entry, preds@, j as nat, fuel as nat) == Some(acc),
        decreases preds.len() - j,
    {
        match intersect_within(idom, entry, acc, preds[j], fuel) {
            Some(x) => {
                acc = x;
            },
            None => {
                proof {
                    if climb_all(idom@, entry, preds@, preds@.len(), fuel as nat) is Some {
                        lemma_climb_all_prefix(idom@, entry, preds@, (j + 1) as nat, preds@.len(), fuel as nat);
                    }
                }
                return None;
            },
        }
        j = j + 1;
    }
    Some(acc)
}

/// `idom_pass` with an explicit move budget; `None` when a climb runs out.
fn pass_within(cfg: &Cfg, entry: usize, idom: &mut Vec<usize>, fuel: usize) -> (r: Option<bool>)
    requires
        old(idom).len() == cfg_blocks(*cfg).len(),
    ensures
        final(idom).len() == old(idom).len(),
        idom_pass(*cfg, entry, old(idom)@, old(idom)@.len(), fuel as nat) == (match r {
            Some(c) => Some((final(idom)@, c)),
            None => None::<(Seq<usize>, bool)>,
        }),
{
    let n = node_count(cfg);
    let ghost start = idom@;
    let mut changed = false;
    let mut k: usize = 0;
    while k < n
        invariant
            n == cfg_blocks(*cfg).len(),
            start == old(idom)@,
            start.len() == n,
            idom.len() == n,
            k <= n,
            idom_pass(*cfg, entry, start, k as nat, fuel as nat) == Some((idom@, changed)),
        decreases n - k,
    {
        if k != entry {
            let preds = predecessors(cfg, k);
            if preds.len() > 0 {
                match meet_within(idom, entry, &preds, fuel) {
                    Some(v) => {
                        if idom[k] != v {
                            idom.set(k, v);
                            changed = true;
                        }
                    },
                    None => {
                        proof {
                            assert(idom_pass(*cfg, entry, start, (k + 1) as nat, fuel as nat) is None);
                            if idom_pass(*cfg, entry, start, n as nat, fuel as nat) is Some {
                                lemma_idom_pass_prefix(*cfg, entry, start, (k + 1) as nat, n as nat, fuel as nat);
                            }
                        }
                        return None;
                    },
                }
            }
        }
        k = k + 1;
    }
    Some(changed)
}

/// `idom_passes` with an explicit budget of passes and moves.
fn dominators_within(cfg: &Cfg, entry: usize, fuel: usize) -> (r: Option<Vec<usize>>)
    ensures
        idom_passes(*cfg, entry, idom_start(cfg_blocks(*cfg).len(), entry), fuel as nat, fuel as nat) == (match r {
            Some(v) => Some(v@),
            None => None::<Seq<usize>>,
        }),
{
    let n = node_count(cfg);
    let ghost target = idom_passes(*cfg, entry, idom_start(n as nat, entry), fuel as nat, fuel as nat);
    let mut idom: Vec<usize> = Vec::new();
    let mut k: usize = 0;
    while k < n
        invariant
            k <= n,
            idom@ == Seq::new(k as nat, |i: int| entry),
        decreases n - k,
    {
        idom.push(entry);
        proof {
            assert(idom@ =~= Seq::new((k + 1) as nat, |i: int| entry));
        }
        k = k + 1;
    }
    let mut rounds = fuel;
    proof {
        assert(idom@ =~= idom_start(n as nat, entry));
    }
    loop
        invariant
            n == cfg_blocks(*cfg).len(),
            idom.len() == n,
            target == idom_passes(*cfg, entry, idom_start(n as nat, entry), fuel as nat, fuel as nat),
            idom_passes(*cfg, entry, idom@, rounds as nat, fuel as nat) == target,
        decreases rounds,
    {
        if rounds == 0 {
            return None;
        }
        let ghost before = idom@;
        proof {
            assert(idom_passes(*cfg, entry, before, rounds as nat, fuel as nat) == match idom_pass(*cfg, entry, before, before.len(), fuel as nat) {
                None => None,
                Some((next, changed)) => if changed { idom_passes(*cfg, entry, next, (rounds - 1) as nat, fuel as nat) } else { Some(next) },
            });
        }
        match pass_within(cfg, entry, &mut idom, fuel) {
            None => {
                return None;
            },
            Some(changed) => {
                if !changed {
                    return Some(idom);
                }
            },
        }
        rounds = rounds - 1;
    }
}

/// `dominated_by` with an explicit move budget.
fn dominated_within(idom: &Vec<usize>, entry: usize, node: usize, d: usize, fuel: usize) -> (r: Option<bool>)
    ensures
        r == dominated_by(idom@, entry, node, d, fuel as nat),
{
    if node == d {
        return Some(true);
    }
    let mut current = node;
    let mut left = fuel;
    loop
        invariant
            dominator_walk(idom@, entry, current, d, left as nat) == dominator_walk(idom@, entry, node, d, fuel as nat),
            node != d,
        decreases left,
    {
        let x: usize = if current < idom.len() {
            idom[current]
        } else if current == entry {
            entry
        } else {
            return Some(false);
        };
        if x == d {
            return Some(true);
        }
        if x == current {
            return Some(false);
        }
        if left == 0 {
            return None;
        }
        current = x;
        left = left - 1;
    }
}

/// The back edges of the graph as the loop-nesting analysis finds them
/// (see `find_back_edges`), with `fuel` bounding the dominator passes and
/// every climb: `None` exactly when the analysis does not finish within
/// that bound.
pub fn find_back_edges_within(cfg: &Cfg, entry: usize, fuel: usize) -> (r: Option<Vec<(usize, usize)>>)
    ensures
        r is Some <==> nesting_settles_within(*cfg, cfg_blocks(*cfg).len(), entry, fuel as nat),
        r matches Some(v) ==> Some(v@) == table_back_edges(cfg_edges(*cfg),
            some_value(idom_passes(*cfg, entry, idom_start(cfg_blocks(*cfg).len(), entry), fuel as nat, fuel as nat)),
            entry, cfg_edges(*cfg).len(), fuel as nat),
{
    let idom = match dominators_within(cfg, entry, fuel) {
        Some(t) => t,
        None => {
            return None;
        },
    };
    let m = edge_count(cfg);
    let ghost es = cfg_edges(*cfg);
    let mut r: Vec<(usize, usize)> = Vec::new();
    let mut k: usize = 0;
    while k < m
        invariant
            m == es.len(),
            es == cfg_edges(*cfg),
            k <= m,
            Some(idom@) == idom_passes(*cfg, entry, idom_start(cfg_blocks(*cfg).len(), entry), fuel as nat, fuel as nat),
            table_back_edges(es, idom@, entry, k as nat, fuel as nat) == Some(r@),
        decreases m - k,
    {
        let (source, target, _kind) = cfg_edge(cfg, k);
        match dominated_within(&idom, entry, source, target, fuel) {
            Some(b) => {
                if b {
                    r.push((source, target));
                }
            },
            None => {
                proof {
                    assert(table_back_edges(es, idom@, entry, (k + 1) as nat, fuel as nat) is None);
                    if table_back_edges(es, idom@, entry, m as nat, fuel as nat) is Some {
                        lemma_table_back_edges_prefix(es, idom@, entry, (k + 1) as nat, m as nat, fuel as nat);
                    }
                }
                return None;
            },
        }
        k = k + 1;
    }
    Some(r)
}

/// Loop nesting depth of each block (coord_y): the number of back edges
/// (edges whose target dominates their source in the analysis' own
/// dominator table) whose loop holds the block.
pub fn calculate_loop_nesting_depth(cfg: &Cfg, entry: usize) -> (r: HashMap<usize, i64>)
    requires
        nesting_settles(*cfg, cfg_blocks(*cfg).len(), entry),
    ensures
        forall|x: usize| #[trigger] r@.contains_key(x) <==> x < cfg_blocks(*cfg).len(),
        forall|x: usize| x < cfg_blocks(*cfg).len() ==> #[trigger] r@[x] as int == nest_count(
            cfg_edges(*cfg),
            nesting_back_edges(*cfg, cfg_blocks(*cfg).len(), entry),
            nesting_back_edges(*cfg, cfg_blocks(*cfg).len(), entry).len(),
            x,
        ),
{
    let n = node_count(cfg);
    let m = edge_count(cfg);
    let ghost es = cfg_edges(*cfg);
    let back_edges = find_back_edges(cfg, entry);
    let ghost bes = back_edges@;
    let mut counts: Vec<i64> = Vec::new();
    let mut k: usize = 0;
    while k < n
        invariant
            k <= n,
            counts.len() == k,
            forall|x: int| 0 <= x < k ==> counts@[x] == 0,
        decreases n - k,
    {
        counts.push(0);
        k = k + 1;
    }
    let mut e: usize = 0;
    while e < back_edges.len()
        invariant
            n == cfg_blocks(*cfg).len(),
            es == cfg_edges(*cfg),
            bes == back_edges@,
            bes.len() <= u32::MAX,
            forall|q: int| 0 <= q < bes.len() ==> (#[trigger] bes[q]).0 < n && bes[q].1 < n,
            e <= bes.len(),
            counts.len() == n,
            forall|x: int| 0 <= x < n ==> (#[trigger] counts@[x]) as int == nest_count(es, bes, e as nat, x as usize),
            forall|x: int| 0 <= x < n ==> (#[trigger] counts@[x]) <= e,
        decreases bes.len() - e,
    {
        let (source, target) = back_edges[e];
        let body = identify_loop_body(cfg, source, target);
        let mut x: usize = 0;
        while x < n
            invariant
                n == cfg_blocks(*cfg).len(),
                es == cfg_edges(*cfg),
                source < n,
                target < n,
                (source, target) == bes[e as int],
                e < bes.len(),
                bes.len() <= u32::MAX,
                x <= n,
                counts.len() == n,
                forall|y: usize| #[trigger] body@.contains(y) <==> (y < n && in_walked_body(es, source, target, y)),
                forall|y: int| 0 <= y < x ==> (#[trigger] counts@[y]) as int == nest_count(es, bes, (e + 1) as nat, y as usize),
                forall|y: int| x <= y < n ==> (#[trigger] counts@[y]) as int == nest_count(es, bes, e as nat, y as usize),
                forall|y: int| 0 <= y < n ==> (#[trigger] counts@[y]) <= e + 1,
                forall|y: int| x <= y < n ==> (#[trigger] counts@[y]) <= e,
            decreases n - x,
        {
            if body.contains(&x) {
                let c = counts[x];
                counts.set(x, c + 1);
            }
            x = x + 1;
        }
        e = e + 1;
    }
    let mut r: HashMap<usize, i64> = HashMap::new();
    let mut x: usize = 0;
    while x < n
        invariant
            n == cfg_blocks(*cfg).len(),
            x <= n,
            counts.len() == n,
            forall|y: int| 0 <= y < n ==> (#[trigger] counts@[y]) as int == nest_count(es, bes, bes.len(), y as usize),
            forall|y: usize| #[trigger] r@.contains_key(y) <==> y < x,
            forall|y: usize| y < x ==> #[trigger] r@[y] == counts@[y as int],
        decreases n - x,
    {
        r.insert(x, counts[x]);
        x = x + 1;
    }
    r
}

proof fn lemma_table_back_edges_len(es: Seq<CfgEdge>, idom: Seq<usize>, entry: usize, k: nat, fuel: nat)
    requires
        table_back_edges(es, idom, entry, k, fuel) is Some,
    ensures
        some_value(table_back_edges(es, idom, entry, k, fuel)).len() <= k,
    decreases k,
{
    if k > 0 {
        lemma_table_back_edges_prefix(es, idom, entry, (k - 1) as nat, k, fuel);
        lemma_table_back_edges_len(es, idom, entry, (k - 1) as nat, fuel);
    }
}

proof fn lemma_count_unmarked_all(s: Seq<bool>)
    requires
        forall|i: int| 0 <= i < s.len() ==> !s[i],
    ensures
        count_unmarked(s) == s.len(),
    decreases s.len(),
{
    if s.len() > 0 {
        lemma_count_unmarked_all(s.drop_last());
    }
}

} // verus!
