//! The depth-first path search shared by the enumerators, stated as a
//! recursive specification: which paths a search from the entry records,
//! and in which order.
//!
//! A search extends the current path one successor at a time. A node that
//! is not a loop header is never entered twice on the same path; a loop
//! header is entered at most `unroll` times. A path is recorded when it
//! reaches an exit node (and, for searches that record dead ends, a node
//! without successors). Paths longer than `max_length` are abandoned.

use vstd::prelude::*;
use std::collections::HashSet;
use crate::cfg::BasicBlock;
use crate::cfg::graph::{CfgEdge, out_nbrs};
use crate::cfg::paths::{Path, PathKind, first_or_zero, last_or_zero};
use crate::cfg::paths::limits::path_hash;
use crate::cfg::paths::feasibility::classify_precomputed_spec;

verus! {

/// What a path search reads: successor lists, exit and loop-header flags
/// per node, the length and unrolling limits, and whether nodes without
/// successors end a path.
pub struct SearchSpec {
    pub succs: Seq<Seq<usize>>,
    pub exit: Seq<bool>,
    pub header: Seq<bool>,
    pub max_length: nat,
    pub unroll: nat,
    pub dead_ends: bool,
}

/// The flag of node `u` (false outside the table).
pub open spec fn flag(s: Seq<bool>, u: usize) -> bool {
    u < s.len() && s[u as int]
}

/// The successor list of node `u` (empty outside the table).
pub open spec fn succ_list(g: SearchSpec, u: usize) -> Seq<usize> {
    if u < g.succs.len() { g.succs[u as int] } else { Seq::empty() }
}

/// Number of occurrences of `x` in `s`.
pub open spec fn count_in(s: Seq<usize>, x: usize) -> nat
    decreases s.len(),
{
    if s.len() == 0 {
        0
    } else {
        count_in(s.drop_last(), x) + if s.last() == x { 1nat } else { 0nat }
    }
}

/// Progress of a search run: steps taken, paths recorded, whether it has
/// stopped, and whether the step budget stopped it.
pub struct RunState {
    pub visits: nat,
    pub recs: nat,
    pub stopped: bool,
    pub budget_hit: bool,
}

/// A run that has not started.
pub open spec fn run_start() -> RunState {
    RunState { visits: 0, recs: 0, stopped: false, budget_hit: false }
}

/// One event of a search: a step into a node (`true`) costs one unit of the
/// budget, and with the budget spent stops the run instead; recording a
/// path (`false`) stops the run once `cap` paths are recorded.
pub open spec fn run_step(e: bool, s: RunState, cap: nat, budget: nat) -> RunState {
    if e {
        if s.visits >= budget {
            RunState { visits: s.visits, recs: s.recs, stopped: true, budget_hit: true }
        } else {
            RunState { visits: s.visits + 1, recs: s.recs, stopped: s.stopped, budget_hit: s.budget_hit }
        }
    } else {
        RunState { visits: s.visits, recs: s.recs + 1, stopped: s.recs + 1 >= cap, budget_hit: s.budget_hit }
    }
}

/// The state after the events `ev`, in order, until the run stops.
pub open spec fn replay(ev: Seq<bool>, s: RunState, cap: nat, budget: nat) -> RunState
    decreases ev.len(),
{
    if ev.len() == 0 || s.stopped {
        s
    } else {
        replay(ev.drop_first(), run_step(ev[0], s, cap, budget), cap, budget)
    }
}

/// Events replay one list after the other.
pub proof fn lemma_replay_append(a: Seq<bool>, b: Seq<bool>, s: RunState, cap: nat, budget: nat)
    ensures
        replay(a + b, s, cap, budget) == replay(b, replay(a, s, cap, budget), cap, budget),
    decreases a.len(),
{
    if a.len() == 0 {
        assert(a + b =~= b);
    } else if s.stopped {
        assert(replay(b, s, cap, budget) == s);
    } else {
        assert((a + b).drop_first() =~= a.drop_first() + b);
        assert((a + b)[0] == a[0]);
        lemma_replay_append(a.drop_first(), b, run_step(a[0], s, cap, budget), cap, budget);
    }
}

/// Replaying a step and then more events.
pub proof fn lemma_replay_step(e: bool, rest: Seq<bool>, s: RunState, cap: nat, budget: nat)
    requires
        !s.stopped,
    ensures
        replay(seq![e] + rest, s, cap, budget) == replay(rest, run_step(e, s, cap, budget), cap, budget),
{
    assert((seq![e] + rest).drop_first() =~= rest);
    assert((seq![e] + rest)[0] == e);
}

/// A replay that has stopped stays as it is.
pub proof fn lemma_replay_stopped(ev: Seq<bool>, s: RunState, cap: nat, budget: nat)
    requires
        s.stopped,
    ensures
        replay(ev, s, cap, budget) == s,
{
}

/// The events of a search that has just stepped into `stack.last()` along
/// `stack`, with `keyed` marking the loop headers entered so far: a step
/// into the node, then a recorded path at an exit (or, when dead ends
/// count, at a node without successors), or the events below its
/// successors in order. Also returns the loop headers entered afterwards.
/// With `skips`, the search does not step into a successor that is on the
/// path (unless it is a loop header entered before), nor into a loop header
/// entered before whose unrolling limit the path has reached; without it,
/// it steps into every successor and turns back at once from a node on the
/// path that is not a loop header.
pub open spec fn step_trace(g: SearchSpec, stack: Seq<usize>, keyed: Seq<bool>, skips: bool) -> (Seq<bool>, Seq<bool>)
    decreases g.max_length + 1 - stack.len(), 1int, 0int,
{
    if stack.len() == 0 || stack.len() > g.max_length {
        (seq![true], keyed)
    } else {
        let u = stack.last();
        if flag(g.exit, u) {
            (seq![true, false], keyed)
        } else if !skips && !flag(g.header, u) && stack.drop_last().contains(u) {
            (seq![true], keyed)
        } else {
            let k1 = if flag(g.header, u) && u < keyed.len() { keyed.update(u as int, true) } else { keyed };
            if flag(g.header, u) && count_in(stack.drop_last(), u) >= g.unroll {
                (seq![true], k1)
            } else if g.dead_ends && succ_list(g, u).len() == 0 {
                (seq![true, false], k1)
            } else {
                let r = children_trace(g, stack, 0, k1, skips);
                (seq![true] + r.0, r.1)
            }
        }
    }
}

/// Every search event list starts with the step into the node.
pub proof fn lemma_trace_head(g: SearchSpec, stack: Seq<usize>, keyed: Seq<bool>, skips: bool)
    ensures
        step_trace(g, stack, keyed, skips).0.len() >= 1,
        step_trace(g, stack, keyed, skips).0[0] == true,
{
}

/// The search skips successor `s` of `stack.last()` (see `step_trace`).
pub open spec fn skips_child(g: SearchSpec, stack: Seq<usize>, keyed: Seq<bool>, skips: bool, s: usize) -> bool {
    let entered = flag(g.header, s) && flag(keyed, s);
    skips && ((stack.contains(s) && !entered) || (entered && count_in(stack, s) >= g.unroll))
}

/// The events below the successors `i..` of `stack.last()`, in order, and
/// the loop headers entered afterwards.
pub open spec fn children_trace(g: SearchSpec, stack: Seq<usize>, i: int, keyed: Seq<bool>, skips: bool)
    -> (Seq<bool>, Seq<bool>)
    decreases g.max_length + 1 - stack.len(), 0int, succ_list(g, stack.last()).len() - i,
{
    if stack.len() == 0 || stack.len() > g.max_length || i < 0 || i >= succ_list(g, stack.last()).len() {
        (Seq::empty(), keyed)
    } else {
        let s = succ_list(g, stack.last())[i];
        let first = if skips_child(g, stack, keyed, skips, s) {
            (Seq::<bool>::empty(), keyed)
        } else {
            step_trace(g, stack.push(s), keyed, skips)
        };
        let rest = children_trace(g, stack, i + 1, first.1, skips);
        (first.0 + rest.0, rest.1)
    }
}

/// Some node is an exit.
pub open spec fn has_exit(g: SearchSpec) -> bool {
    exists|u: int| 0 <= u < g.exit.len() && g.exit[u]
}

/// The run of a capped, budgeted search from the entry (node 0) of a graph
/// of `n` nodes, no loop header entered yet; no run at all when the graph
/// is empty.
pub open spec fn search_run(g: SearchSpec, n: nat, cap: nat, budget: nat, skips: bool) -> RunState {
    if n == 0 {
        run_start()
    } else {
        replay(step_trace(g, seq![0usize], Seq::new(n, |i: int| false), skips).0, run_start(), cap, budget)
    }
}

/// The paths (as node sequences, in search order) recorded when the search
/// has just entered `stack.last()` along `stack`.
pub open spec fn explore(g: SearchSpec, stack: Seq<usize>) -> Seq<Seq<usize>>
    decreases g.max_length + 1 - stack.len(), 1int, 0int,
{
    if stack.len() == 0 || stack.len() > g.max_length {
        Seq::empty()
    } else {
        let u = stack.last();
        if flag(g.exit, u) {
            seq![stack]
        } else if flag(g.header, u) && count_in(stack.drop_last(), u) >= g.unroll {
            Seq::empty()
        } else if g.dead_ends && succ_list(g, u).len() == 0 {
            seq![stack]
        } else {
            explore_children(g, stack, 0)
        }
    }
}

/// The paths recorded below the successors `i..` of `stack.last()`, in order.
pub open spec fn explore_children(g: SearchSpec, stack: Seq<usize>, i: int) -> Seq<Seq<usize>>
    decreases g.max_length + 1 - stack.len(), 0int, succ_list(g, stack.last()).len() - i,
{
    if stack.len() == 0 || stack.len() > g.max_length || i < 0 || i >= succ_list(g, stack.last()).len() {
        Seq::empty()
    } else {
        let s = succ_list(g, stack.last())[i];
        let here = if !flag(g.header, s) && stack.contains(s) {
            Seq::<Seq<usize>>::empty()
        } else {
            explore(g, stack.push(s))
        };
        here + explore_children(g, stack, i + 1)
    }
}

/// The paths recorded when the search steps from `stack` to `s`: none when
/// `s` is not a loop header and already on the path.
pub open spec fn child_paths(g: SearchSpec, stack: Seq<usize>, s: usize) -> Seq<Seq<usize>> {
    if !flag(g.header, s) && stack.contains(s) {
        Seq::empty()
    } else {
        explore(g, stack.push(s))
    }
}

/// The block identifiers along a node sequence.
pub open spec fn ids_along(bs: Seq<BasicBlock>, nodes: Seq<usize>) -> Seq<usize> {
    nodes.map_values(|x: usize| bs[x as int].id)
}

/// `p` is the path recorded for node sequence `nodes`: its blocks are the
/// nodes' block identifiers, classified with the reachable identifiers
/// `reach`, identified by their hash.
pub open spec fn path_for(p: Path, bs: Seq<BasicBlock>, reach: Set<usize>, nodes: Seq<usize>) -> bool {
    &&& p.blocks@ == ids_along(bs, nodes)
    &&& p.kind == classify_precomputed_spec(bs, p.blocks@, reach)
    &&& p.path_id@ == path_hash(p.blocks@)
    &&& p.entry == first_or_zero(p.blocks@)
    &&& p.exit == last_or_zero(p.blocks@)
}

/// Two path lists agree path by path: same blocks, kind, identifier, entry
/// and exit.
pub open spec fn same_path_lists(a: Seq<Path>, b: Seq<Path>) -> bool {
    &&& a.len() == b.len()
    &&& forall|i: int| 0 <= i < a.len() ==> {
        &&& (#[trigger] a[i]).blocks@ == b[i].blocks@
        &&& a[i].kind == b[i].kind
        &&& a[i].path_id@ == b[i].path_id@
        &&& a[i].entry == b[i].entry
        &&& a[i].exit == b[i].exit
    }
}

/// Two path lists recorded for the same node sequences agree path by path.
pub proof fn lemma_path_for_lists(a: Seq<Path>, b: Seq<Path>, bs: Seq<BasicBlock>, reach: Set<usize>, all: Seq<Seq<usize>>)
    requires
        a.len() == b.len(),
        a.len() <= all.len(),
        forall|i: int| 0 <= i < a.len() ==> path_for(#[trigger] a[i], bs, reach, all[i]),
        forall|i: int| 0 <= i < b.len() ==> path_for(#[trigger] b[i], bs, reach, all[i]),
    ensures
        same_path_lists(a, b),
{
    assert forall|i: int| 0 <= i < a.len() implies {
        &&& (#[trigger] a[i]).blocks@ == b[i].blocks@
        &&& a[i].kind == b[i].kind
        &&& a[i].path_id@ == b[i].path_id@
        &&& a[i].entry == b[i].entry
        &&& a[i].exit == b[i].exit
    } by {
        assert(path_for(a[i], bs, reach, all[i]));
        assert(path_for(b[i], bs, reach, all[i]));
    }
}

/// The targets in `nbrs` below `t`, ascending, each as often as it occurs.
pub open spec fn ascending_upto(nbrs: Seq<usize>, t: nat) -> Seq<usize>
    decreases t,
{
    if t == 0 {
        Seq::empty()
    } else {
        ascending_upto(nbrs, (t - 1) as nat) + Seq::new(count_in(nbrs, (t - 1) as usize), |_j: int| (t - 1) as usize)
    }
}

/// `count_in` counts what the multiset of the sequence counts.
pub proof fn lemma_count_in_multiset(s: Seq<usize>, x: usize)
    ensures
        count_in(s, x) == s.to_multiset().count(x),
    decreases s.len(),
{
    if s.len() > 0 {
        lemma_count_in_multiset(s.drop_last(), x);
        assert(s.drop_last().push(s.last()) =~= s);
        vstd::seq_lib::to_multiset_build(s.drop_last(), s.last());
    } else {
        vstd::seq_lib::to_multiset_contains(s, x);
    }
}

/// Sequences with the same elements, as often each, sort alike.
pub proof fn lemma_ascending_same_counts(s: Seq<usize>, t: Seq<usize>, k: nat)
    requires
        s.to_multiset() == t.to_multiset(),
    ensures
        ascending_upto(s, k) == ascending_upto(t, k),
    decreases k,
{
    if k > 0 {
        lemma_ascending_same_counts(s, t, (k - 1) as nat);
        lemma_count_in_multiset(s, (k - 1) as usize);
        lemma_count_in_multiset(t, (k - 1) as usize);
    }
}

/// Successors of `u` in a graph of `n` nodes sorted by node index, one
/// entry per edge.
pub open spec fn sorted_succs(es: Seq<CfgEdge>, u: usize, n: nat) -> Seq<usize> {
    ascending_upto(out_nbrs(es, u), n)
}

/// Counting `x` in a sequence extended by one element.
pub proof fn lemma_count_push(s: Seq<usize>, y: usize, x: usize)
    ensures
        count_in(s.push(y), x) == count_in(s, x) + if y == x { 1nat } else { 0nat },
{
    assert(s.push(y).drop_last() == s);
}

/// No occurrence means a count of zero, and a count bounds the length.
pub proof fn lemma_count_contains(s: Seq<usize>, x: usize)
    ensures
        count_in(s, x) > 0 <==> s.contains(x),
        count_in(s, x) <= s.len(),
    decreases s.len(),
{
    if s.len() > 0 {
        lemma_count_contains(s.drop_last(), x);
        if s.drop_last().contains(x) {
            let k = choose|k: int| 0 <= k < s.drop_last().len() && s.drop_last()[k] == x;
            assert(s[k] == x);
        }
        if s.contains(x) && s.last() != x {
            let k = choose|k: int| 0 <= k < s.len() && s[k] == x;
            assert(k != s.len() - 1);
            assert(s.drop_last()[k] == x);
        }
    }
}

/// Membership in a sequence extended by one element.
pub proof fn lemma_contains_push(s: Seq<usize>, y: usize, x: usize)
    ensures
        s.push(y).contains(x) <==> (s.contains(x) || x == y),
{
    let t = s.push(y);
    if s.contains(x) {
        let k = choose|k: int| 0 <= k < s.len() && s[k] == x;
        assert(t[k] == x);
    }
    if x == y {
        assert(t[s.len() as int] == x);
    }
    if t.contains(x) && x != y {
        let k = choose|k: int| 0 <= k < t.len() && t[k] == x;
        assert(k < s.len());
        assert(s[k] == x);
    }
}

/// Each node of `s` after the first is a successor of the one before it.
pub open spec fn succ_walk(g: SearchSpec, s: Seq<usize>) -> bool {
    &&& s.len() >= 1
    &&& forall|k: int| 0 <= k < s.len() - 1 ==> succ_list(g, #[trigger] s[k]).contains(s[k + 1])
}

/// A recorded path ends at an exit node, or (when dead ends are recorded)
/// at a node without successors.
pub open spec fn ends_path(g: SearchSpec, q: Seq<usize>) -> bool {
    flag(g.exit, q.last()) || (g.dead_ends && succ_list(g, q.last()).len() == 0)
}

/// `q` extends `stack` along successors to the end of a path, within the
/// length limit.
pub open spec fn recorded_from(g: SearchSpec, stack: Seq<usize>, q: Seq<usize>) -> bool {
    &&& stack.len() <= q.len() <= g.max_length
    &&& q.take(stack.len() as int) == stack
    &&& succ_walk(g, q)
    &&& ends_path(g, q)
}

proof fn lemma_explore_recorded(g: SearchSpec, stack: Seq<usize>)
    requires
        succ_walk(g, stack),
    ensures
        forall|j: int| 0 <= j < explore(g, stack).len() ==> recorded_from(g, stack, #[trigger] explore(g, stack)[j]),
    decreases g.max_length + 1 - stack.len(), 1int, 0int,
{
    if stack.len() == 0 || stack.len() > g.max_length {
    } else {
        let u = stack.last();
        if flag(g.exit, u) {
            assert(stack.take(stack.len() as int) =~= stack);
            assert(explore(g, stack) == seq![stack]);
            assert(recorded_from(g, stack, stack));
        } else if flag(g.header, u) && count_in(stack.drop_last(), u) >= g.unroll {
        } else if g.dead_ends && succ_list(g, u).len() == 0 {
            assert(stack.take(stack.len() as int) =~= stack);
            assert(explore(g, stack) == seq![stack]);
            assert(recorded_from(g, stack, stack));
        } else {
            lemma_explore_children_recorded(g, stack, 0);
            assert(explore(g, stack) == explore_children(g, stack, 0));
        }
    }
}

proof fn lemma_explore_children_recorded(g: SearchSpec, stack: Seq<usize>, i: int)
    requires
        succ_walk(g, stack),
    ensures
        forall|j: int| 0 <= j < explore_children(g, stack, i).len() ==>
            recorded_from(g, stack, #[trigger] explore_children(g, stack, i)[j]),
    decreases g.max_length + 1 - stack.len(), 0int, succ_list(g, stack.last()).len() - i,
{
    if stack.len() == 0 || stack.len() > g.max_length || i < 0 || i >= succ_list(g, stack.last()).len() {
    } else {
        let s = succ_list(g, stack.last())[i];
        let ext = stack.push(s);
        let here = if !flag(g.header, s) && stack.contains(s) {
            Seq::<Seq<usize>>::empty()
        } else {
            explore(g, ext)
        };
        let rest = explore_children(g, stack, i + 1);
        lemma_explore_children_recorded(g, stack, i + 1);
        assert(succ_list(g, stack.last()).contains(s));
        assert(succ_walk(g, ext)) by {
            assert forall|k: int| 0 <= k < ext.len() - 1 implies succ_list(g, #[trigger] ext[k]).contains(ext[k + 1]) by {
                if k < stack.len() - 1 {
                    assert(ext[k] == stack[k] && ext[k + 1] == stack[k + 1]);
                } else {
                    assert(ext[k] == stack.last());
                }
            }
        }
        if !(!flag(g.header, s) && stack.contains(s)) {
            lemma_explore_recorded(g, ext);
        }
        let all = explore_children(g, stack, i);
        assert(all == here + rest);
        assert forall|j: int| 0 <= j < all.len() implies recorded_from(g, stack, #[trigger] all[j]) by {
            if j < here.len() {
                let q = here[j];
                assert(all[j] == q);
                assert(recorded_from(g, ext, q));
                assert(q.take(stack.len() as int) =~= ext.take(stack.len() as int));
                assert(ext.take(stack.len() as int) =~= stack);
            } else {
                assert(all[j] == rest[j - here.len()]);
            }
        }
    }
}

/// What a search records from `stack` are extensions of `stack` that go
/// from node to successor, end a path, and respect the length limit.
pub proof fn explored_paths_are_recorded_runs(g: SearchSpec, stack: Seq<usize>, j: int)
    requires
        succ_walk(g, stack),
        0 <= j < explore(g, stack).len(),
    ensures
        recorded_from(g, stack, explore(g, stack)[j]),
{
    lemma_explore_recorded(g, stack);
}

/// Membership in the ascending list means occurrence in the neighbour list.
pub proof fn lemma_ascending_member(nbrs: Seq<usize>, t: nat, x: usize)
    requires
        ascending_upto(nbrs, t).contains(x),
    ensures
        count_in(nbrs, x) > 0,
    decreases t,
{
    if t > 0 {
        let prev = ascending_upto(nbrs, (t - 1) as nat);
        let tail = Seq::new(count_in(nbrs, (t - 1) as usize), |_j: int| (t - 1) as usize);
        assert(ascending_upto(nbrs, t) == prev + tail);
        let k = choose|k: int| 0 <= k < ascending_upto(nbrs, t).len() && ascending_upto(nbrs, t)[k] == x;
        if k < prev.len() {
            assert(prev[k] == x);
            lemma_ascending_member(nbrs, (t - 1) as nat, x);
        } else {
            assert(tail[k - prev.len()] == x);
        }
    }
}

} // verus!
