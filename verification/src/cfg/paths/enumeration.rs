//! Bounded depth-first path enumeration.
//!
//! Enumeration always terminates: every path is bounded by `max_length`,
//! loop headers are unrolled at most `loop_unroll_limit` times, the search
//! stops once `max_paths` paths are recorded, and it gives up after
//! `max_visits` steps. The outcome reports whether the path set was cut
//! short, and whether the step budget (rather than the path cap) did it.

use vstd::prelude::*;
use std::collections::HashSet;
use crate::cfg::{BlockId, BasicBlock};
use crate::cfg::graph::{neighbor_order, Cfg, CfgEdge, cfg_blocks, cfg_edges, node_count, edge_count, block, successors, out_nbrs,
    lemma_out_nbrs_contains};
use crate::cfg::analysis::{exit_indices, lemma_exit_indices};
use crate::cfg::loops::{find_loop_headers, is_header_of_some, back_edges};
use crate::cfg::paths::{Path, PathKind};
use crate::cfg::paths::limits::{PathLimits, EnumerationContext, exit_nodes, reachable_ids, exit_node_set,
    reachable_block_ids};
use crate::cfg::paths::feasibility::classify_path_precomputed;
use crate::cfg::paths::search::{recorded_from, explored_paths_are_recorded_runs, lemma_ascending_member, succ_walk};
use crate::cfg::graph::{is_walk, edges_in_range, has_edge};
use crate::cfg::paths::search::{SearchSpec, flag, succ_list, count_in, explore, explore_children, child_paths,
    ids_along, path_for, ascending_upto, sorted_succs, lemma_count_push, lemma_count_contains, lemma_contains_push};
use crate::cfg::paths::search::{lemma_ascending_same_counts, same_path_lists, lemma_path_for_lists, RunState, run_start, run_step, replay, lemma_replay_append, lemma_replay_step,
    lemma_replay_stopped, lemma_trace_head, step_trace, children_trace,
    skips_child, has_exit, search_run};

verus! {

broadcast use vstd::std_specs::hash::group_hash_axioms;

/// The number of paths after which a search stops (at least one).
pub open spec fn path_cap(limits: PathLimits) -> nat {
    if limits.max_paths == 0 { 1 } else { limits.max_paths as nat }
}

/// Per-node tables the search reads.
pub(crate) struct SearchTables {
    pub(crate) succs: Vec<Vec<usize>>,
    pub(crate) exit: Vec<bool>,
    pub(crate) header: Vec<bool>,
}

impl SearchTables {
    pub(crate) open spec fn spec_with(&self, limits: PathLimits, dead_ends: bool) -> SearchSpec {
        SearchSpec {
            succs: self.succs@.map_values(|v: Vec<usize>| v@),
            exit: self.exit@,
            header: self.header@,
            max_length: limits.max_length as nat,
            unroll: limits.loop_unroll_limit as nat,
            dead_ends,
        }
    }

    pub(crate) open spec fn fits(&self, n: nat) -> bool {
        &&& self.succs@.len() == n
        &&& self.exit@.len() == n
        &&& self.header@.len() == n
        &&& forall|u: int, j: int| 0 <= u < n && 0 <= j < self.succs@[u]@.len() ==> (#[trigger] self.succs@[u]@[j]) < n
    }
}

/// The state of a running search.
struct SearchState {
    /// Paths recorded so far
    paths: Vec<Path>,
    /// The node sequences of the recorded paths
    found: Ghost<Seq<Seq<usize>>>,
    /// Block identifiers along the current path
    path_blocks: Vec<BlockId>,
    /// Nodes along the current path
    stack: Ghost<Seq<usize>>,
    /// Nodes on the current path
    on_stack: Vec<bool>,
    /// Loop iterations in progress, per loop header
    counts: Vec<usize>,
    /// Loop headers the search has entered at some point
    keyed: Vec<bool>,
    /// The search has stopped
    saturated: bool,
    /// Search steps taken
    visits: usize,
    /// The step budget stopped the search
    budget_hit: bool,
}

impl SearchState {
    /// Steps taken, paths recorded and stop flags, as a run state.
    spec fn run(&self) -> RunState {
        RunState {
            visits: self.visits as nat,
            recs: self.found@.len(),
            stopped: self.saturated,
            budget_hit: self.budget_hit,
        }
    }

    /// The recorded paths match their node sequences, and the stop flags
    /// agree with the number recorded.
    spec fn paths_ok(&self, cfg: Cfg, reach: Set<usize>, limits: PathLimits) -> bool {
        &&& self.paths@.len() == self.found@.len()
        &&& forall|i: int| 0 <= i < self.paths@.len() ==>
            path_for(#[trigger] self.paths@[i], cfg_blocks(cfg), reach, self.found@[i])
        &&& self.found@.len() <= path_cap(limits)
        &&& !self.saturated ==> self.found@.len() < path_cap(limits)
        &&& self.budget_hit ==> self.saturated && self.found@.len() < path_cap(limits)
        &&& self.saturated && !self.budget_hit ==> self.found@.len() >= path_cap(limits)
    }

    /// The on-path flags, loop counters and entered-header flags agree with
    /// the path `stack`. `tracks_headers`: whether the on-path flag is kept
    /// exact for loop headers too, or only for other nodes.
    spec fn frame_ok(&self, g: SearchSpec, n: nat, stack: Seq<usize>, tracks_headers: bool) -> bool {
        &&& self.on_stack@.len() == n
        &&& self.counts@.len() == n
        &&& self.keyed@.len() == n
        &&& stack.len() <= g.max_length
        &&& forall|i: int| 0 <= i < stack.len() ==> #[trigger] stack[i] < n
        &&& forall|x: usize| x < n && (tracks_headers || !flag(g.header, x)) ==>
            (#[trigger] self.on_stack@[x as int] <==> stack.contains(x))
        &&& forall|x: usize| x < n && flag(g.header, x) ==> #[trigger] self.counts@[x as int] == count_in(stack, x)
        &&& forall|x: usize| #[trigger] stack.contains(x) ==> !flag(g.exit, x)
        &&& forall|x: usize| x < n && #[trigger] self.keyed@[x as int] ==> !flag(g.exit, x)
        &&& forall|x: usize| stack.contains(x) && flag(g.header, x) && x < n ==> #[trigger] self.keyed@[x as int]
    }

    /// The whole state agrees with the current path and the recorded paths.
    spec fn consistent(&self, g: SearchSpec, cfg: Cfg, reach: Set<usize>, limits: PathLimits, tracks_headers: bool) -> bool {
        &&& self.paths_ok(cfg, reach, limits)
        &&& self.frame_ok(g, cfg_blocks(cfg).len(), self.stack@, tracks_headers)
        &&& self.path_blocks@ == ids_along(cfg_blocks(cfg), self.stack@)
    }

    /// Record the current path.
    fn record(&mut self, cfg: &Cfg, reach: &HashSet<BlockId>, limits: &PathLimits)
        requires
            old(self).paths_ok(*cfg, reach@, *limits),
            old(self).path_blocks@ == ids_along(cfg_blocks(*cfg), old(self).stack@),
            !old(self).saturated,
        ensures
            final(self).paths_ok(*cfg, reach@, *limits),
            final(self).found@ == old(self).found@.push(old(self).stack@),
            final(self).saturated == (final(self).found@.len() >= path_cap(*limits)),
            !final(self).budget_hit,
            final(self).stack@ == old(self).stack@,
            final(self).path_blocks@ == old(self).path_blocks@,
            final(self).on_stack@ == old(self).on_stack@,
            final(self).counts@ == old(self).counts@,
            final(self).keyed@ == old(self).keyed@,
            final(self).visits == old(self).visits,
    {
        let kind = classify_path_precomputed(cfg, self.path_blocks.as_slice(), reach);
        let blocks = copy_blocks(&self.path_blocks);
        let p = Path::new(blocks, kind);
        self.paths.push(p);
        self.found = Ghost(self.found@.push(self.stack@));
        if self.paths.len() >= limits.max_paths {
            self.saturated = true;
        }
        proof {
            assert forall|i: int| 0 <= i < self.paths@.len() implies
                path_for(#[trigger] self.paths@[i], cfg_blocks(*cfg), reach@, self.found@[i]) by {
                if i < self.paths@.len() - 1 {
                    assert(self.paths@[i] == old(self).paths@[i]);
                    assert(self.found@[i] == old(self).found@[i]);
                }
            }
        }
    }
}

/// A copy of a block sequence.
pub(crate) fn copy_blocks(v: &Vec<BlockId>) -> (r: Vec<BlockId>)
    ensures
        r@ == v@,
{
    let mut r: Vec<BlockId> = Vec::new();
    let mut i: usize = 0;
    while i < v.len()
        invariant
            i <= v.len(),
            r@ == v@.take(i as int),
        decreases v.len() - i,
    {
        r.push(v[i]);
        proof {
            assert(v@.take(i + 1) == v@.take(i as int).push(v@[i as int]));
        }
        i = i + 1;
    }
    proof {
        assert(v@.take(v.len() as int) == v@);
    }
    r
}

/// The paths recorded below the first `i` successors of `stack.last()`.
spec fn children_upto(g: SearchSpec, stack: Seq<usize>, i: int) -> Seq<Seq<usize>>
    decreases i,
{
    if i <= 0 {
        Seq::empty()
    } else {
        children_upto(g, stack, i - 1) + child_paths(g, stack, succ_list(g, stack.last())[i - 1])
    }
}

proof fn lemma_children_split(g: SearchSpec, stack: Seq<usize>, i: int)
    requires
        1 <= stack.len() <= g.max_length,
        0 <= i <= succ_list(g, stack.last()).len(),
    ensures
        explore_children(g, stack, 0) == children_upto(g, stack, i) + explore_children(g, stack, i),
    decreases i,
{
    if i > 0 {
        lemma_children_split(g, stack, i - 1);
        let s = succ_list(g, stack.last())[i - 1];
        assert(explore_children(g, stack, i - 1) == child_paths(g, stack, s) + explore_children(g, stack, i));
        assert(children_upto(g, stack, i) == children_upto(g, stack, i - 1) + child_paths(g, stack, s));
        assert(children_upto(g, stack, i - 1) + (child_paths(g, stack, s) + explore_children(g, stack, i))
            == children_upto(g, stack, i) + explore_children(g, stack, i));
    } else {
        assert(children_upto(g, stack, 0) + explore_children(g, stack, 0) == explore_children(g, stack, 0));
    }
}

/// One step of the successor loop: the recorded paths after the child at
/// position `i` are still a prefix of all paths below the node, and the
/// whole child's paths when it did not stop the search.
proof fn lemma_child_step(g: SearchSpec, stack: Seq<usize>, i: int, found0: Seq<Seq<usize>>,
    before: Seq<Seq<usize>>, after: Seq<Seq<usize>>, k2: int)
    requires
        1 <= stack.len() <= g.max_length,
        0 <= i < succ_list(g, stack.last()).len(),
        before == found0 + children_upto(g, stack, i),
        0 <= k2 <= child_paths(g, stack, succ_list(g, stack.last())[i]).len(),
        after == before + child_paths(g, stack, succ_list(g, stack.last())[i]).take(k2),
    ensures
        after.len() >= found0.len(),
        after.len() - found0.len() <= explore_children(g, stack, 0).len(),
        after == found0 + explore_children(g, stack, 0).take(after.len() - found0.len()),
        k2 == child_paths(g, stack, succ_list(g, stack.last())[i]).len() ==>
            after == found0 + children_upto(g, stack, i + 1),
{
    let s = succ_list(g, stack.last())[i];
    let cp = child_paths(g, stack, s);
    let a = children_upto(g, stack, i);
    let rest = explore_children(g, stack, i + 1);
    lemma_children_split(g, stack, i);
    assert(explore_children(g, stack, i) == cp + rest);
    assert(explore_children(g, stack, 0) == a + (cp + rest));
    assert((a + (cp + rest)).take(a.len() + k2) =~= a + cp.take(k2));
    assert(after =~= found0 + (a + cp.take(k2)));
    if k2 == cp.len() {
        assert(cp.take(k2) =~= cp);
        assert(children_upto(g, stack, i + 1) == a + cp);
        assert(after =~= found0 + children_upto(g, stack, i + 1));
    }
}

/// Search below each successor of the current node in turn (successor-index
/// order), until the search stops.
fn successors_sorted(cfg: &Cfg, t: &SearchTables, limits: &PathLimits, reach: &HashSet<BlockId>,
    st: &mut SearchState, current: usize)
    requires
        t.fits(cfg_blocks(*cfg).len()),
        current < cfg_blocks(*cfg).len(),
        old(st).consistent(t.spec_with(*limits, true), *cfg, reach@, *limits, true),
        !old(st).saturated,
        1 <= old(st).stack@.len(),
        old(st).stack@.last() == current,
    ensures
        final(st).consistent(t.spec_with(*limits, true), *cfg, reach@, *limits, true),
        final(st).stack@ == old(st).stack@,
        final(st).path_blocks@ == old(st).path_blocks@,
        final(st).on_stack@ == old(st).on_stack@,
        final(st).counts@ == old(st).counts@,
        final(st).found@.len() >= old(st).found@.len(),
        ({
            let e = explore_children(t.spec_with(*limits, true), old(st).stack@, 0);
            let k = final(st).found@.len() - old(st).found@.len();
            &&& k <= e.len()
            &&& final(st).found@ == old(st).found@ + e.take(k)
            &&& !final(st).saturated ==> k == e.len()
        }),
        final(st).run() == replay(children_trace(t.spec_with(*limits, true), old(st).stack@, 0, old(st).keyed@, true).0,
            old(st).run(), path_cap(*limits), limits.max_visits as nat),
        !final(st).saturated ==> final(st).keyed@
            == children_trace(t.spec_with(*limits, true), old(st).stack@, 0, old(st).keyed@, true).1,
    decreases limits.max_length - old(st).stack@.len() + 1, 0int,
{
    let ghost g = t.spec_with(*limits, true);
    let ghost n = cfg_blocks(*cfg).len();
    let ghost stack1 = st.stack@;
    let ghost found0 = st.found@;
    let ghost on1 = st.on_stack@;
    let ghost c1 = st.counts@;
    let ghost pb1 = st.path_blocks@;
    let ghost x_all = explore_children(g, stack1, 0);
    let ghost cap = path_cap(*limits);
    let ghost bud = limits.max_visits as nat;
    let ghost ct0 = children_trace(g, stack1, 0, st.keyed@, true);
    let ghost run0 = st.run();
    let succ = &t.succs[current];
    proof {
        assert(succ@ == succ_list(g, current));
        assert(found0 + x_all.take(0) == found0);
        assert(children_upto(g, stack1, 0) == Seq::<Seq<usize>>::empty());
        assert(found0 + children_upto(g, stack1, 0) == found0);
    }
    let mut i: usize = 0;
    while i < succ.len() && !st.saturated
        invariant
            t.fits(n),
            n == cfg_blocks(*cfg).len(),
            g == t.spec_with(*limits, true),
            current < n,
            succ@ == succ_list(g, current),
            stack1 == old(st).stack@,
            found0 == old(st).found@,
            1 <= stack1.len() <= g.max_length,
            stack1.last() == current,
            x_all == explore_children(g, stack1, 0),
            i <= succ@.len(),
            st.stack@ == stack1,
            st.on_stack@ == on1,
            st.counts@ == c1,
            st.path_blocks@ == pb1,
            st.consistent(g, *cfg, reach@, *limits, true),
            st.found@.len() >= found0.len(),
            st.found@.len() - found0.len() <= x_all.len(),
            st.found@ == found0 + x_all.take(st.found@.len() - found0.len()),
            !st.saturated ==> st.found@ == found0 + children_upto(g, stack1, i as int),
            cap == path_cap(*limits),
            bud == limits.max_visits as nat,
            ct0 == children_trace(g, stack1, 0, old(st).keyed@, true),
            run0 == old(st).run(),
            !st.saturated ==> replay(ct0.0, run0, cap, bud)
                == replay(children_trace(g, stack1, i as int, st.keyed@, true).0, st.run(), cap, bud),
            !st.saturated ==> ct0.1 == children_trace(g, stack1, i as int, st.keyed@, true).1,
            st.saturated ==> replay(ct0.0, run0, cap, bud) == st.run(),
        decreases succ@.len() - i,
    {
        let s = succ[i];
        proof {
            assert(s == succ_list(g, current)[i as int]);
            assert(s < n);
            assert(children_upto(g, stack1, i + 1) == children_upto(g, stack1, i as int) + child_paths(g, stack1, s));
        }
        let ghost kc = st.keyed@;
        let ghost ci = children_trace(g, stack1, i as int, kc, true);
        let ghost cn = children_trace(g, stack1, i + 1, kc, true);
        let ghost runc = st.run();
        let is_back = t.header[s] && st.keyed[s];
        proof {
            assert(st.on_stack@[s as int] <==> stack1.contains(s));
            assert(is_back == (flag(g.header, s) && flag(kc, s)));
            if is_back {
                assert(st.counts@[s as int] == count_in(stack1, s));
            }
        }
        if st.on_stack[s] && !is_back {
            proof {
                assert(skips_child(g, stack1, kc, true, s));
                assert(ci.0 =~= Seq::<bool>::empty() + cn.0);
                assert(ci.0 =~= cn.0);
                assert(!flag(g.header, s));
                assert(child_paths(g, stack1, s) == Seq::<Seq<usize>>::empty());
                assert(children_upto(g, stack1, i + 1) =~= children_upto(g, stack1, i as int));
            }
            i = i + 1;
            continue;
        }
        if is_back && st.counts[s] >= limits.loop_unroll_limit {
            proof {
                assert(skips_child(g, stack1, kc, true, s));
                assert(ci.0 =~= cn.0);
                assert(stack1.push(s).drop_last() =~= stack1);
                assert(explore(g, stack1.push(s)) == Seq::<Seq<usize>>::empty());
                assert(child_paths(g, stack1, s) == Seq::<Seq<usize>>::empty());
                assert(children_upto(g, stack1, i + 1) =~= children_upto(g, stack1, i as int));
            }
            i = i + 1;
            continue;
        }
        let ghost before = st.found@;
        proof {
            assert(!skips_child(g, stack1, kc, true, s));
        }
        dfs_sorted(cfg, t, limits, reach, st, s);
        proof {
            let first = step_trace(g, stack1.push(s), kc, true);
            let rest = children_trace(g, stack1, i + 1, first.1, true);
            assert(ci.0 == first.0 + rest.0);
            assert(ci.1 == rest.1);
            lemma_replay_append(first.0, rest.0, runc, cap, bud);
            if st.saturated {
                lemma_replay_stopped(rest.0, st.run(), cap, bud);
            }
            assert(child_paths(g, stack1, s) == explore(g, stack1.push(s)));
            lemma_child_step(g, stack1, i as int, found0, before, st.found@, st.found@.len() - before.len());
        }
        i = i + 1;
    }
    proof {
        if !st.saturated {
            assert(children_trace(g, stack1, succ@.len() as int, st.keyed@, true).0 == Seq::<bool>::empty());
            lemma_children_split(g, stack1, succ@.len() as int);
            assert(explore_children(g, stack1, succ@.len() as int) == Seq::<Seq<usize>>::empty());
            assert(x_all =~= children_upto(g, stack1, succ@.len() as int));
            assert(x_all.take(x_all.len() as int) == x_all);
        }
    }
}

/// Search from `current` in successor-index order, recording dead ends.
fn dfs_sorted(cfg: &Cfg, t: &SearchTables, limits: &PathLimits, reach: &HashSet<BlockId>,
    st: &mut SearchState, current: usize)
    requires
        t.fits(cfg_blocks(*cfg).len()),
        current < cfg_blocks(*cfg).len(),
        old(st).consistent(t.spec_with(*limits, true), *cfg, reach@, *limits, true),
    ensures
        final(st).consistent(t.spec_with(*limits, true), *cfg, reach@, *limits, true),
        final(st).stack@ == old(st).stack@,
        final(st).path_blocks@ == old(st).path_blocks@,
        final(st).on_stack@ == old(st).on_stack@,
        final(st).counts@ == old(st).counts@,
        old(st).saturated ==> final(st).found@ == old(st).found@ && final(st).saturated == old(st).saturated
            && final(st).budget_hit == old(st).budget_hit,
        final(st).found@.len() >= old(st).found@.len(),
        ({
            let e = explore(t.spec_with(*limits, true), old(st).stack@.push(current));
            let k = final(st).found@.len() - old(st).found@.len();
            &&& k <= e.len()
            &&& final(st).found@ == old(st).found@ + e.take(k)
            &&& !final(st).saturated ==> k == e.len()
        }),
        final(st).run() == replay(step_trace(t.spec_with(*limits, true), old(st).stack@.push(current), old(st).keyed@, true).0,
            old(st).run(), path_cap(*limits), limits.max_visits as nat),
        !final(st).saturated ==> final(st).keyed@
            == step_trace(t.spec_with(*limits, true), old(st).stack@.push(current), old(st).keyed@, true).1,
    decreases limits.max_length - old(st).stack@.len(), 1int,
{
    let ghost g = t.spec_with(*limits, true);
    let ghost n = cfg_blocks(*cfg).len();
    let ghost stack0 = st.stack@;
    let ghost found0 = st.found@;
    let ghost cap = path_cap(*limits);
    let ghost bud = limits.max_visits as nat;
    let ghost tr = step_trace(g, stack0.push(current), st.keyed@, true);
    let ghost run0 = st.run();
    if st.saturated {
        proof {
            assert(found0 + explore(g, stack0.push(current)).take(0) == found0);
            lemma_replay_stopped(tr.0, run0, cap, bud);
        }
        return;
    }
    proof {
        lemma_trace_head(g, stack0.push(current), st.keyed@, true);
        lemma_replay_step(true, tr.0.drop_first(), run0, cap, bud);
        assert(seq![true] + tr.0.drop_first() =~= tr.0);
    }
    if st.visits >= limits.max_visits {
        st.saturated = true;
        st.budget_hit = true;
        proof {
            assert(found0 + explore(g, stack0.push(current)).take(0) == found0);
            lemma_replay_stopped(tr.0.drop_first(), run_step(true, run0, cap, bud), cap, bud);
        }
        return;
    }
    st.visits = st.visits + 1;
    let ghost run1 = st.run();
    assert(run1 == run_step(true, run0, cap, bud));
    let stack1 = Ghost(stack0.push(current));
    let bid = block(cfg, current).id;
    st.path_blocks.push(bid);
    st.stack = stack1;
    proof {
        assert(ids_along(cfg_blocks(*cfg), stack1@) == ids_along(cfg_blocks(*cfg), stack0).push(bid));
    }
    if st.path_blocks.len() > limits.max_length {
        st.path_blocks.pop();
        st.stack = Ghost(stack0);
        proof {
            assert(explore(g, stack1@) == Seq::<Seq<usize>>::empty());
            assert(found0 + explore(g, stack1@).take(0) == found0);
            assert(st.path_blocks@ =~= ids_along(cfg_blocks(*cfg), stack0));
            assert(tr.0.drop_first() =~= Seq::<bool>::empty());
        }
        return;
    }
    if t.exit[current] {
        st.record(cfg, reach, limits);
        st.path_blocks.pop();
        st.stack = Ghost(stack0);
        proof {
            assert(tr.0.drop_first() =~= seq![false] + Seq::<bool>::empty());
            lemma_replay_step(false, Seq::<bool>::empty(), run1, cap, bud);
            assert(explore(g, stack1@) == seq![stack1@]);
            assert(found0 + explore(g, stack1@).take(1) == found0.push(stack1@));
            assert(st.path_blocks@ == ids_along(cfg_blocks(*cfg), stack0));
        }
        return;
    }
    proof {
        lemma_count_contains(stack0, current);
    }
    let is_header = t.header[current];
    if is_header {
        st.keyed.set(current, true);
        if st.counts[current] >= limits.loop_unroll_limit {
            st.path_blocks.pop();
            st.stack = Ghost(stack0);
            proof {
                assert(stack1@.drop_last() == stack0);
                assert(tr.0.drop_first() =~= Seq::<bool>::empty());
                assert(explore(g, stack1@) == Seq::<Seq<usize>>::empty());
                assert(found0 + explore(g, stack1@).take(0) == found0);
                assert(st.path_blocks@ == ids_along(cfg_blocks(*cfg), stack0));
                assert forall|x: usize| x < n && #[trigger] st.keyed@[x as int] implies !flag(g.exit, x) by {
                    if x != current {
                        assert(old(st).keyed@[x as int]);
                    }
                }
                assert forall|x: usize| stack0.contains(x) && flag(g.header, x) && x < n implies #[trigger] st.keyed@[x as int] by {
                    if x != current {
                        assert(old(st).keyed@[x as int]);
                    }
                }
            }
            return;
        }
        st.counts.set(current, st.counts[current] + 1);
    }
    let ghost header_ok = !(flag(g.header, current) && count_in(stack0, current) >= g.unroll);
    assert(header_ok);
    let was_new = !st.on_stack[current];
    st.on_stack.set(current, true);
    proof {
        assert forall|x: usize| x < n implies (#[trigger] st.on_stack@[x as int] <==> stack1@.contains(x)) by {
            lemma_contains_push(stack0, current, x);
        }
        assert forall|x: usize| x < n && flag(g.header, x) implies #[trigger] st.counts@[x as int] == count_in(stack1@, x) by {
            lemma_count_push(stack0, current, x);
        }
        assert forall|x: usize| #[trigger] stack1@.contains(x) implies !flag(g.exit, x) by {
            lemma_contains_push(stack0, current, x);
        }
        assert forall|x: usize| x < n && #[trigger] st.keyed@[x as int] implies !flag(g.exit, x) by {
            if x != current {
                assert(old(st).keyed@[x as int]);
            }
        }
        assert forall|x: usize| stack1@.contains(x) && flag(g.header, x) && x < n implies #[trigger] st.keyed@[x as int] by {
            lemma_contains_push(stack0, current, x);
            if x != current {
                assert(old(st).keyed@[x as int]);
            }
        }
        assert forall|i: int| 0 <= i < stack1@.len() implies #[trigger] stack1@[i] < n by {
            if i < stack0.len() {
                assert(stack1@[i] == stack0[i]);
            }
        }
        assert(st.frame_ok(g, n, stack1@, true));
        assert(st.consistent(g, *cfg, reach@, *limits, true));
    }
    let ghost on1 = st.on_stack@;
    let ghost c1 = st.counts@;
    let ghost pb1 = st.path_blocks@;
    let ghost k1 = st.keyed@;
    let succ = &t.succs[current];
    proof {
        assert(succ@ == succ_list(g, current));
        assert(stack1@.drop_last() =~= stack0);
        assert(st.run() == run1);
    }
    if succ.len() == 0 {
        st.record(cfg, reach, limits);
        proof {
            assert(!flag(g.exit, current));
            assert(g.dead_ends);
            assert(explore(g, stack1@) == seq![stack1@]);
            assert(found0 + explore(g, stack1@).take(1) == found0.push(stack1@));
            assert(tr.0.drop_first() =~= seq![false] + Seq::<bool>::empty());
            assert(tr.1 == k1);
            lemma_replay_step(false, Seq::<bool>::empty(), run1, cap, bud);
        }
    } else {
        proof {
            assert(!flag(g.exit, current));
            assert(explore(g, stack1@) == explore_children(g, stack1@, 0));
            let ct = children_trace(g, stack1@, 0, k1, true);
            assert(tr.0 == seq![true] + ct.0);
            assert(tr.0.drop_first() =~= ct.0);
            assert(tr.1 == ct.1);
        }
        successors_sorted(cfg, t, limits, reach, st, current);
    }
    if was_new {
        st.on_stack.set(current, false);
    }
    if is_header {
        st.counts.set(current, st.counts[current] - 1);
    }
    st.path_blocks.pop();
    st.stack = Ghost(stack0);
    proof {
        assert(st.on_stack@ =~= old(st).on_stack@);
        assert(st.counts@ =~= old(st).counts@);
        assert(st.path_blocks@ =~= old(st).path_blocks@);
        assert forall|x: usize| x < n && #[trigger] st.keyed@[x as int] implies !flag(g.exit, x) by {}
        assert forall|x: usize| stack0.contains(x) && flag(g.header, x) && x < n implies #[trigger] st.keyed@[x as int] by {
            lemma_contains_push(stack0, current, x);
        }
        assert(st.frame_ok(g, n, stack0, true));
    }
}

/// Search below each successor of the current node in turn (the graph's list order),
/// until the search stops.
fn successors_ctx(cfg: &Cfg, t: &SearchTables, limits: &PathLimits, reach: &HashSet<BlockId>,
    st: &mut SearchState, current: usize)
    requires
        t.fits(cfg_blocks(*cfg).len()),
        current < cfg_blocks(*cfg).len(),
        old(st).consistent(t.spec_with(*limits, false), *cfg, reach@, *limits, false),
        !old(st).saturated,
        1 <= old(st).stack@.len(),
        old(st).stack@.last() == current,
    ensures
        final(st).consistent(t.spec_with(*limits, false), *cfg, reach@, *limits, false),
        final(st).stack@ == old(st).stack@,
        final(st).path_blocks@ == old(st).path_blocks@,
        final(st).counts@ == old(st).counts@,
        final(st).found@.len() >= old(st).found@.len(),
        ({
            let e = explore_children(t.spec_with(*limits, false), old(st).stack@, 0);
            let k = final(st).found@.len() - old(st).found@.len();
            &&& k <= e.len()
            &&& final(st).found@ == old(st).found@ + e.take(k)
            &&& !final(st).saturated ==> k == e.len()
        }),
        final(st).run() == replay(children_trace(t.spec_with(*limits, false), old(st).stack@, 0, old(st).keyed@, false).0,
            old(st).run(), path_cap(*limits), limits.max_visits as nat),
        !final(st).saturated ==> final(st).keyed@
            == children_trace(t.spec_with(*limits, false), old(st).stack@, 0, old(st).keyed@, false).1,
    decreases limits.max_length - old(st).stack@.len() + 1, 0int,
{
    let ghost g = t.spec_with(*limits, false);
    let ghost n = cfg_blocks(*cfg).len();
    let ghost stack1 = st.stack@;
    let ghost found0 = st.found@;
    let ghost c1 = st.counts@;
    let ghost pb1 = st.path_blocks@;
    let ghost x_all = explore_children(g, stack1, 0);
    let ghost cap = path_cap(*limits);
    let ghost bud = limits.max_visits as nat;
    let ghost ct0 = children_trace(g, stack1, 0, st.keyed@, false);
    let ghost run0 = st.run();
    let succ = &t.succs[current];
    proof {
        assert(succ@ == succ_list(g, current));
        assert(found0 + x_all.take(0) == found0);
        assert(children_upto(g, stack1, 0) == Seq::<Seq<usize>>::empty());
        assert(found0 + children_upto(g, stack1, 0) == found0);
    }
    let mut i: usize = 0;
    while i < succ.len() && !st.saturated
        invariant
            t.fits(n),
            n == cfg_blocks(*cfg).len(),
            g == t.spec_with(*limits, false),
            current < n,
            succ@ == succ_list(g, current),
            stack1 == old(st).stack@,
            found0 == old(st).found@,
            1 <= stack1.len() <= g.max_length,
            stack1.last() == current,
            x_all == explore_children(g, stack1, 0),
            i <= succ@.len(),
            st.stack@ == stack1,
            st.counts@ == c1,
            st.path_blocks@ == pb1,
            st.consistent(g, *cfg, reach@, *limits, false),
            st.found@.len() >= found0.len(),
            st.found@.len() - found0.len() <= x_all.len(),
            st.found@ == found0 + x_all.take(st.found@.len() - found0.len()),
            !st.saturated ==> st.found@ == found0 + children_upto(g, stack1, i as int),
            cap == path_cap(*limits),
            bud == limits.max_visits as nat,
            ct0 == children_trace(g, stack1, 0, old(st).keyed@, false),
            run0 == old(st).run(),
            !st.saturated ==> replay(ct0.0, run0, cap, bud)
                == replay(children_trace(g, stack1, i as int, st.keyed@, false).0, st.run(), cap, bud),
            !st.saturated ==> ct0.1 == children_trace(g, stack1, i as int, st.keyed@, false).1,
            st.saturated ==> replay(ct0.0, run0, cap, bud) == st.run(),
        decreases succ@.len() - i,
    {
        let s = succ[i];
        proof {
            assert(s == succ_list(g, current)[i as int]);
            assert(s < n);
        }
        let ghost before = st.found@;
        let ghost kc = st.keyed@;
        let ghost ci = children_trace(g, stack1, i as int, kc, false);
        let ghost runc = st.run();
        proof {
            assert(!skips_child(g, stack1, kc, false, s));
        }
        dfs_ctx(cfg, t, limits, reach, st, s);
        proof {
            let first = step_trace(g, stack1.push(s), kc, false);
            let rest = children_trace(g, stack1, i + 1, first.1, false);
            assert(ci.0 == first.0 + rest.0);
            assert(ci.1 == rest.1);
            lemma_replay_append(first.0, rest.0, runc, cap, bud);
            if st.saturated {
                lemma_replay_stopped(rest.0, st.run(), cap, bud);
            }
            lemma_child_step(g, stack1, i as int, found0, before, st.found@, st.found@.len() - before.len());
        }
        i = i + 1;
    }
    proof {
        if !st.saturated {
            assert(children_trace(g, stack1, succ@.len() as int, st.keyed@, false).0 == Seq::<bool>::empty());
            lemma_children_split(g, stack1, succ@.len() as int);
            assert(explore_children(g, stack1, succ@.len() as int) == Seq::<Seq<usize>>::empty());
            assert(x_all =~= children_upto(g, stack1, succ@.len() as int));
            assert(x_all.take(x_all.len() as int) == x_all);
        }
    }
}

/// Search from `current` in the graph's list order, with the enumeration context's exit
/// and loop-header sets; nodes without successors end no path.
fn dfs_ctx(cfg: &Cfg, t: &SearchTables, limits: &PathLimits, reach: &HashSet<BlockId>,
    st: &mut SearchState, current: usize)
    requires
        t.fits(cfg_blocks(*cfg).len()),
        current < cfg_blocks(*cfg).len(),
        old(st).consistent(t.spec_with(*limits, false), *cfg, reach@, *limits, false),
    ensures
        final(st).consistent(t.spec_with(*limits, false), *cfg, reach@, *limits, false),
        final(st).stack@ == old(st).stack@,
        final(st).path_blocks@ == old(st).path_blocks@,
        final(st).counts@ == old(st).counts@,
        old(st).saturated ==> final(st).found@ == old(st).found@ && final(st).saturated == old(st).saturated
            && final(st).budget_hit == old(st).budget_hit,
        final(st).found@.len() >= old(st).found@.len(),
        ({
            let e = child_paths(t.spec_with(*limits, false), old(st).stack@, current);
            let k = final(st).found@.len() - old(st).found@.len();
            &&& k <= e.len()
            &&& final(st).found@ == old(st).found@ + e.take(k)
            &&& !final(st).saturated ==> k == e.len()
        }),
        final(st).run() == replay(step_trace(t.spec_with(*limits, false), old(st).stack@.push(current), old(st).keyed@, false).0,
            old(st).run(), path_cap(*limits), limits.max_visits as nat),
        !final(st).saturated ==> final(st).keyed@
            == step_trace(t.spec_with(*limits, false), old(st).stack@.push(current), old(st).keyed@, false).1,
    decreases limits.max_length - old(st).stack@.len(), 1int,
{
    let ghost g = t.spec_with(*limits, false);
    let ghost n = cfg_blocks(*cfg).len();
    let ghost stack0 = st.stack@;
    let ghost found0 = st.found@;
    let ghost cap = path_cap(*limits);
    let ghost bud = limits.max_visits as nat;
    let ghost tr = step_trace(g, stack0.push(current), st.keyed@, false);
    let ghost run0 = st.run();
    if st.saturated {
        proof {
            assert(found0 + child_paths(g, stack0, current).take(0) == found0);
            lemma_replay_stopped(tr.0, run0, cap, bud);
        }
        return;
    }
    proof {
        lemma_trace_head(g, stack0.push(current), st.keyed@, false);
        lemma_replay_step(true, tr.0.drop_first(), run0, cap, bud);
        assert(seq![true] + tr.0.drop_first() =~= tr.0);
    }
    if st.visits >= limits.max_visits {
        st.saturated = true;
        st.budget_hit = true;
        proof {
            assert(found0 + child_paths(g, stack0, current).take(0) == found0);
            lemma_replay_stopped(tr.0.drop_first(), run_step(true, run0, cap, bud), cap, bud);
        }
        return;
    }
    st.visits = st.visits + 1;
    let ghost run1 = st.run();
    assert(run1 == run_step(true, run0, cap, bud));
    let stack1 = Ghost(stack0.push(current));
    let bid = block(cfg, current).id;
    st.path_blocks.push(bid);
    st.stack = stack1;
    proof {
        assert(ids_along(cfg_blocks(*cfg), stack1@) == ids_along(cfg_blocks(*cfg), stack0).push(bid));
        assert(stack1@.drop_last() =~= stack0);
    }
    if st.path_blocks.len() > limits.max_length {
        st.path_blocks.pop();
        st.stack = Ghost(stack0);
        proof {
            assert(explore(g, stack1@) == Seq::<Seq<usize>>::empty());
            assert(found0 + child_paths(g, stack0, current).take(0) == found0);
            assert(st.path_blocks@ =~= ids_along(cfg_blocks(*cfg), stack0));
            assert(tr.0.drop_first() =~= Seq::<bool>::empty());
        }
        return;
    }
    if t.exit[current] {
        st.record(cfg, reach, limits);
        st.path_blocks.pop();
        st.stack = Ghost(stack0);
        proof {
            assert(tr.0.drop_first() =~= seq![false] + Seq::<bool>::empty());
            lemma_replay_step(false, Seq::<bool>::empty(), run1, cap, bud);
            assert(!stack0.contains(current));
            assert(explore(g, stack1@) == seq![stack1@]);
            assert(child_paths(g, stack0, current) == seq![stack1@]);
            assert(found0 + child_paths(g, stack0, current).take(1) == found0.push(stack1@));
            assert(st.path_blocks@ =~= ids_along(cfg_blocks(*cfg), stack0));
        }
        return;
    }
    let is_header = t.header[current];
    if st.on_stack[current] && !is_header {
        st.path_blocks.pop();
        st.stack = Ghost(stack0);
        proof {
            assert(stack0.contains(current));
            assert(tr.0.drop_first() =~= Seq::<bool>::empty());
            assert(child_paths(g, stack0, current) == Seq::<Seq<usize>>::empty());
            assert(found0 + child_paths(g, stack0, current).take(0) == found0);
            assert(st.path_blocks@ =~= ids_along(cfg_blocks(*cfg), stack0));
        }
        return;
    }
    proof {
        lemma_count_contains(stack0, current);
        assert(child_paths(g, stack0, current) == explore(g, stack1@));
    }
    st.on_stack.set(current, true);
    if is_header {
        st.keyed.set(current, true);
        if st.counts[current] >= limits.loop_unroll_limit {
            st.on_stack.set(current, false);
            st.path_blocks.pop();
            st.stack = Ghost(stack0);
            proof {
                assert(tr.0.drop_first() =~= Seq::<bool>::empty());
                assert(explore(g, stack1@) == Seq::<Seq<usize>>::empty());
                assert(found0 + child_paths(g, stack0, current).take(0) == found0);
                assert(st.path_blocks@ =~= ids_along(cfg_blocks(*cfg), stack0));
                assert forall|x: usize| x < n && !flag(g.header, x) implies
                    (#[trigger] st.on_stack@[x as int] <==> stack0.contains(x)) by {
                    assert(x != current);
                }
                assert forall|x: usize| x < n && #[trigger] st.keyed@[x as int] implies !flag(g.exit, x) by {
                    if x != current {
                        assert(old(st).keyed@[x as int]);
                    }
                }
                assert forall|x: usize| stack0.contains(x) && flag(g.header, x) && x < n implies #[trigger] st.keyed@[x as int] by {
                    if x != current {
                        assert(old(st).keyed@[x as int]);
                    }
                }
            }
            return;
        }
        st.counts.set(current, st.counts[current] + 1);
    }
    let ghost header_ok = !(flag(g.header, current) && count_in(stack0, current) >= g.unroll);
    assert(header_ok);
    proof {
        assert forall|x: usize| x < n && !flag(g.header, x) implies
            (#[trigger] st.on_stack@[x as int] <==> stack1@.contains(x)) by {
            lemma_contains_push(stack0, current, x);
        }
        assert forall|x: usize| x < n && flag(g.header, x) implies #[trigger] st.counts@[x as int] == count_in(stack1@, x) by {
            lemma_count_push(stack0, current, x);
        }
        assert forall|x: usize| #[trigger] stack1@.contains(x) implies !flag(g.exit, x) by {
            lemma_contains_push(stack0, current, x);
        }
        assert forall|x: usize| stack1@.contains(x) && flag(g.header, x) && x < n implies #[trigger] st.keyed@[x as int] by {
            lemma_contains_push(stack0, current, x);
            if x != current {
                assert(old(st).keyed@[x as int]);
            }
        }
        assert forall|x: usize| x < n && #[trigger] st.keyed@[x as int] implies !flag(g.exit, x) by {
            if x != current {
                assert(old(st).keyed@[x as int]);
            }
        }
        assert forall|i: int| 0 <= i < stack1@.len() implies #[trigger] stack1@[i] < n by {
            if i < stack0.len() {
                assert(stack1@[i] == stack0[i]);
            }
        }
        assert(st.frame_ok(g, n, stack1@, false));
        assert(explore(g, stack1@) == explore_children(g, stack1@, 0));
        let ct = children_trace(g, stack1@, 0, st.keyed@, false);
        assert(tr.0 == seq![true] + ct.0);
        assert(tr.0.drop_first() =~= ct.0);
        assert(tr.1 == ct.1);
        assert(st.run() == run1);
    }
    successors_ctx(cfg, t, limits, reach, st, current);
    if is_header {
        st.counts.set(current, st.counts[current] - 1);
    }
    st.on_stack.set(current, false);
    st.path_blocks.pop();
    st.stack = Ghost(stack0);
    proof {
        assert(st.counts@ =~= old(st).counts@);
        assert(st.path_blocks@ =~= old(st).path_blocks@);
        assert forall|x: usize| x < n && !flag(g.header, x) implies
            (#[trigger] st.on_stack@[x as int] <==> stack0.contains(x)) by {
            lemma_contains_push(stack0, current, x);
        }
        assert forall|x: usize| stack0.contains(x) && flag(g.header, x) && x < n implies #[trigger] st.keyed@[x as int] by {
            lemma_contains_push(stack0, current, x);
        }
        assert(st.frame_ok(g, n, stack0, false));
    }
}

/// The entries of `ascending_upto(nbrs, t)` lie below `t`, and each `x`
/// below `t` occurs there as often as in `nbrs`.
proof fn lemma_ascending(nbrs: Seq<usize>, t: nat, x: usize)
    requires
        t <= usize::MAX + 1,
    ensures
        forall|k: int| 0 <= k < ascending_upto(nbrs, t).len() ==> #[trigger] ascending_upto(nbrs, t)[k] < t,
        x < t ==> ascending_upto(nbrs, t).len() >= count_in(nbrs, x),
    decreases t,
{
    if t > 0 {
        lemma_ascending(nbrs, (t - 1) as nat, x);
        let prev = ascending_upto(nbrs, (t - 1) as nat);
        let tail = Seq::new(count_in(nbrs, (t - 1) as usize), |_j: int| (t - 1) as usize);
        assert(ascending_upto(nbrs, t) == prev + tail);
        assert forall|k: int| 0 <= k < ascending_upto(nbrs, t).len() implies #[trigger] ascending_upto(nbrs, t)[k] < t by {
            if k < prev.len() {
                assert(ascending_upto(nbrs, t)[k] == prev[k]);
            } else {
                assert(ascending_upto(nbrs, t)[k] == tail[k - prev.len()]);
            }
        }
    }
}

/// The successors of `u` sorted by node index, one entry per edge.
fn sorted_successors_of(cfg: &Cfg, u: usize) -> (r: Vec<usize>)
    requires
        u < cfg_blocks(*cfg).len(),
    ensures
        r@ == sorted_succs(cfg_edges(*cfg), u, cfg_blocks(*cfg).len()),
        forall|k: int| 0 <= k < r@.len() ==> #[trigger] r@[k] < cfg_blocks(*cfg).len(),
{
    let n = node_count(cfg);
    let nb = successors(cfg, u);
    let mut cnt: Vec<usize> = Vec::new();
    let mut k: usize = 0;
    while k < n
        invariant
            k <= n,
            cnt.len() == k,
            forall|x: int| 0 <= x < k ==> cnt@[x] == 0,
        decreases n - k,
    {
        cnt.push(0);
        k = k + 1;
    }
    let mut k: usize = 0;
    proof {
        assert(nb@.take(0) =~= Seq::<usize>::empty());
    }
    while k < nb.len()
        invariant
            n == cfg_blocks(*cfg).len(),
            k <= nb@.len(),
            cnt.len() == n,
            forall|q: int| 0 <= q < nb@.len() ==> #[trigger] nb@[q] < n,
            forall|x: usize| x < n ==> #[trigger] cnt@[x as int] == count_in(nb@.take(k as int), x),
        decreases nb@.len() - k,
    {
        let x = nb[k];
        proof {
            lemma_count_contains(nb@.take(k as int), x);
            assert(nb@.take(k + 1) == nb@.take(k as int).push(x));
            assert forall|y: usize| y < n implies #[trigger] count_in(nb@.take(k + 1), y) == count_in(nb@.take(k as int), y) + if x == y { 1nat } else { 0nat } by {
                lemma_count_push(nb@.take(k as int), x, y);
            }
        }
        cnt.set(x, cnt[x] + 1);
        k = k + 1;
    }
    proof {
        assert(nb@.take(nb@.len() as int) == nb@);
        lemma_ascending_same_counts(nb@, out_nbrs(cfg_edges(*cfg), u), cfg_blocks(*cfg).len());
    }
    let mut r: Vec<usize> = Vec::new();
    let mut t: usize = 0;
    while t < n
        invariant
            n == cfg_blocks(*cfg).len(),
            t <= n,
            cnt.len() == n,
            forall|x: usize| x < n ==> #[trigger] cnt@[x as int] == count_in(nb@, x),
            r@ == ascending_upto(nb@, t as nat),
        decreases n - t,
    {
        let c = cnt[t];
        let mut j: usize = 0;
        proof {
            assert(ascending_upto(nb@, t as nat) + Seq::new(0, |_j: int| t) =~= ascending_upto(nb@, t as nat));
        }
        while j < c
            invariant
                j <= c,
                r@ == ascending_upto(nb@, t as nat) + Seq::new(j as nat, |_j: int| t),
            decreases c - j,
        {
            r.push(t);
            proof {
                assert(ascending_upto(nb@, t as nat) + Seq::new((j + 1) as nat, |_j: int| t)
                    =~= (ascending_upto(nb@, t as nat) + Seq::new(j as nat, |_j: int| t)).push(t));
            }
            j = j + 1;
        }
        proof {
            assert(ascending_upto(nb@, (t + 1) as nat) == ascending_upto(nb@, t as nat) + Seq::new(count_in(nb@, t), |_j: int| t));
            assert(Seq::new(c as nat, |_j: int| t) =~= Seq::new(count_in(nb@, t), |_j: int| t));
        }
        t = t + 1;
    }
    proof {
        lemma_ascending(nb@, n as nat, 0);
    }
    r
}

/// Row `u` of the search tables holds node `u`'s successors, exit flag and
/// loop-header flag.
pub(crate) open spec fn table_row(cfg: Cfg, exits: Set<usize>, headers: Set<usize>, sorted: bool,
    succs: Seq<Vec<usize>>, exit: Seq<bool>, header: Seq<bool>, u: int) -> bool {
    &&& exit[u] == exits.contains(u as usize)
    &&& header[u] == headers.contains(u as usize)
    &&& succs[u]@ == if sorted {
        sorted_succs(cfg_edges(cfg), u as usize, cfg_blocks(cfg).len())
    } else {
        neighbor_order(cfg, u as usize)
    }
}

/// The per-node tables of a search: successor lists (sorted by index, or
/// in the graph's list order), and membership in the exit and loop-header sets.
pub(crate) fn build_tables(cfg: &Cfg, exits: &HashSet<usize>, headers: &HashSet<usize>, sorted: bool) -> (t: SearchTables)
    ensures
        t.fits(cfg_blocks(*cfg).len()),
        forall|u: int| 0 <= u < cfg_blocks(*cfg).len() ==>
            #[trigger] table_row(*cfg, exits@, headers@, sorted, t.succs@, t.exit@, t.header@, u),
{
    let n = node_count(cfg);
    let mut succs: Vec<Vec<usize>> = Vec::new();
    let mut exit: Vec<bool> = Vec::new();
    let mut header: Vec<bool> = Vec::new();
    let mut u: usize = 0;
    while u < n
        invariant
            n == cfg_blocks(*cfg).len(),
            u <= n,
            succs.len() == u,
            exit.len() == u,
            header.len() == u,
            forall|v: int, j: int| 0 <= v < u && 0 <= j < succs@[v]@.len() ==> (#[trigger] succs@[v]@[j]) < n,
            forall|v: int| 0 <= v < u ==> #[trigger] table_row(*cfg, exits@, headers@, sorted, succs@, exit@, header@, v),
        decreases n - u,
    {
        let list = if sorted { sorted_successors_of(cfg, u) } else { successors(cfg, u) };
        let ghost old_succs = succs@;
        let ghost old_exit = exit@;
        let ghost old_header = header@;
        succs.push(list);
        exit.push(exits.contains(&u));
        header.push(headers.contains(&u));
        proof {
            assert forall|v: int, j: int| 0 <= v < u + 1 && 0 <= j < succs@[v]@.len() implies (#[trigger] succs@[v]@[j]) < n by {
                if v < u {
                    assert(succs@[v] == old_succs[v]);
                }
            }
            assert forall|v: int| 0 <= v < u + 1 implies #[trigger] table_row(*cfg, exits@, headers@, sorted, succs@, exit@, header@, v) by {
                if v < u {
                    assert(table_row(*cfg, exits@, headers@, sorted, old_succs, old_exit, old_header, v));
                    assert(succs@[v] == old_succs[v]);
                    assert(exit@[v] == old_exit[v]);
                    assert(header@[v] == old_header[v]);
                }
            }
        }
        u = u + 1;
    }
    SearchTables { succs, exit, header }
}

/// The tables of the sorted search of a CFG, given its exit nodes.
pub(crate) fn sorted_tables(cfg: &Cfg, limits: &PathLimits, exits: &HashSet<usize>) -> (t: SearchTables)
    requires
        exits@ == exit_nodes(cfg_blocks(*cfg), cfg_edges(*cfg)),
    ensures
        t.fits(cfg_blocks(*cfg).len()),
        t.spec_with(*limits, true) == sorted_search(*cfg, *limits),
{
    let ghost g = sorted_search(*cfg, *limits);
    let ghost n = cfg_blocks(*cfg).len();
    let headers = find_loop_headers(cfg);
    let t = build_tables(cfg, exits, &headers, true);
    proof {
        let tg = t.spec_with(*limits, true);
        assert(tg.succs =~= g.succs) by {
            assert forall|u: int| 0 <= u < n implies tg.succs[u] == g.succs[u] by {
                assert(table_row(*cfg, exits@, headers@, true, t.succs@, t.exit@, t.header@, u));
            }
        }
        assert(tg.exit =~= g.exit) by {
            assert forall|u: int| 0 <= u < n implies tg.exit[u] == g.exit[u] by {
                assert(table_row(*cfg, exits@, headers@, true, t.succs@, t.exit@, t.header@, u));
            }
        }
        assert(tg.header =~= g.header) by {
            assert forall|u: int| 0 <= u < n implies tg.header[u] == g.header[u] by {
                assert(table_row(*cfg, exits@, headers@, true, t.succs@, t.exit@, t.header@, u));
            }
        }
        assert(tg == g);
    }
    t
}

/// A fresh search state for a graph of `n` nodes.
fn new_state(n: usize) -> (st: SearchState)
    ensures
        st.paths@.len() == 0,
        st.found@ == Seq::<Seq<usize>>::empty(),
        st.stack@ == Seq::<usize>::empty(),
        st.path_blocks@ == Seq::<usize>::empty(),
        st.on_stack@.len() == n,
        st.counts@.len() == n,
        st.keyed@.len() == n,
        forall|x: int| 0 <= x < n ==> !(#[trigger] st.on_stack@[x]),
        forall|x: int| 0 <= x < n ==> #[trigger] st.counts@[x] == 0,
        forall|x: int| 0 <= x < n ==> !(#[trigger] st.keyed@[x]),
        !st.saturated,
        !st.budget_hit,
        st.visits == 0,
{
    let mut on_stack: Vec<bool> = Vec::new();
    let mut counts: Vec<usize> = Vec::new();
    let mut keyed: Vec<bool> = Vec::new();
    let mut k: usize = 0;
    while k < n
        invariant
            k <= n,
            on_stack.len() == k,
            counts.len() == k,
            keyed.len() == k,
            forall|x: int| 0 <= x < k ==> !(#[trigger] on_stack@[x]),
            forall|x: int| 0 <= x < k ==> #[trigger] counts@[x] == 0,
            forall|x: int| 0 <= x < k ==> !(#[trigger] keyed@[x]),
        decreases n - k,
    {
        on_stack.push(false);
        counts.push(0);
        keyed.push(false);
        k = k + 1;
    }
    SearchState {
        paths: Vec::new(),
        found: Ghost(Seq::empty()),
        path_blocks: Vec::new(),
        stack: Ghost(Seq::empty()),
        on_stack,
        counts,
        keyed,
        saturated: false,
        visits: 0,
        budget_hit: false,
    }
}

/// Result of a bounded enumeration. When `truncated` is set the search
/// stopped early (path cap or step budget) and `paths` is a prefix of the
/// full list, not all of it; `budget_exhausted` says the step budget, not
/// the path cap, stopped it.
#[derive(Debug, Clone)]
pub struct PathEnumeration {
    pub paths: Vec<Path>,
    /// The search stopped before finishing
    pub truncated: bool,
    /// The step budget stopped the search
    pub budget_exhausted: bool,
}

/// The search `enumerate_paths` runs: successors in node-index order, the
/// CFG's exit nodes and loop headers, dead ends recorded.
pub open spec fn sorted_search(cfg: Cfg, limits: PathLimits) -> SearchSpec {
    let n = cfg_blocks(cfg).len();
    let es = cfg_edges(cfg);
    SearchSpec {
        succs: Seq::new(n, |u: int| sorted_succs(es, u as usize, n)),
        exit: Seq::new(n, |u: int| exit_nodes(cfg_blocks(cfg), es).contains(u as usize)),
        header: Seq::new(n, |u: int| is_header_of_some(back_edges(es), u as usize)),
        max_length: limits.max_length as nat,
        unroll: limits.loop_unroll_limit as nat,
        dead_ends: true,
    }
}

/// The context lists some exit, so a search with it is started.
pub open spec fn context_runs(ctx: EnumerationContext) -> bool {
    !ctx.exits@.is_empty()
}

/// The search `enumerate_paths_with_context` runs: successors in the graph's list order,
/// the context's exit nodes and loop headers, dead ends not recorded.
pub open spec fn context_search(cfg: Cfg, limits: PathLimits, ctx: EnumerationContext) -> SearchSpec {
    let n = cfg_blocks(cfg).len();
    SearchSpec {
        succs: Seq::new(n, |u: int| neighbor_order(cfg, u as usize)),
        exit: Seq::new(n, |u: int| ctx.exits@.contains(u as usize)),
        header: Seq::new(n, |u: int| ctx.loop_headers@.contains(u as usize)),
        max_length: limits.max_length as nat,
        unroll: limits.loop_unroll_limit as nat,
        dead_ends: false,
    }
}

/// Every path a search records from the entry (node 0), with no cap or
/// budget; none for an empty graph.
pub open spec fn paths_from_entry(g: SearchSpec, n: nat) -> Seq<Seq<usize>> {
    if n == 0 { Seq::empty() } else { explore(g, seq![0usize]) }
}

/// `r` is what a capped, budgeted run of a search returns when its full
/// list of paths is `all`: a prefix of `all`; without budget exhaustion,
/// exactly the first `path_cap` paths (all of them when fewer), truncated
/// precisely when that cap was reached; with it, fewer than the cap.
pub open spec fn is_outcome(r: PathEnumeration, all: Seq<Seq<usize>>, bs: Seq<BasicBlock>, reach: Set<usize>,
    limits: PathLimits) -> bool {
    &&& r.paths@.len() <= all.len()
    &&& forall|i: int| 0 <= i < r.paths@.len() ==> path_for(#[trigger] r.paths@[i], bs, reach, all[i])
    &&& r.budget_exhausted ==> r.truncated && r.paths@.len() < path_cap(limits)
    &&& !r.budget_exhausted ==> {
        &&& r.paths@.len() == (if all.len() < path_cap(limits) { all.len() } else { path_cap(limits) })
        &&& r.truncated == (all.len() >= path_cap(limits))
    }
}

/// `r` is what the search `g` from the entry of a graph of `n` nodes
/// returns (see `is_outcome`), with the step budget deciding exactly as the
/// run of its events does (see `search_run`): the budget stops the search
/// when its steps, in order, run out before the path cap is reached, and
/// the number of paths is the number recorded until the run stopped. When
/// `runs` is false the search is not started: no paths, nothing cut short.
pub open spec fn is_search_outcome(r: PathEnumeration, g: SearchSpec, n: nat, bs: Seq<BasicBlock>, reach: Set<usize>,
    limits: PathLimits, skips: bool, runs: bool) -> bool {
    &&& is_outcome(r, paths_from_entry(g, n), bs, reach, limits)
    &&& r.budget_exhausted == (runs && search_run(g, n, path_cap(limits), limits.max_visits as nat, skips).budget_hit)
    &&& r.paths@.len() == (if runs { search_run(g, n, path_cap(limits), limits.max_visits as nat, skips).recs } else { 0 })
    &&& !runs ==> !r.truncated
}

/// The outcome of a search is determined: any two results that both meet
/// `is_search_outcome` for the same search agree path by path and in their
/// flags.
pub proof fn search_outcome_is_unique(r1: PathEnumeration, r2: PathEnumeration, g: SearchSpec, n: nat,
    bs: Seq<BasicBlock>, reach: Set<usize>, limits: PathLimits, skips: bool, runs: bool)
    requires
        is_search_outcome(r1, g, n, bs, reach, limits, skips, runs),
        is_search_outcome(r2, g, n, bs, reach, limits, skips, runs),
    ensures
        same_path_lists(r1.paths@, r2.paths@),
        r1.truncated == r2.truncated,
        r1.budget_exhausted == r2.budget_exhausted,
{
    lemma_path_for_lists(r1.paths@, r2.paths@, bs, reach, paths_from_entry(g, n));
}

/// A search that can never end a path records none.
proof fn lemma_silent(g: SearchSpec, n: nat, stack: Seq<usize>)
    requires
        forall|u: usize| !flag(g.exit, u),
        g.succs.len() == n,
        forall|u: int, j: int| 0 <= u < n && 0 <= j < g.succs[u].len() ==> #[trigger] g.succs[u][j] < n,
        g.dead_ends ==> forall|u: int| 0 <= u < n ==> #[trigger] g.succs[u].len() > 0,
        stack.len() > 0 ==> stack.last() < n,
    ensures
        explore(g, stack) == Seq::<Seq<usize>>::empty(),
    decreases g.max_length + 1 - stack.len(), 1int, 0int,
{
    if stack.len() > 0 && stack.len() <= g.max_length {
        let u = stack.last();
        if !(flag(g.header, u) && count_in(stack.drop_last(), u) >= g.unroll) {
            if g.dead_ends {
                assert(g.succs[u as int].len() > 0);
            }
            lemma_silent_children(g, n, stack, 0);
        }
    }
}

proof fn lemma_silent_children(g: SearchSpec, n: nat, stack: Seq<usize>, i: int)
    requires
        forall|u: usize| !flag(g.exit, u),
        g.succs.len() == n,
        forall|u: int, j: int| 0 <= u < n && 0 <= j < g.succs[u].len() ==> #[trigger] g.succs[u][j] < n,
        g.dead_ends ==> forall|u: int| 0 <= u < n ==> #[trigger] g.succs[u].len() > 0,
        stack.len() > 0 ==> stack.last() < n,
    ensures
        explore_children(g, stack, i) == Seq::<Seq<usize>>::empty(),
    decreases g.max_length + 1 - stack.len(), 0int, succ_list(g, stack.last()).len() - i,
{
    if stack.len() > 0 && stack.len() <= g.max_length && 0 <= i < succ_list(g, stack.last()).len() {
        let s = succ_list(g, stack.last())[i];
        assert(s < n);
        assert(stack.push(s).last() == s);
        lemma_silent(g, n, stack.push(s));
        lemma_silent_children(g, n, stack, i + 1);
        let here = if !flag(g.header, s) && stack.contains(s) {
            Seq::<Seq<usize>>::empty()
        } else {
            explore(g, stack.push(s))
        };
        assert(here + Seq::<Seq<usize>>::empty() =~= Seq::<Seq<usize>>::empty());
    }
}

/// The outcome of a search run from a fresh state at the entry.
proof fn lemma_run_outcome(g: SearchSpec, st: SearchState, cfg: Cfg, reach: Set<usize>, limits: PathLimits, tracks: bool,
    r: PathEnumeration)
    requires
        cfg_blocks(cfg).len() > 0,
        st.paths_ok(cfg, reach, limits),
        st.found@.len() <= explore(g, seq![0usize]).len(),
        st.found@ == explore(g, seq![0usize]).take(st.found@.len() as int),
        !st.saturated ==> st.found@.len() == explore(g, seq![0usize]).len(),
        r.paths@ == st.paths@,
        r.truncated == st.saturated,
        r.budget_exhausted == st.budget_hit,
    ensures
        is_outcome(r, paths_from_entry(g, cfg_blocks(cfg).len()), cfg_blocks(cfg), reach, limits),
{
    let all = explore(g, seq![0usize]);
    assert forall|i: int| 0 <= i < r.paths@.len() implies path_for(#[trigger] r.paths@[i], cfg_blocks(cfg), reach, all[i]) by {
        assert(st.found@[i] == all[i]);
    }
}

/// Enumerate paths from the entry (see `sorted_search`), within the limits,
/// reporting whether the list was cut short and why.
pub fn enumerate_paths_outcome(cfg: &Cfg, limits: &PathLimits) -> (r: PathEnumeration)
    ensures
        is_search_outcome(r, sorted_search(*cfg, *limits), cfg_blocks(*cfg).len(), cfg_blocks(*cfg),
            reachable_ids(cfg_blocks(*cfg), cfg_edges(*cfg)), *limits, true, has_exit(sorted_search(*cfg, *limits))),
{
    let ghost g = sorted_search(*cfg, *limits);
    let ghost bs = cfg_blocks(*cfg);
    let ghost es = cfg_edges(*cfg);
    let n = node_count(cfg);
    if n == 0 {
        return PathEnumeration { paths: Vec::new(), truncated: false, budget_exhausted: false };
    }
    let exits = exit_node_set(cfg);
    let m = edge_count(cfg);
    if exits.is_empty() {
        proof {
            assert(exit_indices(bs, bs.len()).len() == 0) by {
                if exit_indices(bs, bs.len()).len() > 0 {
                    let x = exit_indices(bs, bs.len())[0];
                    lemma_exit_indices(bs, bs.len(), x);
                    assert(exit_indices(bs, bs.len()).contains(x));
                    assert(exits@.contains(x));
                }
            }
            assert forall|u: int, j: int| 0 <= u < n && 0 <= j < g.succs[u].len() implies #[trigger] g.succs[u][j] < n by {
                lemma_ascending(out_nbrs(es, u as usize), n as nat, 0);
            }
            assert forall|u: int| 0 <= u < n implies #[trigger] g.succs[u].len() > 0 by {
                let nb = out_nbrs(es, u as usize);
                assert(!exits@.contains(u as usize));
                assert(nb.len() > 0);
                let x = nb[0];
                assert(nb.contains(x));
                lemma_out_nbrs_contains(es, u as usize, x);
                let k = choose|k: int| 0 <= k < es.len() && (#[trigger] es[k]).0 == u as usize && es[k].1 == x;
                assert(x < n);
                lemma_count_contains(nb, x);
                lemma_ascending(nb, n as nat, x);
            }
            lemma_silent(g, n as nat, seq![0usize]);
            assert(!has_exit(g)) by {
                assert forall|u: int| 0 <= u < g.exit.len() implies !g.exit[u] by {
                    assert(!exits@.contains(u as usize));
                }
            }
        }
        return PathEnumeration { paths: Vec::new(), truncated: false, budget_exhausted: false };
    }
    proof {
        assert(!(exits@ =~= Set::<usize>::empty()));
        assert(exists|x: usize| exits@.contains(x));
        let x = choose|x: usize| exits@.contains(x);
        assert(x < n);
        assert(g.exit[x as int]);
        assert(has_exit(g));
    }
    let reach = reachable_block_ids(cfg);
    let t = sorted_tables(cfg, limits, &exits);
    let mut st = new_state(n);
    proof {
        assert(st.frame_ok(g, n as nat, st.stack@, true));
        assert(st.path_blocks@ =~= ids_along(cfg_blocks(*cfg), st.stack@));
        assert(st.paths_ok(*cfg, reach@, *limits));
        assert(st.consistent(g, *cfg, reach@, *limits, true));
        assert(st.keyed@ =~= Seq::new(n as nat, |i: int| false));
        assert(st.run() == run_start());
    }
    dfs_sorted(cfg, &t, limits, &reach, &mut st, 0);
    let r = PathEnumeration { paths: st.paths, truncated: st.saturated, budget_exhausted: st.budget_hit };
    proof {
        assert(Seq::<usize>::empty().push(0usize) =~= seq![0usize]);
        assert(st.run() == search_run(g, n as nat, path_cap(*limits), limits.max_visits as nat, true));
        assert(Seq::<usize>::empty().push(0usize) =~= seq![0usize]);
        assert(Seq::<Seq<usize>>::empty() + explore(g, seq![0usize]).take(st.found@.len() as int)
            =~= explore(g, seq![0usize]).take(st.found@.len() as int));
        if !st.saturated {
            assert(explore(g, seq![0usize]).take(st.found@.len() as int) =~= explore(g, seq![0usize]));
        }
        lemma_run_outcome(g, st, *cfg, reach@, *limits, true, r);
    }
    r
}

/// Enumerate paths from the entry (see `enumerate_paths_outcome`).
pub fn enumerate_paths(cfg: &Cfg, limits: &PathLimits) -> (r: Vec<Path>)
    ensures
        exists|o: PathEnumeration| #[trigger] is_search_outcome(o, sorted_search(*cfg, *limits), cfg_blocks(*cfg).len(),
            cfg_blocks(*cfg), reachable_ids(cfg_blocks(*cfg), cfg_edges(*cfg)), *limits, true,
            has_exit(sorted_search(*cfg, *limits))) && o.paths@ == r@,
{
    let o = enumerate_paths_outcome(cfg, limits);
    let r = o.paths;
    r
}

/// Enumerate paths from the entry with a precomputed context (see
/// `context_search`): no paths when the graph is empty or the context
/// lists no exit.
pub fn enumerate_paths_with_context_outcome(cfg: &Cfg, limits: &PathLimits, ctx: &EnumerationContext) -> (r: PathEnumeration)
    ensures
        is_search_outcome(r, context_search(*cfg, *limits, *ctx), cfg_blocks(*cfg).len(), cfg_blocks(*cfg),
            ctx.reachable_blocks@, *limits, false, context_runs(*ctx)),
        ctx.exits@.is_empty() ==> r.paths@.len() == 0 && !r.truncated && !r.budget_exhausted,
{
    let ghost g = context_search(*cfg, *limits, *ctx);
    let n = node_count(cfg);
    if n == 0 {
        return PathEnumeration { paths: Vec::new(), truncated: false, budget_exhausted: false };
    }
    let t = build_tables(cfg, &ctx.exits, &ctx.loop_headers, false);
    let ghost es = cfg_edges(*cfg);
    proof {
        let tg = t.spec_with(*limits, false);
        assert(tg.succs =~= g.succs) by {
            assert forall|u: int| 0 <= u < n implies tg.succs[u] == g.succs[u] by {
                assert(table_row(*cfg, ctx.exits@, ctx.loop_headers@, false, t.succs@, t.exit@, t.header@, u));
            }
        }
        assert(tg.exit =~= g.exit) by {
            assert forall|u: int| 0 <= u < n implies tg.exit[u] == g.exit[u] by {
                assert(table_row(*cfg, ctx.exits@, ctx.loop_headers@, false, t.succs@, t.exit@, t.header@, u));
            }
        }
        assert(tg.header =~= g.header) by {
            assert forall|u: int| 0 <= u < n implies tg.header[u] == g.header[u] by {
                assert(table_row(*cfg, ctx.exits@, ctx.loop_headers@, false, t.succs@, t.exit@, t.header@, u));
            }
        }
        assert(tg == g);
    }
    if ctx.exits.is_empty() {
        proof {
            assert forall|u: int, j: int| 0 <= u < n && 0 <= j < g.succs[u].len() implies #[trigger] g.succs[u][j] < n by {
                assert(t.succs@[u]@[j] < n);
            }
            assert forall|u: usize| !flag(g.exit, u) by {
                assert(!ctx.exits@.contains(u));
            }
            lemma_silent(g, n as nat, seq![0usize]);
        }
        return PathEnumeration { paths: Vec::new(), truncated: false, budget_exhausted: false };
    }
    let mut st = new_state(n);
    proof {
        assert(st.frame_ok(g, n as nat, st.stack@, false));
        assert(st.path_blocks@ =~= ids_along(cfg_blocks(*cfg), st.stack@));
        assert(st.paths_ok(*cfg, ctx.reachable_blocks@, *limits));
        assert(st.consistent(g, *cfg, ctx.reachable_blocks@, *limits, false));
        assert(st.keyed@ =~= Seq::new(n as nat, |i: int| false));
        assert(st.run() == run_start());
    }
    dfs_ctx(cfg, &t, limits, &ctx.reachable_blocks, &mut st, 0);
    let r = PathEnumeration { paths: st.paths, truncated: st.saturated, budget_exhausted: st.budget_hit };
    proof {
        assert(Seq::<usize>::empty().push(0usize) =~= seq![0usize]);
        assert(st.run() == search_run(g, n as nat, path_cap(*limits), limits.max_visits as nat, false));
        assert(Seq::<usize>::empty().push(0usize) =~= seq![0usize]);
        assert(!Seq::<usize>::empty().contains(0usize));
        assert(child_paths(g, Seq::<usize>::empty(), 0) == explore(g, seq![0usize]));
        assert(Seq::<Seq<usize>>::empty() + explore(g, seq![0usize]).take(st.found@.len() as int)
            =~= explore(g, seq![0usize]).take(st.found@.len() as int));
        if !st.saturated {
            assert(explore(g, seq![0usize]).take(st.found@.len() as int) =~= explore(g, seq![0usize]));
        }
        lemma_run_outcome(g, st, *cfg, ctx.reachable_blocks@, *limits, false, r);
    }
    r
}

/// Enumerate paths with a precomputed context (see
/// `enumerate_paths_with_context_outcome`).
pub fn enumerate_paths_with_context(cfg: &Cfg, limits: &PathLimits, ctx: &EnumerationContext) -> (r: Vec<Path>)
    ensures
        exists|o: PathEnumeration| #[trigger] is_search_outcome(o, context_search(*cfg, *limits, *ctx), cfg_blocks(*cfg).len(),
            cfg_blocks(*cfg), ctx.reachable_blocks@, *limits, false, context_runs(*ctx)) && o.paths@ == r@,
{
    let o = enumerate_paths_with_context_outcome(cfg, limits, ctx);
    let r = o.paths;
    r
}

/// Every path `enumerate_paths` records is a run of the CFG: it starts at
/// the entry node, each step follows an edge, it stops at an exit node or at
/// a node without successors, and it is no longer than the length limit.
pub proof fn enumerated_paths_are_runs(cfg: Cfg, limits: PathLimits, j: int)
    requires
        cfg_blocks(cfg).len() <= u32::MAX,
        edges_in_range(cfg_edges(cfg), cfg_blocks(cfg).len()),
        0 <= j < paths_from_entry(sorted_search(cfg, limits), cfg_blocks(cfg).len()).len(),
    ensures
        paths_from_entry(sorted_search(cfg, limits), cfg_blocks(cfg).len())[j][0] == 0,
        is_walk(cfg_edges(cfg), paths_from_entry(sorted_search(cfg, limits), cfg_blocks(cfg).len())[j]),
        paths_from_entry(sorted_search(cfg, limits), cfg_blocks(cfg).len())[j].len() <= limits.max_length,
        ({
            let q = paths_from_entry(sorted_search(cfg, limits), cfg_blocks(cfg).len())[j];
            exit_nodes(cfg_blocks(cfg), cfg_edges(cfg)).contains(q.last()) || out_nbrs(cfg_edges(cfg), q.last()).len() == 0
        }),
{
    let g = sorted_search(cfg, limits);
    let n = cfg_blocks(cfg).len();
    let es = cfg_edges(cfg);
    let start = seq![0usize];
    assert(n > 0);
    assert(succ_walk(g, start));
    explored_paths_are_recorded_runs(g, start, j);
    let q = explore(g, start)[j];
    assert(recorded_from(g, start, q));
    assert(q[0] == start[0]) by {
        assert(q.take(1)[0] == q[0]);
    }
    assert forall|k: int| 0 <= k < q.len() - 1 implies has_edge(es, #[trigger] q[k], q[k + 1]) by {
        assert(succ_list(g, q[k]).contains(q[k + 1]));
        assert(q[k] < n);
        lemma_ascending_member(out_nbrs(es, q[k]), n, q[k + 1]);
        lemma_count_contains(out_nbrs(es, q[k]), q[k + 1]);
        lemma_out_nbrs_contains(es, q[k], q[k + 1]);
    }
    let u = q.last();
    if q.len() >= 2 {
        let k = q.len() - 2;
        assert(succ_list(g, q[k]).contains(q[k + 1]));
        lemma_ascending(out_nbrs(es, q[k]), n, u);
        let w = choose|w: int| 0 <= w < succ_list(g, q[k]).len() && succ_list(g, q[k])[w] == q[k + 1];
        assert(u < n);
    }
    assert(u < n);
    if !flag(g.exit, u) {
        assert(succ_list(g, u).len() == 0);
        let nb = out_nbrs(es, u);
        if nb.len() > 0 {
            let x = nb[0];
            assert(nb.contains(x));
            lemma_out_nbrs_contains(es, u, x);
            let e = choose|e: int| 0 <= e < es.len() && (#[trigger] es[e]).0 == u && es[e].1 == x;
            assert(x < n);
            lemma_count_contains(nb, x);
            lemma_ascending(nb, n as nat, x);
        }
    }
}

} // verus!
