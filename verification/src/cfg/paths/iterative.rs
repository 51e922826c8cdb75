//! Path enumeration with an explicit stack of search frames instead of
//! recursion.
//!
//! Each frame carries its own path, its own set of nodes already on the
//! path and its own loop-iteration counters. A popped frame pushes one
//! frame per admissible successor (ascending node order), so successors are
//! explored from the highest index down. Paths with equal block sequences
//! are recorded once.

use vstd::prelude::*;
use std::collections::HashSet;
use crate::cfg::{BlockId, BasicBlock};
use crate::cfg::graph::{Cfg, cfg_blocks, cfg_edges, node_count, block};
use crate::cfg::loops::find_loop_headers;
use crate::cfg::paths::Path;
use crate::cfg::paths::limits::{PathLimits, exit_node_set, reachable_block_ids, reachable_ids};
use crate::cfg::paths::feasibility::classify_path_precomputed;
use crate::cfg::paths::search::{SearchSpec, flag, succ_list, ids_along, path_for, succ_walk};
use crate::cfg::paths::enumeration::{sorted_search, sorted_tables, SearchTables};

verus! {

broadcast use vstd::std_specs::hash::group_hash_axioms;

/// A search frame: the node reached, the nodes of the path to it, which
/// nodes are on that path, and the loop-iteration counters.
pub struct FrameSpec {
    pub node: usize,
    pub nodes: Seq<usize>,
    pub visited: Seq<bool>,
    pub iters: Seq<usize>,
}

/// The frames pushed for the successors `i..` of frame `f`, given the
/// counters as updated by the earlier successors: a successor already on
/// the path is skipped unless it is a loop header with iterations left;
/// entering such a header counts one iteration.
pub open spec fn child_frames(g: SearchSpec, f: FrameSpec, i: int, iters: Seq<usize>) -> Seq<FrameSpec>
    decreases succ_list(g, f.node).len() - i,
{
    if i < 0 || i >= succ_list(g, f.node).len() {
        Seq::empty()
    } else {
        let s = succ_list(g, f.node)[i];
        let back = flag(g.header, s) && s < iters.len() && iters[s as int] < g.unroll;
        if flag(f.visited, s) && !back {
            child_frames(g, f, i + 1, iters)
        } else {
            let iters2 = if back { iters.update(s as int, (iters[s as int] + 1) as usize) } else { iters };
            seq![FrameSpec { node: s, nodes: f.nodes.push(s), visited: f.visited.update(s as int, true), iters: iters2 }]
                + child_frames(g, f, i + 1, iters2)
        }
    }
}

/// The frames popped, in order, while frame `f` (at path length `d`) and
/// everything it pushes is processed: itself, then the subtrees of its
/// children from the last pushed to the first. Frames past the length
/// limit and exit frames push nothing.
pub open spec fn frame_events(g: SearchSpec, f: FrameSpec, d: nat) -> Seq<FrameSpec>
    decreases g.max_length + 1 - d, 1int, 0int,
{
    if d > g.max_length || flag(g.exit, f.node) {
        seq![f]
    } else {
        seq![f] + list_events(g, child_frames(g, f, 0, f.iters), d + 1)
    }
}

/// The frames popped while the frames `cs` (each at path length `d`) are
/// processed, the last one first.
pub open spec fn list_events(g: SearchSpec, cs: Seq<FrameSpec>, d: nat) -> Seq<FrameSpec>
    decreases g.max_length + 1 - d, 2int, cs.len(),
{
    if cs.len() == 0 {
        Seq::empty()
    } else {
        frame_events(g, cs.last(), d) + list_events(g, cs.drop_last(), d)
    }
}

/// The frames popped while a stack of frames is processed, top first.
pub open spec fn stack_events(g: SearchSpec, st: Seq<FrameSpec>) -> Seq<FrameSpec>
    decreases st.len(),
{
    if st.len() == 0 {
        Seq::empty()
    } else {
        frame_events(g, st.last(), st.last().nodes.len()) + stack_events(g, st.drop_last())
    }
}

/// Progress of a run: recorded paths (node sequences), steps taken, and
/// whether the run has stopped.
pub struct RunSpec {
    pub found: Seq<Seq<usize>>,
    pub visits: nat,
    pub stopped: bool,
}

/// Some recorded path has block sequence `b`.
pub open spec fn already_found(bs: Seq<BasicBlock>, found: Seq<Seq<usize>>, b: Seq<usize>) -> bool {
    exists|i: int| 0 <= i < found.len() && ids_along(bs, #[trigger] found[i]) == b
}

/// Processing one popped frame: frames past the length limit are dropped
/// without counting a step; a step past the budget stops the run; an exit
/// frame records its path unless an equal block sequence was recorded; a
/// non-exit frame stops the run once the path cap is reached.
pub open spec fn run_step(g: SearchSpec, bs: Seq<BasicBlock>, limits: PathLimits, r: RunSpec, f: FrameSpec) -> RunSpec {
    if r.stopped || f.nodes.len() > limits.max_length {
        r
    } else if r.visits + 1 > limits.max_visits {
        RunSpec { visits: r.visits + 1, stopped: true, ..r }
    } else if flag(g.exit, f.node) {
        if already_found(bs, r.found, ids_along(bs, f.nodes)) {
            RunSpec { visits: r.visits + 1, ..r }
        } else {
            RunSpec { found: r.found.push(f.nodes), visits: r.visits + 1, ..r }
        }
    } else if r.found.len() >= limits.max_paths {
        RunSpec { visits: r.visits + 1, stopped: true, ..r }
    } else {
        RunSpec { visits: r.visits + 1, ..r }
    }
}

/// Processing a sequence of popped frames in order.
pub open spec fn run_events(g: SearchSpec, bs: Seq<BasicBlock>, limits: PathLimits, r: RunSpec, evs: Seq<FrameSpec>) -> RunSpec
    decreases evs.len(),
{
    if evs.len() == 0 {
        r
    } else {
        run_events(g, bs, limits, run_step(g, bs, limits, r, evs[0]), evs.drop_first())
    }
}

/// The first frame: the entry node alone on its path, no iterations.
pub open spec fn root_frame(n: nat) -> FrameSpec {
    FrameSpec {
        node: 0,
        nodes: seq![0usize],
        visited: Seq::new(n, |i: int| i == 0),
        iters: Seq::new(n, |_i: int| 0usize),
    }
}

/// The paths the iterative enumeration records for a CFG, as node
/// sequences, in order.
pub open spec fn iterative_paths(cfg: Cfg, limits: PathLimits) -> Seq<Seq<usize>> {
    let n = cfg_blocks(cfg).len();
    let g = sorted_search(cfg, limits);
    if n == 0 || exit_nodes_empty(cfg) {
        Seq::empty()
    } else {
        run_events(g, cfg_blocks(cfg), limits, RunSpec { found: Seq::empty(), visits: 0, stopped: false },
            frame_events(g, root_frame(n), 1)).found
    }
}

/// The CFG has no node where a path could end.
pub open spec fn exit_nodes_empty(cfg: Cfg) -> bool {
    crate::cfg::paths::limits::exit_nodes(cfg_blocks(cfg), cfg_edges(cfg)).is_empty()
}

proof fn lemma_stack_events_concat(g: SearchSpec, a: Seq<FrameSpec>, b: Seq<FrameSpec>)
    ensures
        stack_events(g, a + b) == stack_events(g, b) + stack_events(g, a),
    decreases b.len(),
{
    if b.len() == 0 {
        assert(a + b =~= a);
        assert(Seq::<FrameSpec>::empty() + stack_events(g, a) =~= stack_events(g, a));
    } else {
        assert((a + b).drop_last() =~= a + b.drop_last());
        assert((a + b).last() == b.last());
        lemma_stack_events_concat(g, a, b.drop_last());
        assert(stack_events(g, a + b) =~= stack_events(g, b) + stack_events(g, a));
    }
}

proof fn lemma_list_events_stack(g: SearchSpec, cs: Seq<FrameSpec>, d: nat)
    requires
        forall|i: int| 0 <= i < cs.len() ==> (#[trigger] cs[i]).nodes.len() == d,
    ensures
        list_events(g, cs, d) == stack_events(g, cs),
    decreases cs.len(),
{
    if cs.len() > 0 {
        assert(cs.last() == cs[cs.len() - 1]);
        lemma_list_events_stack(g, cs.drop_last(), d);
    }
}

proof fn lemma_run_concat(g: SearchSpec, bs: Seq<BasicBlock>, limits: PathLimits, r: RunSpec, a: Seq<FrameSpec>, b: Seq<FrameSpec>)
    ensures
        run_events(g, bs, limits, r, a + b) == run_events(g, bs, limits, run_events(g, bs, limits, r, a), b),
    decreases a.len(),
{
    if a.len() == 0 {
        assert(a + b =~= b);
    } else {
        assert((a + b)[0] == a[0]);
        assert((a + b).drop_first() =~= a.drop_first() + b);
        lemma_run_concat(g, bs, limits, run_step(g, bs, limits, r, a[0]), a.drop_first(), b);
    }
}

proof fn lemma_run_single(g: SearchSpec, bs: Seq<BasicBlock>, limits: PathLimits, r: RunSpec, f: FrameSpec)
    ensures
        run_events(g, bs, limits, r, seq![f]) == run_step(g, bs, limits, r, f),
{
    let one = seq![f];
    assert(one[0] == f);
    assert(one.drop_first() =~= Seq::<FrameSpec>::empty());
    assert(run_events(g, bs, limits, run_step(g, bs, limits, r, f), Seq::<FrameSpec>::empty()) == run_step(g, bs, limits, r, f));
}

proof fn lemma_run_stopped(g: SearchSpec, bs: Seq<BasicBlock>, limits: PathLimits, r: RunSpec, evs: Seq<FrameSpec>)
    requires
        r.stopped,
    ensures
        run_events(g, bs, limits, r, evs) == r,
    decreases evs.len(),
{
    if evs.len() > 0 {
        lemma_run_stopped(g, bs, limits, run_step(g, bs, limits, r, evs[0]), evs.drop_first());
    }
}

/// A search frame.
struct Frame {
    node: usize,
    path: Vec<BlockId>,
    nodes: Ghost<Seq<usize>>,
    visited: Vec<bool>,
    iters: Vec<usize>,
}

impl Frame {
    spec fn view_spec(&self) -> FrameSpec {
        FrameSpec { node: self.node, nodes: self.nodes@, visited: self.visited@, iters: self.iters@ }
    }

    spec fn well_formed(&self, bs: Seq<BasicBlock>) -> bool {
        &&& self.path@ == ids_along(bs, self.nodes@)
        &&& self.visited@.len() == bs.len()
        &&& self.iters@.len() == bs.len()
        &&& self.nodes@.len() >= 1
        &&& self.nodes@.last() == self.node
        &&& self.node < bs.len()
        &&& forall|i: int| 0 <= i < self.nodes@.len() ==> #[trigger] self.nodes@[i] < bs.len()
    }
}

/// The views of a stack of frames.
spec fn stack_view(st: Seq<Frame>) -> Seq<FrameSpec> {
    st.map_values(|f: Frame| f.view_spec())
}

/// A copy of a flag table.
fn copy_flags(v: &Vec<bool>) -> (r: Vec<bool>)
    ensures
        r@ == v@,
{
    let mut r: Vec<bool> = Vec::new();
    let mut i: usize = 0;
    while i < v.len()
        invariant
            i <= v.len(),
            r@ == v@.take(i as int),
        decreases v.len() - i,
    {
        r.push(v[i]);
        proof {
            assert(v@.take(i + 1) == v@.take(i as int).push(v@[i as int]));
        }
        i = i + 1;
    }
    proof {
        assert(v@.take(v.len() as int) == v@);
    }
    r
}

/// A copy of a counter table.
fn copy_counts(v: &Vec<usize>) -> (r: Vec<usize>)
    ensures
        r@ == v@,
{
    let mut r: Vec<usize> = Vec::new();
    let mut i: usize = 0;
    while i < v.len()
        invariant
            i <= v.len(),
            r@ == v@.take(i as int),
        decreases v.len() - i,
    {
        r.push(v[i]);
        proof {
            assert(v@.take(i + 1) == v@.take(i as int).push(v@[i as int]));
        }
        i = i + 1;
    }
    proof {
        assert(v@.take(v.len() as int) == v@);
    }
    r
}

/// The two block sequences are equal.
fn same_blocks(a: &Vec<BlockId>, b: &Vec<BlockId>) -> (r: bool)
    ensures
        r == (a@ == b@),
{
    if a.len() != b.len() {
        return false;
    }
    let mut i: usize = 0;
    while i < a.len()
        invariant
            a.len() == b.len(),
            i <= a.len(),
            forall|k: int| 0 <= k < i ==> a@[k] == b@[k],
        decreases a.len() - i,
    {
        if a[i] != b[i] {
            return false;
        }
        i = i + 1;
    }
    proof {
        assert(a@ =~= b@);
    }
    true
}

/// Some path already recorded has blocks `b`.
fn recorded(paths: &Vec<Path>, b: &Vec<BlockId>) -> (r: bool)
    ensures
        r == exists|i: int| 0 <= i < paths@.len() && (#[trigger] paths@[i]).blocks@ == b@,
{
    let mut i: usize = 0;
    while i < paths.len()
        invariant
            i <= paths@.len(),
            forall|k: int| 0 <= k < i ==> (#[trigger] paths@[k]).blocks@ != b@,
        decreases paths@.len() - i,
    {
        if same_blocks(&paths[i].blocks, b) {
            return true;
        }
        i = i + 1;
    }
    false
}

/// Enumerate paths with an explicit stack of frames (see
/// `iterative_paths`), recording each block sequence once.
pub fn enumerate_paths_iterative(cfg: &Cfg, limits: &PathLimits) -> (r: Vec<Path>)
    ensures
        is_iterative_result(*cfg, *limits, r@),
{
    let ghost bs = cfg_blocks(*cfg);
    let ghost g = sorted_search(*cfg, *limits);
    let n = node_count(cfg);
    if n == 0 {
        return Vec::new();
    }
    let exits = exit_node_set(cfg);
    if exits.is_empty() {
        return Vec::new();
    }
    let reach = reachable_block_ids(cfg);
    let t = sorted_tables(cfg, limits, &exits);
    let ghost init = RunSpec { found: Seq::empty(), visits: 0, stopped: false };
    let mut visited0: Vec<bool> = Vec::new();
    let mut iters0: Vec<usize> = Vec::new();
    let mut k: usize = 0;
    while k < n
        invariant
            k <= n,
            visited0@ == Seq::new(k as nat, |i: int| i == 0),
            iters0@ == Seq::new(k as nat, |_i: int| 0usize),
        decreases n - k,
    {
        visited0.push(k == 0);
        iters0.push(0);
        proof {
            assert(visited0@ =~= Seq::new((k + 1) as nat, |i: int| i == 0));
            assert(iters0@ =~= Seq::new((k + 1) as nat, |_i: int| 0usize));
        }
        k = k + 1;
    }
    let mut root_path: Vec<BlockId> = Vec::new();
    root_path.push(block(cfg, 0).id);
    let ghost root_nodes = seq![0usize];
    let root = Frame { node: 0, path: root_path, nodes: Ghost(root_nodes), visited: visited0, iters: iters0 };
    let mut stack: Vec<Frame> = Vec::new();
    stack.push(root);
    let mut paths: Vec<Path> = Vec::new();
    let mut found: Ghost<Seq<Seq<usize>>> = Ghost(Seq::empty());
    let mut visits: usize = 0;
    let mut gvisits: Ghost<nat> = Ghost(0);
    let mut stopped = false;
    proof {
        assert(root.view_spec() == root_frame(n as nat));
        assert(ids_along(bs, seq![0usize]) =~= root.path@);
        assert(stack_view(stack@) =~= seq![root_frame(n as nat)]);
        let rs = seq![root_frame(n as nat)];
        assert(rs.last() == root_frame(n as nat));
        assert(rs.drop_last() =~= Seq::<FrameSpec>::empty());
        assert(stack_events(g, rs) == frame_events(g, root_frame(n as nat), 1) + stack_events(g, Seq::<FrameSpec>::empty()));
        assert(stack_events(g, rs) =~= frame_events(g, root_frame(n as nat), 1));
    }
    while stack.len() > 0 && !stopped
        invariant
            n == bs.len(),
            bs == cfg_blocks(*cfg),
            t.fits(n as nat),
            t.spec_with(*limits, true) == g,
            g == sorted_search(*cfg, *limits),
            forall|i: int| 0 <= i < stack@.len() ==> (#[trigger] stack@[i]).well_formed(bs),
            run_events(g, bs, *limits, init, frame_events(g, root_frame(n as nat), 1))
                == run_events(g, bs, *limits, RunSpec { found: found@, visits: gvisits@, stopped }, stack_events(g, stack_view(stack@))),
            !stopped ==> gvisits@ == visits,
            paths@.len() == found@.len(),
            forall|i: int| 0 <= i < paths@.len() ==>
                path_for(#[trigger] paths@[i], bs, reach@, found@[i]),
            reach@ == reachable_ids(bs, cfg_edges(*cfg)),
        decreases stack_events(g, stack_view(stack@)).len(),
    {
        let ghost before = stack_view(stack@);
        let f = stack.pop().unwrap();
        let ghost rest = stack_view(stack@);
        let ghost fs = f.view_spec();
        let ghost d = fs.nodes.len();
        let ghost cur = RunSpec { found: found@, visits: gvisits@, stopped };
        proof {
            assert(before =~= rest.push(fs));
            assert(before.drop_last() =~= rest);
            assert(stack_events(g, before) == frame_events(g, fs, d) + stack_events(g, rest));
            assert(f.well_formed(bs));
        }
        if f.path.len() > limits.max_length {
            proof {
                assert(frame_events(g, fs, d) == seq![fs]);
                lemma_run_concat(g, bs, *limits, cur, seq![fs], stack_events(g, rest));
                assert(run_step(g, bs, *limits, cur, fs) == cur);
                lemma_run_single(g, bs, *limits, cur, fs);
            }
            continue;
        }
        if visits >= limits.max_visits {
            stopped = true;
            proof {
                let next = RunSpec { visits: gvisits@ + 1, stopped: true, ..cur };
                gvisits@ = gvisits@ + 1;
                assert(run_step(g, bs, *limits, cur, fs) == next);
                lemma_run_concat(g, bs, *limits, cur, seq![fs], frame_events(g, fs, d).drop_first() + stack_events(g, rest));
                lemma_run_single(g, bs, *limits, cur, fs);
                assert(frame_events(g, fs, d) =~= seq![fs] + frame_events(g, fs, d).drop_first());
                assert(frame_events(g, fs, d) + stack_events(g, rest) =~= seq![fs] + (frame_events(g, fs, d).drop_first() + stack_events(g, rest)));
                lemma_run_stopped(g, bs, *limits, next, frame_events(g, fs, d).drop_first() + stack_events(g, rest));
                lemma_run_stopped(g, bs, *limits, next, stack_events(g, stack_view(stack@)));
            }
            continue;
        }
        visits = visits + 1;
        proof {
            assert(seq![fs].drop_first() =~= Seq::<FrameSpec>::empty());
            assert(seq![fs][0] == fs);
        }
        if t.exit[f.node] {
            let dup = recorded(&paths, &f.path);
            proof {
                assert(dup == already_found(bs, found@, ids_along(bs, fs.nodes))) by {
                    if dup {
                        let i = choose|i: int| 0 <= i < paths@.len() && (#[trigger] paths@[i]).blocks@ == f.path@;
                        assert(path_for(paths@[i], bs, reach@, found@[i]));
                    }
                    if already_found(bs, found@, ids_along(bs, fs.nodes)) {
                        let i = choose|i: int| 0 <= i < found@.len() && ids_along(bs, #[trigger] found@[i]) == ids_along(bs, fs.nodes);
                        assert(path_for(paths@[i], bs, reach@, found@[i]));
                        assert(paths@[i].blocks@ == f.path@);
                    }
                }
                assert(frame_events(g, fs, d) == seq![fs]);
                lemma_run_concat(g, bs, *limits, cur, seq![fs], stack_events(g, rest));
                lemma_run_single(g, bs, *limits, cur, fs);
            }
            if !dup {
                let ghost old_paths = paths@;
                let kind = classify_path_precomputed(cfg, f.path.as_slice(), &reach);
                let p = Path::new(f.path, kind);
                paths.push(p);
                proof {
                    found@ = found@.push(fs.nodes);
                    assert forall|i: int| 0 <= i < paths@.len() implies path_for(#[trigger] paths@[i], bs, reach@, found@[i]) by {
                        if i < old_paths.len() {
                            assert(paths@[i] == old_paths[i]);
                        }
                    }
                }
            }
            proof {
                gvisits@ = gvisits@ + 1;
                assert(run_step(g, bs, *limits, cur, fs) == RunSpec { found: found@, visits: gvisits@, stopped: false });
            }
            continue;
        }
        if paths.len() >= limits.max_paths {
            stopped = true;
            proof {
                let next = RunSpec { visits: gvisits@ + 1, stopped: true, ..cur };
                gvisits@ = gvisits@ + 1;
                assert(run_step(g, bs, *limits, cur, fs) == next);
                assert(frame_events(g, fs, d) + stack_events(g, rest) =~= seq![fs] + (frame_events(g, fs, d).drop_first() + stack_events(g, rest)));
                lemma_run_concat(g, bs, *limits, cur, seq![fs], frame_events(g, fs, d).drop_first() + stack_events(g, rest));
                lemma_run_single(g, bs, *limits, cur, fs);
                lemma_run_stopped(g, bs, *limits, next, frame_events(g, fs, d).drop_first() + stack_events(g, rest));
                lemma_run_stopped(g, bs, *limits, next, stack_events(g, stack_view(stack@)));
            }
            continue;
        }
        proof {
            gvisits@ = gvisits@ + 1;
            assert(run_step(g, bs, *limits, cur, fs) == RunSpec { found: found@, visits: gvisits@, stopped: false });
        }
        let ghost after = RunSpec { found: found@, visits: gvisits@, stopped: false };
        let succ = &t.succs[f.node];
        let mut iters = copy_counts(&f.iters);
        let ghost mut pushed: Seq<FrameSpec> = Seq::empty();
        proof {
            assert(succ@ == succ_list(g, f.node));
            assert(stack_view(stack@) =~= rest + pushed);
            assert(child_frames(g, fs, 0, fs.iters) =~= pushed + child_frames(g, fs, 0, iters@));
        }
        let mut i: usize = 0;
        while i < succ.len()
            invariant
                n == bs.len(),
                bs == cfg_blocks(*cfg),
                t.fits(n as nat),
                t.spec_with(*limits, true) == g,
                f.well_formed(bs),
                fs == f.view_spec(),
                d == fs.nodes.len(),
                succ@ == succ_list(g, f.node),
                i <= succ@.len(),
                iters@.len() == n,
                stack_view(stack@) == rest + pushed,
                child_frames(g, fs, 0, fs.iters) == pushed + child_frames(g, fs, i as int, iters@),
                forall|k: int| 0 <= k < pushed.len() ==> (#[trigger] pushed[k]).nodes.len() == d + 1,
                forall|k: int| 0 <= k < stack@.len() ==> (#[trigger] stack@[k]).well_formed(bs),
            decreases succ@.len() - i,
        {
            let s = succ[i];
            proof {
                assert(s == succ_list(g, f.node)[i as int]);
                assert(s < n);
            }
            let back = t.header[s] && iters[s] < limits.loop_unroll_limit;
            if f.visited[s] && !back {
                proof {
                    assert(child_frames(g, fs, i as int, iters@) == child_frames(g, fs, i + 1, iters@));
                }
                i = i + 1;
                continue;
            }
            let ghost iters_pre = iters@;
            if back {
                iters.set(s, iters[s] + 1);
            }
            let ghost iters2 = iters@;
            let mut np = crate::cfg::paths::enumeration::copy_blocks(&f.path);
            np.push(block(cfg, s).id);
            let mut nv = copy_flags(&f.visited);
            nv.set(s, true);
            let ni = copy_counts(&iters);
            let child = Frame { node: s, path: np, nodes: Ghost(fs.nodes.push(s)), visited: nv, iters: ni };
            let ghost cs = child.view_spec();
            proof {
                assert(cs == FrameSpec { node: s, nodes: fs.nodes.push(s), visited: fs.visited.update(s as int, true), iters: iters2 });
                assert(child_frames(g, fs, i as int, iters_pre) == seq![cs] + child_frames(g, fs, i + 1, iters2));
                assert(child_frames(g, fs, 0, fs.iters) =~= pushed.push(cs) + child_frames(g, fs, i + 1, iters2));
                assert(child.path@ =~= ids_along(bs, fs.nodes.push(s)));
                assert forall|q: int| 0 <= q < child.nodes@.len() implies #[trigger] child.nodes@[q] < bs.len() by {
                    if q < fs.nodes.len() {
                        assert(child.nodes@[q] == fs.nodes[q]);
                    }
                }
                assert(child.well_formed(bs));
            }
            let ghost old_stack = stack@;
            stack.push(child);
            proof {
                pushed = pushed.push(cs);
                assert(stack_view(stack@) =~= stack_view(old_stack).push(cs));
                assert forall|k: int| 0 <= k < stack@.len() implies (#[trigger] stack@[k]).well_formed(bs) by {
                    if k < old_stack.len() {
                        assert(stack@[k] == old_stack[k]);
                    }
                }
            }
            i = i + 1;
        }
        proof {
            assert(child_frames(g, fs, succ@.len() as int, iters@) == Seq::<FrameSpec>::empty());
            assert(pushed =~= child_frames(g, fs, 0, fs.iters));
            assert(frame_events(g, fs, d) == seq![fs] + list_events(g, pushed, d + 1));
            lemma_list_events_stack(g, pushed, d + 1);
            lemma_stack_events_concat(g, rest, pushed);
            lemma_run_concat(g, bs, *limits, cur, seq![fs], stack_events(g, pushed) + stack_events(g, rest));
            lemma_run_single(g, bs, *limits, cur, fs);
            assert(stack_events(g, before) =~= seq![fs] + (stack_events(g, pushed) + stack_events(g, rest)));
        }
    }
    proof {
        if !stopped {
            assert(stack_view(stack@) =~= Seq::<FrameSpec>::empty());
        } else {
            lemma_run_stopped(g, bs, *limits, RunSpec { found: found@, visits: gvisits@, stopped }, stack_events(g, stack_view(stack@)));
        }
    }
    paths
}

/// A frame whose path starts at the entry and goes from node to successor,
/// ending at the frame's node.
pub open spec fn frame_on_run(g: SearchSpec, f: FrameSpec) -> bool {
    &&& succ_walk(g, f.nodes)
    &&& f.nodes[0] == 0
    &&& f.nodes.last() == f.node
}

proof fn lemma_child_frames_on_run(g: SearchSpec, f: FrameSpec, i: int, iters: Seq<usize>)
    requires
        frame_on_run(g, f),
    ensures
        forall|k: int| 0 <= k < child_frames(g, f, i, iters).len() ==> frame_on_run(g, #[trigger] child_frames(g, f, i, iters)[k]),
    decreases succ_list(g, f.node).len() - i,
{
    if i < 0 || i >= succ_list(g, f.node).len() {
    } else {
        let s = succ_list(g, f.node)[i];
        let back = flag(g.header, s) && s < iters.len() && iters[s as int] < g.unroll;
        if flag(f.visited, s) && !back {
            lemma_child_frames_on_run(g, f, i + 1, iters);
            assert(child_frames(g, f, i, iters) == child_frames(g, f, i + 1, iters));
        } else {
            let iters2 = if back { iters.update(s as int, (iters[s as int] + 1) as usize) } else { iters };
            let c = FrameSpec { node: s, nodes: f.nodes.push(s), visited: f.visited.update(s as int, true), iters: iters2 };
            lemma_child_frames_on_run(g, f, i + 1, iters2);
            assert(succ_list(g, f.node).contains(s));
            assert(succ_walk(g, c.nodes)) by {
                assert forall|k: int| 0 <= k < c.nodes.len() - 1 implies succ_list(g, #[trigger] c.nodes[k]).contains(c.nodes[k + 1]) by {
                    if k < f.nodes.len() - 1 {
                        assert(c.nodes[k] == f.nodes[k] && c.nodes[k + 1] == f.nodes[k + 1]);
                    } else {
                        assert(c.nodes[k] == f.nodes.last());
                    }
                }
            }
            let rest = child_frames(g, f, i + 1, iters2);
            assert(child_frames(g, f, i, iters) == seq![c] + rest);
            assert forall|k: int| 0 <= k < child_frames(g, f, i, iters).len() implies
                frame_on_run(g, #[trigger] child_frames(g, f, i, iters)[k]) by {
                if k > 0 {
                    assert(child_frames(g, f, i, iters)[k] == rest[k - 1]);
                }
            }
        }
    }
}

proof fn lemma_frame_events_on_run(g: SearchSpec, f: FrameSpec, d: nat)
    requires
        frame_on_run(g, f),
    ensures
        forall|k: int| 0 <= k < frame_events(g, f, d).len() ==> frame_on_run(g, #[trigger] frame_events(g, f, d)[k]),
    decreases g.max_length + 1 - d, 1int, 0int,
{
    if d > g.max_length || flag(g.exit, f.node) {
    } else {
        let cs = child_frames(g, f, 0, f.iters);
        lemma_child_frames_on_run(g, f, 0, f.iters);
        lemma_list_events_on_run(g, cs, d + 1);
        let rest = list_events(g, cs, d + 1);
        assert forall|k: int| 0 <= k < frame_events(g, f, d).len() implies
            frame_on_run(g, #[trigger] frame_events(g, f, d)[k]) by {
            if k > 0 {
                assert(frame_events(g, f, d)[k] == rest[k - 1]);
            }
        }
    }
}

proof fn lemma_list_events_on_run(g: SearchSpec, cs: Seq<FrameSpec>, d: nat)
    requires
        forall|k: int| 0 <= k < cs.len() ==> frame_on_run(g, #[trigger] cs[k]),
    ensures
        forall|k: int| 0 <= k < list_events(g, cs, d).len() ==> frame_on_run(g, #[trigger] list_events(g, cs, d)[k]),
    decreases g.max_length + 1 - d, 2int, cs.len(),
{
    if cs.len() > 0 {
        assert(frame_on_run(g, cs[cs.len() - 1]));
        lemma_frame_events_on_run(g, cs.last(), d);
        lemma_list_events_on_run(g, cs.drop_last(), d);
        let a = frame_events(g, cs.last(), d);
        let b = list_events(g, cs.drop_last(), d);
        assert forall|k: int| 0 <= k < list_events(g, cs, d).len() implies
            frame_on_run(g, #[trigger] list_events(g, cs, d)[k]) by {
            if k < a.len() {
                assert(list_events(g, cs, d)[k] == a[k]);
            } else {
                assert(list_events(g, cs, d)[k] == b[k - a.len()]);
            }
        }
    }
}

/// The found paths are runs that end at an exit node within the length limit.
pub open spec fn found_runs(g: SearchSpec, limits: PathLimits, found: Seq<Seq<usize>>) -> bool {
    forall|k: int| 0 <= k < found.len() ==> {
        &&& succ_walk(g, #[trigger] found[k])
        &&& found[k][0] == 0
        &&& flag(g.exit, found[k].last())
        &&& found[k].len() <= limits.max_length
    }
}

proof fn lemma_run_events_found(g: SearchSpec, bs: Seq<BasicBlock>, limits: PathLimits, r: RunSpec, evs: Seq<FrameSpec>)
    requires
        found_runs(g, limits, r.found),
        forall|k: int| 0 <= k < evs.len() ==> frame_on_run(g, #[trigger] evs[k]),
    ensures
        found_runs(g, limits, run_events(g, bs, limits, r, evs).found),
    decreases evs.len(),
{
    if evs.len() > 0 {
        let f = evs[0];
        let r2 = run_step(g, bs, limits, r, f);
        assert(frame_on_run(g, f));
        assert(found_runs(g, limits, r2.found)) by {
            assert forall|k: int| 0 <= k < r2.found.len() implies {
                &&& succ_walk(g, #[trigger] r2.found[k])
                &&& r2.found[k][0] == 0
                &&& flag(g.exit, r2.found[k].last())
                &&& r2.found[k].len() <= limits.max_length
            } by {
                if k < r.found.len() {
                    assert(r2.found[k] == r.found[k]);
                }
            }
        }
        assert forall|k: int| 0 <= k < evs.drop_first().len() implies frame_on_run(g, #[trigger] evs.drop_first()[k]) by {
            assert(evs.drop_first()[k] == evs[k + 1]);
        }
        lemma_run_events_found(g, bs, limits, r2, evs.drop_first());
    }
}

/// `ps` is what the explicit-stack enumeration returns for `cfg` and
/// `limits`: the paths recorded for the node sequences of `iterative_paths`.
pub open spec fn is_iterative_result(cfg: Cfg, limits: PathLimits, ps: Seq<Path>) -> bool {
    &&& ps.len() == iterative_paths(cfg, limits).len()
    &&& forall|i: int| 0 <= i < ps.len() ==> path_for(#[trigger] ps[i], cfg_blocks(cfg),
        reachable_ids(cfg_blocks(cfg), cfg_edges(cfg)), iterative_paths(cfg, limits)[i])
}

/// Every path the iterative enumeration records is a run of the search
/// graph: it starts at the entry, goes from node to successor, ends at an
/// exit node, and respects the length limit.
pub proof fn iterative_paths_are_runs(cfg: Cfg, limits: PathLimits)
    ensures
        found_runs(sorted_search(cfg, limits), limits, iterative_paths(cfg, limits)),
{
    let n = cfg_blocks(cfg).len();
    let g = sorted_search(cfg, limits);
    if !(n == 0 || exit_nodes_empty(cfg)) {
        let root = root_frame(n);
        assert(succ_walk(g, root.nodes));
        assert(frame_on_run(g, root));
        lemma_frame_events_on_run(g, root, 1);
        let r0 = RunSpec { found: Seq::empty(), visits: 0, stopped: false };
        lemma_run_events_found(g, cfg_blocks(cfg), limits, r0, frame_events(g, root, 1));
    }
}

} // verus!
