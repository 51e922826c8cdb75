//! The CFG factors behind a function's risk score: cyclomatic complexity,
//! bounded path enumeration (with error paths, truncation and an estimate of
//! the true count), loop count and nesting, size and dead code.

use vstd::prelude::*;
use crate::cfg::graph::{Cfg, CfgEdge, cfg_blocks, cfg_edges, node_count, edge_count, neighbor_order};
use crate::cfg::loops::{NaturalLoop, detect_natural_loops, back_edges, is_loop_of, is_header_of_some, nest_level};
use crate::cfg::paths::{Path, PathKind};
use crate::cfg::paths::limits::{PathLimits, EnumerationContext, exit_nodes, reachable_ids};
use crate::cfg::paths::enumeration::{PathEnumeration, enumerate_paths_with_context_outcome, is_search_outcome, context_runs,
    search_outcome_is_unique,
    paths_from_entry, context_search};
use crate::cfg::paths::search::{SearchSpec, same_path_lists};
use crate::cfg::paths::cached::{estimate_path_count, path_estimate};
use crate::cfg::reachability::{find_unreachable, unreachable_upto};

verus! {

broadcast use vstd::std_specs::hash::group_hash_axioms;

/// Cyclomatic complexity of a graph of `n` nodes and `m` edges: `m - n + 2`
/// when there are at least as many edges as nodes, 1 for a non-empty graph
/// with fewer edges, 0 for an empty graph.
pub open spec fn cyclomatic(n: nat, m: nat) -> nat {
    if n == 0 {
        0
    } else if m >= n {
        (m - n + 2) as nat
    } else {
        1
    }
}

/// Cyclomatic complexity counts `E - N + 2` for a non-empty graph with at
/// least as many edges `E` as nodes `N` (a diamond of four nodes and four
/// edges has complexity 2); it is 1 only when there are fewer edges than
/// nodes, and 0 for an empty graph.
pub proof fn cyclomatic_counts_edges_minus_nodes_plus_two(n: nat, m: nat)
    ensures
        n > 0 && m >= n ==> cyclomatic(n, m) == m - n + 2,
        n > 0 && m < n ==> cyclomatic(n, m) == 1,
        n > 0 ==> (cyclomatic(n, m) == 1 <==> m < n),
        n == 0 ==> cyclomatic(n, m) == 0,
{
}

/// Cyclomatic complexity of a CFG (see `cyclomatic`). The edge count is at
/// most `u32::MAX`, so the bound in `requires` only matters where `usize`
/// has 32 bits.
pub fn compute_cyclomatic_complexity(cfg: &Cfg) -> (r: usize)
    requires
        cfg_edges(*cfg).len() < usize::MAX,
    ensures
        r == cyclomatic(cfg_blocks(*cfg).len(), cfg_edges(*cfg).len()),
        cfg_blocks(*cfg).len() == 0 ==> r == 0,
        cfg_blocks(*cfg).len() > 0 && cfg_edges(*cfg).len() >= cfg_blocks(*cfg).len()
            ==> r == cfg_edges(*cfg).len() - cfg_blocks(*cfg).len() + 2,
        cfg_blocks(*cfg).len() > 0 && cfg_edges(*cfg).len() < cfg_blocks(*cfg).len() ==> r == 1,
{
    let nodes = node_count(cfg);
    if nodes == 0 {
        return 0;
    }
    let edges = edge_count(cfg);
    if edges >= nodes {
        edges - nodes + 2
    } else {
        1
    }
}

/// Number of error paths among `paths`.
pub open spec fn error_count(paths: Seq<Path>) -> nat
    decreases paths.len(),
{
    if paths.len() == 0 {
        0
    } else {
        error_count(paths.drop_last()) + if paths.last().kind == PathKind::Error { 1nat } else { 0nat }
    }
}

/// Deepest nesting level among the first `k` loops (0 when there are none).
pub open spec fn max_nesting(loops: Seq<NaturalLoop>, k: nat) -> nat
    decreases k,
{
    if k == 0 {
        0
    } else {
        let prev = max_nesting(loops, (k - 1) as nat);
        let lv = nest_level(loops, loops[k - 1].header, loops.len(), loops.len());
        if lv > prev { lv } else { prev }
    }
}

/// The limits the factor analysis enumerates paths with (the defaults).
pub open spec fn default_limits() -> PathLimits {
    PathLimits { max_length: 1000, max_paths: 10000, loop_unroll_limit: 3, max_visits: 1_000_000 }
}

/// The search the factor analysis runs: successors as the graph lists them,
/// the CFG's exit nodes and loop headers, default length and unrolling.
pub open spec fn factor_search(cfg: Cfg) -> SearchSpec {
    let n = cfg_blocks(cfg).len();
    let es = cfg_edges(cfg);
    SearchSpec {
        succs: Seq::new(n, |u: int| neighbor_order(cfg, u as usize)),
        exit: Seq::new(n, |u: int| exit_nodes(cfg_blocks(cfg), es).contains(u as usize)),
        header: Seq::new(n, |u: int| is_header_of_some(back_edges(es), u as usize)),
        max_length: 1000,
        unroll: 3,
        dead_ends: false,
    }
}

/// The CFG has an exit node, so the path search is started.
pub open spec fn factor_runs(cfg: Cfg) -> bool {
    !exit_nodes(cfg_blocks(cfg), cfg_edges(cfg)).is_empty()
}

/// The estimate reported beside a truncated path count: none when the count
/// is exact, nor when the estimate saturated at `usize::MAX`.
pub open spec fn estimate_note(truncated: bool, est: int) -> Option<usize> {
    if !truncated || est == usize::MAX {
        None
    } else {
        Some(est as usize)
    }
}

/// The integer factors of a function's risk.
#[derive(Debug, Clone, Copy, PartialEq, Eq, Structural)]
pub struct CfgFactors {
    pub cyclomatic_complexity: usize,
    /// Enumerated paths (a lower bound when truncated)
    pub path_count: usize,
    /// Enumeration stopped early (path cap or work budget)
    pub path_count_truncated: bool,
    /// The work budget, not the path cap, stopped enumeration
    pub path_count_budget_exhausted: bool,
    /// Estimated true path count, present only when truncated
    pub path_count_estimated: Option<usize>,
    pub error_path_count: usize,
    pub block_count: usize,
    pub max_nesting_depth: usize,
    pub loop_count: usize,
    /// Blocks the entry does not reach
    pub unreachable_count: usize,
}

/// `f` reports the enumeration outcome `o`.
pub open spec fn reports_outcome(f: CfgFactors, o: PathEnumeration) -> bool {
    &&& f.path_count == o.paths@.len()
    &&& f.path_count_truncated == o.truncated
    &&& f.path_count_budget_exhausted == o.budget_exhausted
    &&& f.error_path_count == error_count(o.paths@)
}

/// `f` reports the nesting of the natural loops `loops`.
pub open spec fn reports_loops(f: CfgFactors, es: Seq<CfgEdge>, n: nat, loops: Seq<NaturalLoop>) -> bool {
    &&& loops.len() == back_edges(es).len()
    &&& forall|i: int| 0 <= i < loops.len() ==> is_loop_of(es, n, back_edges(es)[i], #[trigger] loops[i])
    &&& f.max_nesting_depth == max_nesting(loops, loops.len())
}

fn count_error_paths(paths: &Vec<Path>) -> (r: usize)
    ensures
        r == error_count(paths@),
{
    let mut count: usize = 0;
    let mut i: usize = 0;
    while i < paths.len()
        invariant
            i <= paths.len(),
            count == error_count(paths@.take(i as int)),
            count <= i,
        decreases paths.len() - i,
    {
        proof {
            assert(paths@.take(i + 1).drop_last() =~= paths@.take(i as int));
        }
        if paths[i].kind.is_error() {
            count = count + 1;
        }
        i = i + 1;
    }
    proof {
        assert(paths@.take(paths.len() as int) =~= paths@);
    }
    count
}

fn deepest_nesting(loops: &Vec<NaturalLoop>) -> (r: usize)
    ensures
        r == max_nesting(loops@, loops@.len()),
{
    let mut best: usize = 0;
    let mut i: usize = 0;
    while i < loops.len()
        invariant
            i <= loops.len(),
            best == max_nesting(loops@, i as nat),
        decreases loops.len() - i,
    {
        let lv = loops[i].nesting_level(loops.as_slice());
        if lv > best {
            best = lv;
        }
        i = i + 1;
    }
    best
}

/// `r` holds the integer risk factors of `cfg` (see `compute_cfg_factors`).
pub open spec fn is_cfg_factors(cfg: Cfg, r: CfgFactors) -> bool {
    &&& r.block_count == cfg_blocks(cfg).len()
    &&& r.cyclomatic_complexity == cyclomatic(cfg_blocks(cfg).len(), cfg_edges(cfg).len())
    &&& r.loop_count == back_edges(cfg_edges(cfg)).len()
    &&& r.unreachable_count == unreachable_upto(cfg_edges(cfg), cfg_blocks(cfg).len()).len()
    &&& r.path_count_estimated == estimate_note(r.path_count_truncated,
        path_estimate(cfg_edges(cfg), cfg_blocks(cfg).len(), 3))
    &&& exists|o: PathEnumeration| #![trigger is_search_outcome(o, factor_search(cfg), cfg_blocks(cfg).len(),
        cfg_blocks(cfg), reachable_ids(cfg_blocks(cfg), cfg_edges(cfg)), default_limits(), false, factor_runs(cfg))]
        is_search_outcome(o, factor_search(cfg), cfg_blocks(cfg).len(),
        cfg_blocks(cfg), reachable_ids(cfg_blocks(cfg), cfg_edges(cfg)), default_limits(), false, factor_runs(cfg))
        && reports_outcome(r, o)
    &&& exists|loops: Seq<NaturalLoop>| #[trigger] reports_loops(r, cfg_edges(cfg), cfg_blocks(cfg).len(), loops)
}

/// The integer risk factors of a CFG. Paths are enumerated with the default
/// limits; the outcome `o` behind the counts is the one `is_search_outcome`
/// fixes (the search's paths up to the cap, or those found before the step
/// budget ran out), the loops are the natural loops.
pub fn compute_cfg_factors(cfg: &Cfg) -> (r: CfgFactors)
    requires
        cfg_edges(*cfg).len() < usize::MAX,
    ensures
        is_cfg_factors(*cfg, r),
{
    let ghost es = cfg_edges(*cfg);
    let ghost bs = cfg_blocks(*cfg);
    let ctx = EnumerationContext::new(cfg);
    let limits = PathLimits::default();
    let outcome = enumerate_paths_with_context_outcome(cfg, &limits, &ctx);
    proof {
        assert(limits == default_limits());
        let n = bs.len();
        assert(ctx.loop_headers@ =~= Set::new(|h: usize| is_header_of_some(back_edges(es), h)));
        assert(context_search(*cfg, limits, ctx).exit =~= factor_search(*cfg).exit);
        assert(context_search(*cfg, limits, ctx).header =~= factor_search(*cfg).header);
        assert(context_search(*cfg, limits, ctx).succs =~= factor_search(*cfg).succs);
        assert(context_search(*cfg, limits, ctx) == factor_search(*cfg));
        assert(context_runs(ctx) == factor_runs(*cfg));
    }
    let path_count = outcome.paths.len();
    let truncated = outcome.truncated;
    let path_count_estimated = if truncated {
        let est = estimate_path_count(cfg, limits.loop_unroll_limit);
        if est == usize::MAX { None } else { Some(est) }
    } else {
        None
    };
    let error_path_count = count_error_paths(&outcome.paths);
    let cyclomatic_complexity = compute_cyclomatic_complexity(cfg);
    let natural_loops = detect_natural_loops(cfg);
    let loop_count = natural_loops.len();
    let max_nesting_depth = deepest_nesting(&natural_loops);
    let unreachable_count = find_unreachable(cfg).len();
    let r = CfgFactors {
        cyclomatic_complexity,
        path_count,
        path_count_truncated: truncated,
        path_count_budget_exhausted: outcome.budget_exhausted,
        path_count_estimated,
        error_path_count,
        block_count: node_count(cfg),
        max_nesting_depth,
        loop_count,
        unreachable_count,
    };
    proof {
        assert(reports_outcome(r, outcome));
        assert(reports_loops(r, es, bs.len(), natural_loops@));
    }
    r
}

proof fn lemma_error_count_same(a: Seq<Path>, b: Seq<Path>)
    requires
        same_path_lists(a, b),
    ensures
        error_count(a) == error_count(b),
    decreases a.len(),
{
    if a.len() > 0 {
        assert(same_path_lists(a.drop_last(), b.drop_last())) by {
            assert forall|i: int| 0 <= i < a.drop_last().len() implies {
                &&& (#[trigger] a.drop_last()[i]).blocks@ == b.drop_last()[i].blocks@
                &&& a.drop_last()[i].kind == b.drop_last()[i].kind
                &&& a.drop_last()[i].path_id@ == b.drop_last()[i].path_id@
                &&& a.drop_last()[i].entry == b.drop_last()[i].entry
                &&& a.drop_last()[i].exit == b.drop_last()[i].exit
            } by {
                assert(a.drop_last()[i] == a[i]);
                assert(b.drop_last()[i] == b[i]);
            }
        }
        lemma_error_count_same(a.drop_last(), b.drop_last());
        assert(a.last().kind == b.last().kind) by {
            assert(a[a.len() - 1].kind == b[a.len() - 1].kind);
        }
    }
}

/// Loop lists with the same headers and bodies, in order.
spec fn same_loops(a: Seq<NaturalLoop>, b: Seq<NaturalLoop>) -> bool {
    &&& a.len() == b.len()
    &&& forall|i: int| 0 <= i < a.len() ==> (#[trigger] a[i]).header == b[i].header && a[i].body@ == b[i].body@
}

proof fn lemma_nest_level_same(a: Seq<NaturalLoop>, b: Seq<NaturalLoop>, h: usize, fuel: nat, k: nat)
    requires
        same_loops(a, b),
    ensures
        nest_level(a, h, fuel, k) == nest_level(b, h, fuel, k),
    decreases fuel, k,
{
    if fuel > 0 && k > 0 && k <= a.len() {
        lemma_nest_level_same(a, b, h, fuel, (k - 1) as nat);
        lemma_nest_level_same(a, b, a[k - 1].header, (fuel - 1) as nat, a.len());
        assert(a[k - 1].header == b[k - 1].header && a[k - 1].body@ == b[k - 1].body@);
    }
}

proof fn lemma_max_nesting_same(a: Seq<NaturalLoop>, b: Seq<NaturalLoop>, k: nat)
    requires
        same_loops(a, b),
        k <= a.len(),
    ensures
        max_nesting(a, k) == max_nesting(b, k),
    decreases k,
{
    if k > 0 {
        lemma_max_nesting_same(a, b, (k - 1) as nat);
        assert(a[k - 1].header == b[k - 1].header);
        lemma_nest_level_same(a, b, a[k - 1].header, a.len(), a.len());
    }
}

/// The risk factors of a CFG are determined by it: two factor computations
/// on one CFG give the same factors, so reports built on them agree on the
/// path count, its truncation and its estimate.
pub proof fn cfg_factors_are_determined(cfg: Cfg, r1: CfgFactors, r2: CfgFactors)
    requires
        is_cfg_factors(cfg, r1),
        is_cfg_factors(cfg, r2),
    ensures
        r1 == r2,
{
    let g = factor_search(cfg);
    let n = cfg_blocks(cfg).len();
    let bs = cfg_blocks(cfg);
    let reach = reachable_ids(cfg_blocks(cfg), cfg_edges(cfg));
    let o1 = choose|o: PathEnumeration| #![trigger is_search_outcome(o, g, n, bs, reach, default_limits(), false, factor_runs(cfg))]
        is_search_outcome(o, g, n, bs, reach, default_limits(), false, factor_runs(cfg)) && reports_outcome(r1, o);
    let o2 = choose|o: PathEnumeration| #![trigger is_search_outcome(o, g, n, bs, reach, default_limits(), false, factor_runs(cfg))]
        is_search_outcome(o, g, n, bs, reach, default_limits(), false, factor_runs(cfg)) && reports_outcome(r2, o);
    search_outcome_is_unique(o1, o2, g, n, bs, reach, default_limits(), false, factor_runs(cfg));
    lemma_error_count_same(o1.paths@, o2.paths@);
    let es = cfg_edges(cfg);
    let l1 = choose|loops: Seq<NaturalLoop>| #[trigger] reports_loops(r1, es, n, loops);
    let l2 = choose|loops: Seq<NaturalLoop>| #[trigger] reports_loops(r2, es, n, loops);
    assert(same_loops(l1, l2)) by {
        assert forall|i: int| 0 <= i < l1.len() implies (#[trigger] l1[i]).header == l2[i].header && l1[i].body@ == l2[i].body@ by {
            assert(is_loop_of(es, n, back_edges(es)[i], l1[i]));
            assert(is_loop_of(es, n, back_edges(es)[i], l2[i]));
            assert(l1[i].body@ =~= l2[i].body@);
        }
    }
    lemma_max_nesting_same(l1, l2, l1.len());
}

} // verus!
