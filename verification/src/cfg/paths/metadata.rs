//! Path enumeration with summary statistics.

use vstd::prelude::*;
use crate::cfg::graph::{Cfg, cfg_blocks, cfg_edges};
use crate::cfg::loops::{find_loop_headers, is_header_of_some, back_edges};
use crate::cfg::paths::{Path, PathKind};
use crate::cfg::paths::limits::PathLimits;
use crate::cfg::paths::iterative::{enumerate_paths_iterative, iterative_paths, is_iterative_result};
use crate::cfg::paths::search::{path_for, same_path_lists, lemma_path_for_lists};
use crate::cfg::paths::limits::reachable_ids;

verus! {

broadcast use vstd::std_specs::hash::group_hash_axioms;

/// Which limit, if any, the enumeration ran into.
#[derive(Debug, Clone, Copy, PartialEq, Eq, Structural)]
pub enum LimitsHit {
    /// No limits were hit
    NotHit,
    /// The maximum path length was reached
    MaxLength,
    /// The maximum path count was reached
    MaxPaths,
    /// The loop unroll limit was reached
    LoopUnroll,
    /// Several limits were reached
    Multiple,
}

/// Statistics over enumerated paths. The average path length is
/// `total_length / total_paths` (when there are paths).
#[derive(Debug, Clone, Copy, PartialEq, Eq, Structural)]
pub struct EnumerationStats {
    pub total_paths: usize,
    pub normal_paths: usize,
    pub error_paths: usize,
    pub degenerate_paths: usize,
    pub unreachable_paths: usize,
    /// Sum of the path lengths (saturating at `usize::MAX`)
    pub total_length: usize,
    pub max_path_length: usize,
    /// Number of loop headers in the CFG
    pub loop_count: usize,
}

/// Paths with the limit hit and their statistics.
#[derive(Debug, Clone)]
pub struct PathEnumerationResult {
    pub paths: Vec<Path>,
    pub limits_hit: LimitsHit,
    pub stats: EnumerationStats,
}

/// Number of paths of kind `k` among the first `i`.
pub open spec fn kind_count(ps: Seq<Path>, k: PathKind, i: nat) -> nat
    decreases i,
{
    if i == 0 { 0 } else { kind_count(ps, k, (i - 1) as nat) + if ps[i - 1].kind == k { 1nat } else { 0nat } }
}

/// Sum of the lengths of the first `i` paths.
pub open spec fn length_sum(ps: Seq<Path>, i: nat) -> nat
    decreases i,
{
    if i == 0 { 0 } else { length_sum(ps, (i - 1) as nat) + ps[i - 1].blocks@.len() }
}

/// Longest of the first `i` paths (0 when none).
pub open spec fn length_max(ps: Seq<Path>, i: nat) -> nat
    decreases i,
{
    if i == 0 {
        0
    } else {
        let m = length_max(ps, (i - 1) as nat);
        if ps[i - 1].blocks@.len() > m { ps[i - 1].blocks@.len() } else { m }
    }
}

/// The statistics of a list of paths, with `loops` loop headers.
pub open spec fn stats_of(ps: Seq<Path>, loops: nat) -> EnumerationStats {
    if ps.len() == 0 {
        EnumerationStats {
            total_paths: 0, normal_paths: 0, error_paths: 0, degenerate_paths: 0, unreachable_paths: 0,
            total_length: 0, max_path_length: 0, loop_count: 0,
        }
    } else {
        EnumerationStats {
            total_paths: ps.len() as usize,
            normal_paths: kind_count(ps, PathKind::Normal, ps.len()) as usize,
            error_paths: kind_count(ps, PathKind::Error, ps.len()) as usize,
            degenerate_paths: kind_count(ps, PathKind::Degenerate, ps.len()) as usize,
            unreachable_paths: kind_count(ps, PathKind::Unreachable, ps.len()) as usize,
            total_length: (if length_sum(ps, ps.len()) > usize::MAX { usize::MAX as nat } else { length_sum(ps, ps.len()) }) as usize,
            max_path_length: length_max(ps, ps.len()) as usize,
            loop_count: loops as usize,
        }
    }
}

/// The limit reported for a list of paths: the path cap when as many paths
/// as allowed were found, else the length limit when the longest path
/// reaches it, else none.
pub open spec fn limit_reported(ps: Seq<Path>, limits: PathLimits) -> LimitsHit {
    if ps.len() == 0 {
        LimitsHit::NotHit
    } else if ps.len() >= limits.max_paths {
        LimitsHit::MaxPaths
    } else if length_max(ps, ps.len()) >= limits.max_length {
        LimitsHit::MaxLength
    } else {
        LimitsHit::NotHit
    }
}

proof fn lemma_counts_bounded(ps: Seq<Path>, k: PathKind, i: nat)
    requires
        i <= ps.len(),
    ensures
        kind_count(ps, k, i) <= i,
    decreases i,
{
    if i > 0 {
        lemma_counts_bounded(ps, k, (i - 1) as nat);
    }
}

/// Count the paths by kind, sum and maximize their lengths.
pub fn path_statistics(paths: &Vec<Path>, loop_count: usize) -> (s: EnumerationStats)
    ensures
        s == stats_of(paths@, loop_count as nat),
        paths@.len() > 0 ==> s.max_path_length as nat == length_max(paths@, paths@.len()),
{
    if paths.len() == 0 {
        return EnumerationStats {
            total_paths: 0, normal_paths: 0, error_paths: 0, degenerate_paths: 0, unreachable_paths: 0,
            total_length: 0, max_path_length: 0, loop_count: 0,
        };
    }
    let mut normal: usize = 0;
    let mut error: usize = 0;
    let mut degenerate: usize = 0;
    let mut unreachable: usize = 0;
    let mut total: usize = 0;
    let mut longest: usize = 0;
    let mut i: usize = 0;
    while i < paths.len()
        invariant
            i <= paths@.len(),
            normal == kind_count(paths@, PathKind::Normal, i as nat),
            error == kind_count(paths@, PathKind::Error, i as nat),
            degenerate == kind_count(paths@, PathKind::Degenerate, i as nat),
            unreachable == kind_count(paths@, PathKind::Unreachable, i as nat),
            total == (if length_sum(paths@, i as nat) > usize::MAX { usize::MAX as nat } else { length_sum(paths@, i as nat) }),
            longest == length_max(paths@, i as nat),
        decreases paths@.len() - i,
    {
        proof {
            lemma_counts_bounded(paths@, PathKind::Normal, i as nat);
            lemma_counts_bounded(paths@, PathKind::Error, i as nat);
            lemma_counts_bounded(paths@, PathKind::Degenerate, i as nat);
            lemma_counts_bounded(paths@, PathKind::Unreachable, i as nat);
        }
        let p = &paths[i];
        match p.kind {
            PathKind::Normal => normal = normal + 1,
            PathKind::Error => error = error + 1,
            PathKind::Degenerate => degenerate = degenerate + 1,
            PathKind::Unreachable => unreachable = unreachable + 1,
        }
        let len = p.len();
        total = total.saturating_add(len);
        if len > longest {
            longest = len;
        }
        i = i + 1;
    }
    EnumerationStats {
        total_paths: paths.len(),
        normal_paths: normal,
        error_paths: error,
        degenerate_paths: degenerate,
        unreachable_paths: unreachable,
        total_length: total,
        max_path_length: longest,
        loop_count,
    }
}

/// Enumerate paths (the explicit-stack enumeration, see `iterative_paths`)
/// and summarize them: counts by kind, total and longest length, the
/// number of loop headers, and which limit was hit.
pub fn enumerate_paths_with_metadata(cfg: &Cfg, limits: &PathLimits) -> (r: PathEnumerationResult)
    ensures
        is_iterative_result(*cfg, *limits, r.paths@),
        r.stats == stats_of(r.paths@, Set::new(|h: usize| is_header_of_some(back_edges(cfg_edges(*cfg)), h)).len()),
        r.limits_hit == limit_reported(r.paths@, *limits),
{
    let paths = enumerate_paths_iterative(cfg, limits);
    if paths.len() == 0 {
        let stats = path_statistics(&paths, 0);
        return PathEnumerationResult { paths, limits_hit: LimitsHit::NotHit, stats };
    }
    let headers = find_loop_headers(cfg);
    let loop_count = headers.len();
    proof {
        assert(headers@ =~= Set::new(|h: usize| is_header_of_some(back_edges(cfg_edges(*cfg)), h)));
    }
    let stats = path_statistics(&paths, loop_count);
    let limits_hit = if paths.len() >= limits.max_paths {
        LimitsHit::MaxPaths
    } else if stats.max_path_length >= limits.max_length {
        LimitsHit::MaxLength
    } else {
        LimitsHit::NotHit
    };
    PathEnumerationResult { paths, limits_hit, stats }
}

proof fn lemma_kind_counts_add_up(ps: Seq<Path>, i: nat)
    requires
        i <= ps.len(),
    ensures
        kind_count(ps, PathKind::Normal, i) + kind_count(ps, PathKind::Error, i)
            + kind_count(ps, PathKind::Degenerate, i) + kind_count(ps, PathKind::Unreachable, i) == i,
    decreases i,
{
    if i > 0 {
        lemma_kind_counts_add_up(ps, (i - 1) as nat);
    }
}

/// Every path has exactly one kind: in the statistics of any list of paths
/// the four kind counts add up to the number of paths.
pub proof fn path_kind_counts_add_up(ps: Seq<Path>, loops: nat)
    requires
        ps.len() <= usize::MAX,
    ensures
        stats_of(ps, loops).normal_paths + stats_of(ps, loops).error_paths + stats_of(ps, loops).degenerate_paths
            + stats_of(ps, loops).unreachable_paths == stats_of(ps, loops).total_paths,
{
    if ps.len() > 0 {
        lemma_kind_counts_add_up(ps, ps.len());
        lemma_counts_bounded(ps, PathKind::Normal, ps.len());
        lemma_counts_bounded(ps, PathKind::Error, ps.len());
        lemma_counts_bounded(ps, PathKind::Degenerate, ps.len());
        lemma_counts_bounded(ps, PathKind::Unreachable, ps.len());
    }
}

/// The paths of `enumerate_paths_with_metadata` are those of
/// `enumerate_paths_iterative` for the same CFG and limits, and its kind
/// counts add up to the number of paths.
pub proof fn metadata_matches_iterative(cfg: Cfg, limits: PathLimits, r: PathEnumerationResult, ps: Seq<Path>, loops: nat)
    requires
        is_iterative_result(cfg, limits, r.paths@),
        is_iterative_result(cfg, limits, ps),
        r.stats == stats_of(r.paths@, loops),
    ensures
        same_path_lists(r.paths@, ps),
        r.stats.normal_paths + r.stats.error_paths + r.stats.degenerate_paths + r.stats.unreachable_paths
            == r.stats.total_paths,
        r.stats.total_paths == r.paths@.len(),
{
    lemma_path_for_lists(r.paths@, ps, cfg_blocks(cfg), reachable_ids(cfg_blocks(cfg), cfg_edges(cfg)),
        iterative_paths(cfg, limits));
    assert(r.paths@.len() <= usize::MAX) by {
        assert(r.paths@.len() == r.paths.len());
    }
    path_kind_counts_add_up(r.paths@, loops);
}

} // verus!
