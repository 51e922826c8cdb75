use mirage_analyzer::analysis::risk::{compute_cfg_factors, compute_cyclomatic_complexity};
use mirage_analyzer::cfg::edge::EdgeType;
use mirage_analyzer::cfg::paths::enumeration::enumerate_paths_outcome;
use mirage_analyzer::cfg::paths::limits::PathLimits;
use mirage_analyzer::cfg::paths::incremental::{enumerate_paths_incremental, enumerate_single_function, read_function_request, FunctionSelector};
use mirage_analyzer::cfg::{BasicBlock, BlockKind, Cfg, Terminator};
use petgraph::graph::DiGraph;
use std::time::{Duration, Instant};

fn block(id: usize, kind: BlockKind, terminator: Terminator) -> BasicBlock {
    BasicBlock {
        id,
        db_id: None,
        kind,
        statements: vec![],
        terminator,
        source_location: None,
        coord_x: 0,
        coord_y: 0,
        coord_z: 0,
    }
}

/// A chain of `diamonds` branch diamonds: 2^diamonds execution paths.
fn bomb_cfg(diamonds: usize) -> Cfg {
    let mut g = DiGraph::new();
    let mut next_id: usize = 0;
    let mut fresh = || {
        let id = next_id;
        next_id += 1;
        id
    };
    let entry_id = fresh();
    let exit_id = fresh();
    let splits: Vec<usize> = (0..diamonds).map(|_| fresh()).collect();
    let arms_a: Vec<usize> = (0..diamonds).map(|_| fresh()).collect();
    let arms_b: Vec<usize> = (0..diamonds).map(|_| fresh()).collect();
    let merges: Vec<usize> = (0..diamonds).map(|_| fresh()).collect();
    let entry = g.add_node(block(entry_id, BlockKind::Entry, Terminator::Goto { target: splits[0] }));
    let exit = g.add_node(block(exit_id, BlockKind::Exit, Terminator::Return));
    let mut split_idxs = Vec::new();
    let mut a_idxs = Vec::new();
    let mut b_idxs = Vec::new();
    let mut merge_idxs = Vec::new();
    for i in 0..diamonds {
        let s = g.add_node(block(
            splits[i],
            BlockKind::Normal,
            Terminator::SwitchInt { targets: vec![arms_a[i]], otherwise: arms_b[i] },
        ));
        let a = g.add_node(block(arms_a[i], BlockKind::Normal, Terminator::Goto { target: merges[i] }));
        let b = g.add_node(block(arms_b[i], BlockKind::Normal, Terminator::Goto { target: merges[i] }));
        let merge_target = if i + 1 < diamonds { splits[i + 1] } else { exit_id };
        let m = g.add_node(block(merges[i], BlockKind::Normal, Terminator::Goto { target: merge_target }));
        split_idxs.push(s);
        a_idxs.push(a);
        b_idxs.push(b);
        merge_idxs.push(m);
    }
    g.add_edge(entry, split_idxs[0], EdgeType::Fallthrough);
    for i in 0..diamonds {
        g.add_edge(split_idxs[i], a_idxs[i], EdgeType::TrueBranch);
        g.add_edge(split_idxs[i], b_idxs[i], EdgeType::FalseBranch);
        g.add_edge(a_idxs[i], merge_idxs[i], EdgeType::Fallthrough);
        g.add_edge(b_idxs[i], merge_idxs[i], EdgeType::Fallthrough);
        let next = if i + 1 < diamonds { split_idxs[i + 1] } else { exit };
        g.add_edge(merge_idxs[i], next, EdgeType::Fallthrough);
    }
    g
}

#[test]
fn test_bomb_cfg_path_count_small() {
    let cfg = bomb_cfg(3);
    let factors = compute_cfg_factors(&cfg);
    assert_eq!(factors.path_count, 8);
    assert!(!factors.path_count_truncated);
    assert!(factors.path_count_estimated.is_none());
}

#[test]
fn test_risk_bomb_cfg_bounded_with_truncation() {
    let cfg = bomb_cfg(40);
    let start = Instant::now();
    let factors = compute_cfg_factors(&cfg);
    let elapsed = start.elapsed();
    assert!(elapsed < Duration::from_secs(60), "risk on bomb CFG took {:?}; bounded enumeration regressed", elapsed);
    assert!(factors.path_count_truncated, "2^40-path CFG must report path_count_truncated");
    assert_eq!(factors.path_count, PathLimits::default().max_paths, "truncated report must pin path_count at the cap");
    assert_eq!(
        factors.path_count_estimated,
        Some(1_099_511_627_776),
        "truncated report must carry an honest estimate above the cap"
    );
}

#[test]
fn test_suggest_bomb_cfg_bounded_with_truncation() {
    let cfg = bomb_cfg(40);
    let start = Instant::now();
    let factors = compute_cfg_factors(&cfg);
    let elapsed = start.elapsed();
    assert!(elapsed < Duration::from_secs(60), "suggest on bomb CFG took {:?}; bounded enumeration regressed", elapsed);
    assert!(factors.path_count_truncated);
    assert!(factors.path_count_estimated.is_some());
}

#[test]
fn test_work_budget_bounds_enumeration() {
    let cfg = bomb_cfg(40);
    let limits = PathLimits::default().with_max_visits(1_000);
    let start = Instant::now();
    let outcome = enumerate_paths_outcome(&cfg, &limits);
    let elapsed = start.elapsed();
    assert!(elapsed < Duration::from_secs(60), "budgeted enumeration took {:?}", elapsed);
    assert!(outcome.truncated, "budget exhaustion must mark truncated");
    assert!(outcome.budget_exhausted, "truncation must be attributed to the work budget, not the path cap");
    assert!(outcome.paths.len() < limits.max_paths, "budget stopped enumeration before the path cap");
}

#[test]
fn test_cyclomatic_empty() {
    let empty: Cfg = DiGraph::new();
    assert_eq!(compute_cyclomatic_complexity(&empty), 0);
}

#[test]
fn cyclomatic_of_diamond_chain() {
    // 3 diamonds: nodes 2 + 12 = 14, edges 1 + 15 = 16, so 16 - 14 + 2 = 4
    let cfg = bomb_cfg(3);
    assert_eq!(compute_cyclomatic_complexity(&cfg), 4);
    let factors = compute_cfg_factors(&cfg);
    assert_eq!(factors.cyclomatic_complexity, 4);
    assert_eq!(factors.block_count, 14);
    assert_eq!(factors.loop_count, 0);
    assert_eq!(factors.max_nesting_depth, 0);
    assert_eq!(factors.error_path_count, 0);
}

#[test]
fn cyclomatic_of_edgeless_graph_is_one() {
    let mut g: Cfg = DiGraph::new();
    g.add_node(block(0, BlockKind::Entry, Terminator::Return));
    g.add_node(block(1, BlockKind::Exit, Terminator::Return));
    assert_eq!(compute_cyclomatic_complexity(&g), 1);
}

/// 0 -> {1, 2} -> 3, block 3 returns.
fn small_diamond() -> Cfg {
    let mut g: Cfg = DiGraph::new();
    let b0 = g.add_node(block(0, BlockKind::Entry, Terminator::SwitchInt { targets: vec![1], otherwise: 2 }));
    let b1 = g.add_node(block(1, BlockKind::Normal, Terminator::Goto { target: 3 }));
    let b2 = g.add_node(block(2, BlockKind::Normal, Terminator::Goto { target: 3 }));
    let b3 = g.add_node(block(3, BlockKind::Exit, Terminator::Return));
    g.add_edge(b0, b1, EdgeType::TrueBranch);
    g.add_edge(b0, b2, EdgeType::FalseBranch);
    g.add_edge(b1, b3, EdgeType::Fallthrough);
    g.add_edge(b2, b3, EdgeType::Fallthrough);
    g
}

#[test]
fn visit_budget_counts_each_step() {
    // The full search steps into 0, 1, 3, 2, 3: five steps, two paths.
    let cfg = small_diamond();
    let enough = enumerate_paths_outcome(&cfg, &PathLimits::default().with_max_visits(5));
    assert_eq!(enough.paths.len(), 2);
    assert!(!enough.truncated);
    assert!(!enough.budget_exhausted);
    let short = enumerate_paths_outcome(&cfg, &PathLimits::default().with_max_visits(4));
    assert_eq!(short.paths.len(), 1);
    assert!(short.truncated);
    assert!(short.budget_exhausted);
}

#[test]
fn empty_cfg_outcome_is_not_truncated() {
    let cfg: Cfg = DiGraph::new();
    let o = enumerate_paths_outcome(&cfg, &PathLimits::default().with_max_visits(0));
    assert!(o.paths.is_empty());
    assert!(!o.truncated);
    assert!(!o.budget_exhausted);
}

#[test]
fn incremental_counts_skipped_functions() {
    let cfgs = vec![Some(small_diamond()), None];
    let r = enumerate_paths_incremental(&cfgs, None, 5);
    assert_eq!(r.analyzed_functions, 1);
    assert_eq!(r.skipped_functions, 3);
    assert_eq!(r.paths.len(), 2);
    let none = enumerate_paths_incremental(&vec![], Some(10), 0);
    assert_eq!(none.analyzed_functions, 0);
    assert_eq!(none.skipped_functions, 0);
    assert!(none.paths.is_empty());
}

#[test]
fn incremental_request_reading() {
    assert_eq!(read_function_request("all"), Ok(FunctionSelector::All));
    assert_eq!(read_function_request("42"), Ok(FunctionSelector::Single(42)));
    assert_eq!(read_function_request("abc"), Err("Invalid function ID: abc".to_string()));
    let r = enumerate_single_function(&small_diamond(), None);
    assert_eq!(r.analyzed_functions, 1);
    assert_eq!(r.skipped_functions, 0);
    assert_eq!(r.paths.len(), 2);
}
