use mirage_analyzer::cfg::diff::{compute_block_changes, compute_edge_diff, BlockDiff};
use mirage_analyzer::cfg::dominance_frontiers::DominanceFrontiers;
use mirage_analyzer::cfg::dominators::DominatorTree;
use mirage_analyzer::cfg::edge::EdgeType;
use mirage_analyzer::cfg::loops::detect_natural_loops;
use mirage_analyzer::cfg::paths::enumeration::enumerate_paths;
use mirage_analyzer::cfg::paths::limits::{hash_path, PathLimits};
use mirage_analyzer::cfg::paths::metadata::{enumerate_paths_with_metadata, path_statistics};
use mirage_analyzer::cfg::paths::{Path, PathKind};
use mirage_analyzer::cfg::{BasicBlock, BlockKind, Cfg, Terminator};
use petgraph::graph::{DiGraph, NodeIndex};
use std::collections::HashMap;

fn block(id: usize, kind: BlockKind, terminator: Terminator) -> BasicBlock {
    BasicBlock {
        id,
        db_id: None,
        kind,
        statements: vec![],
        terminator,
        source_location: None,
        coord_x: 0,
        coord_y: 0,
        coord_z: 0,
    }
}

/// 0 -> 1 -> {2, 5}; 2 -> {3, 4}; 3 -> 1; 4 -> 1; 5 exit. Loop headed at 1.
fn loop_with_branch() -> Cfg {
    let mut g: Cfg = DiGraph::new();
    let n: Vec<NodeIndex> = (0..6)
        .map(|i| {
            let (kind, term) = match i {
                0 => (BlockKind::Entry, Terminator::Goto { target: 1 }),
                5 => (BlockKind::Exit, Terminator::Return),
                _ => (BlockKind::Normal, Terminator::Goto { target: 0 }),
            };
            g.add_node(block(i, kind, term))
        })
        .collect();
    g.add_edge(n[0], n[1], EdgeType::Fallthrough);
    g.add_edge(n[1], n[2], EdgeType::TrueBranch);
    g.add_edge(n[1], n[5], EdgeType::FalseBranch);
    g.add_edge(n[2], n[3], EdgeType::TrueBranch);
    g.add_edge(n[2], n[4], EdgeType::FalseBranch);
    g.add_edge(n[3], n[1], EdgeType::LoopBack);
    g.add_edge(n[4], n[1], EdgeType::LoopBack);
    g
}

#[test]
fn loop_headers_dominate_their_bodies() {
    let cfg = loop_with_branch();
    let tree = DominatorTree::new(&cfg).unwrap();
    let loops = detect_natural_loops(&cfg);
    assert_eq!(loops.len(), 2);
    for lp in &loops {
        assert_eq!(lp.header, 1);
        for &x in &lp.body {
            assert!(tree.dominates(lp.header, x));
        }
    }
}

#[test]
fn frontier_is_where_dominance_ends() {
    let cfg = loop_with_branch();
    let tree = DominatorTree::new(&cfg).unwrap();
    let frontiers = DominanceFrontiers::new(&cfg, tree.clone());
    // 3 dominates itself (a predecessor of 1) and does not strictly dominate 1
    assert!(frontiers.in_frontier(3, 1));
    // 2 dominates 3 and 4, predecessors of 1, but not 1
    assert!(frontiers.in_frontier(2, 1));
    // 0 strictly dominates every node
    assert!(frontiers.frontier(0).is_empty());
    for v in 0..6 {
        for x in 0..6 {
            let preds: Vec<usize> =
                cfg.neighbors_directed(NodeIndex::new(v), petgraph::Direction::Incoming).map(|p| p.index()).collect();
            let expected = preds.iter().any(|&p| tree.dominates(x, p)) && !(x != v && tree.dominates(x, v));
            assert_eq!(frontiers.in_frontier(x, v), expected, "x={} v={}", x, v);
        }
    }
}

#[test]
fn enumerated_paths_follow_edges_from_entry_to_exit() {
    let cfg = loop_with_branch();
    let limits = PathLimits::default().with_loop_unroll_limit(2);
    let paths = enumerate_paths(&cfg, &limits);
    assert!(!paths.is_empty());
    for p in &paths {
        assert_eq!(p.blocks[0], 0);
        assert!(p.blocks.len() <= limits.max_length);
        for w in p.blocks.windows(2) {
            assert!(cfg.find_edge(NodeIndex::new(w[0]), NodeIndex::new(w[1])).is_some());
        }
        assert_eq!(*p.blocks.last().unwrap(), 5);
    }
    let iterative = mirage_analyzer::cfg::paths::iterative::enumerate_paths_iterative(&cfg, &limits);
    assert!(!iterative.is_empty());
    for p in &iterative {
        assert_eq!(p.blocks[0], 0);
        for w in p.blocks.windows(2) {
            assert!(cfg.find_edge(NodeIndex::new(w[0]), NodeIndex::new(w[1])).is_some());
        }
        assert_eq!(*p.blocks.last().unwrap(), 5);
    }
}

#[test]
fn path_hash_separates_lengths_and_orders() {
    assert_ne!(hash_path(&[1, 2, 3]), hash_path(&[1, 2, 3, 0]));
    assert_ne!(hash_path(&[0]), hash_path(&[]));
    assert_ne!(hash_path(&[0, 1]), hash_path(&[1, 0]));
    assert_eq!(hash_path(&[4, 5]), hash_path(&[4, 5]));
    assert_eq!(hash_path(&[4, 5]).len(), 64);
}

#[test]
fn comparing_a_version_with_itself_finds_nothing() {
    let blocks = vec![
        BlockDiff { block_id: 0, kind: "entry".into(), terminator: "conditional".into(), source_location: "a".into() },
        BlockDiff { block_id: 1, kind: "normal".into(), terminator: "goto".into(), source_location: "b".into() },
        BlockDiff { block_id: 2, kind: "exit".into(), terminator: "return".into(), source_location: "c".into() },
    ];
    let changes = compute_block_changes(&blocks, &blocks);
    assert!(changes.added_blocks.is_empty());
    assert!(changes.deleted_blocks.is_empty());
    assert!(changes.modified_blocks.is_empty());
    let map: HashMap<i64, BlockDiff> = blocks.iter().map(|b| (b.block_id, b.clone())).collect();
    let (added, deleted) = compute_edge_diff(&map, &map).unwrap();
    assert!(added.is_empty());
    assert!(deleted.is_empty());
}

#[test]
fn path_kind_counts_add_up_to_total() {
    let paths = vec![
        Path::new(vec![0, 1], PathKind::Normal),
        Path::new(vec![0, 2], PathKind::Error),
        Path::new(vec![0, 3], PathKind::Degenerate),
        Path::new(vec![0, 4, 5], PathKind::Unreachable),
        Path::new(vec![0, 1, 6], PathKind::Normal),
    ];
    let s = path_statistics(&paths, 0);
    assert_eq!(s.total_paths, 5);
    assert_eq!(s.normal_paths + s.error_paths + s.degenerate_paths + s.unreachable_paths, 5);
    assert_eq!(s.normal_paths, 2);
    assert_eq!(s.max_path_length, 3);
    assert_eq!(s.total_length, 12);
    let r = enumerate_paths_with_metadata(&loop_with_branch(), &PathLimits::default());
    assert_eq!(
        r.stats.normal_paths + r.stats.error_paths + r.stats.degenerate_paths + r.stats.unreachable_paths,
        r.stats.total_paths
    );
    assert_eq!(r.stats.total_paths, r.paths.len());
}

#[test]
fn context_enumeration_does_not_record_dead_ends() {
    // 0 -> 1 (return), 0 -> 2 (no successor, not an exit)
    let mut g: Cfg = DiGraph::new();
    let b0 = g.add_node(block(0, BlockKind::Entry, Terminator::SwitchInt { targets: vec![1], otherwise: 2 }));
    let b1 = g.add_node(block(1, BlockKind::Exit, Terminator::Return));
    let b2 = g.add_node(block(2, BlockKind::Normal, Terminator::Goto { target: 0 }));
    g.add_edge(b0, b1, EdgeType::TrueBranch);
    g.add_edge(b0, b2, EdgeType::FalseBranch);
    let limits = PathLimits::default();
    let basic: Vec<Vec<usize>> = enumerate_paths(&g, &limits).into_iter().map(|p| p.blocks).collect();
    let ctx = mirage_analyzer::cfg::paths::limits::EnumerationContext::new(&g);
    let with_ctx: Vec<Vec<usize>> =
        mirage_analyzer::cfg::paths::enumeration::enumerate_paths_with_context(&g, &limits, &ctx)
            .into_iter()
            .map(|p| p.blocks)
            .collect();
    assert_eq!(basic, vec![vec![0, 1], vec![0, 2]]);
    assert_eq!(with_ctx, vec![vec![0, 1]]);
}

#[test]
fn precomputed_classification_also_checks_the_path_shape() {
    // 0 -> 1 -> 2: the path [1, 2] does not start at the entry
    let mut g: Cfg = DiGraph::new();
    let b0 = g.add_node(block(0, BlockKind::Entry, Terminator::Goto { target: 1 }));
    let b1 = g.add_node(block(1, BlockKind::Normal, Terminator::Goto { target: 2 }));
    let b2 = g.add_node(block(2, BlockKind::Exit, Terminator::Return));
    g.add_edge(b0, b1, EdgeType::Fallthrough);
    g.add_edge(b1, b2, EdgeType::Fallthrough);
    let reach: std::collections::HashSet<usize> = [0usize, 1, 2].iter().copied().collect();
    assert_eq!(mirage_analyzer::cfg::paths::feasibility::classify_path(&g, &[1, 2]), PathKind::Normal);
    assert_eq!(
        mirage_analyzer::cfg::paths::feasibility::classify_path_precomputed(&g, &[1, 2], &reach),
        PathKind::Degenerate
    );
}

#[test]
fn iterative_enumeration_does_not_record_dead_ends() {
    // 0 -> 1 (return), 0 -> 2 (no successor, not an exit)
    let mut g: Cfg = DiGraph::new();
    let b0 = g.add_node(block(0, BlockKind::Entry, Terminator::SwitchInt { targets: vec![1], otherwise: 2 }));
    let b1 = g.add_node(block(1, BlockKind::Exit, Terminator::Return));
    let b2 = g.add_node(block(2, BlockKind::Normal, Terminator::Goto { target: 0 }));
    g.add_edge(b0, b1, EdgeType::TrueBranch);
    g.add_edge(b0, b2, EdgeType::FalseBranch);
    let limits = PathLimits::default();
    let iterative: Vec<Vec<usize>> =
        mirage_analyzer::cfg::paths::iterative::enumerate_paths_iterative(&g, &limits).into_iter().map(|p| p.blocks).collect();
    assert_eq!(iterative, vec![vec![0, 1]]);
}
