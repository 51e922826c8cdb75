#![allow(unused_imports)]
use mirage_analyzer::cfg::edge::EdgeType;
use mirage_analyzer::cfg::loops::find_loop_headers;
use mirage_analyzer::cfg::paths::cached::{check_path_explosion, estimate_path_count};
use mirage_analyzer::cfg::paths::enumeration::{
    enumerate_paths, enumerate_paths_outcome, enumerate_paths_with_context, enumerate_paths_with_context_outcome,
};
use mirage_analyzer::cfg::paths::feasibility::{
    classify_path, classify_path_precomputed, is_feasible_path, is_feasible_path_precomputed,
};
use mirage_analyzer::cfg::paths::iterative::enumerate_paths_iterative;
use mirage_analyzer::cfg::paths::limits::{hash_path, EnumerationContext, PathLimits};
use mirage_analyzer::cfg::paths::metadata::{enumerate_paths_with_metadata, LimitsHit};
use mirage_analyzer::cfg::paths::{find_node_by_block_id, Path, PathKind};
use mirage_analyzer::cfg::reachability::find_reachable;
use mirage_analyzer::cfg::{BasicBlock, BlockId, BlockKind, Cfg, Terminator};
use petgraph::graph::{DiGraph, NodeIndex};
use std::collections::HashSet;
use std::time::{Duration, Instant};


#[allow(dead_code)]
fn create_linear_cfg() -> Cfg {
    let mut g = Cfg::new();

    let b0 = g.add_node(BasicBlock {
        id: 0,
        db_id: None,
        kind: BlockKind::Entry,
        statements: vec![],
        terminator: Terminator::Goto { target: 1 },
        source_location: None,
        coord_x: 0,
        coord_y: 0,
        coord_z: 0,
    });

    let b1 = g.add_node(BasicBlock {
        id: 1,
        db_id: None,
        kind: BlockKind::Normal,
        statements: vec![],
        terminator: Terminator::Goto { target: 2 },
        source_location: None,
        coord_x: 0,
        coord_y: 0,
        coord_z: 0,
    });

    let b2 = g.add_node(BasicBlock {
        id: 2,
        db_id: None,
        kind: BlockKind::Exit,
        statements: vec![],
        terminator: Terminator::Return,
        source_location: None,
        coord_x: 0,
        coord_y: 0,
        coord_z: 0,
    });

    g.add_edge(b0, b1, EdgeType::Fallthrough);
    g.add_edge(b1, b2, EdgeType::Fallthrough);

    g
}

#[allow(dead_code)]
fn create_diamond_cfg() -> Cfg {
    let mut g = Cfg::new();

    let b0 = g.add_node(BasicBlock {
        id: 0,
        db_id: None,
        kind: BlockKind::Entry,
        statements: vec![],
        terminator: Terminator::SwitchInt {
            targets: vec![1],
            otherwise: 2,
        },
        source_location: None,
        coord_x: 0,
        coord_y: 0,
        coord_z: 0,
    });

    let b1 = g.add_node(BasicBlock {
        id: 1,
        db_id: None,
        kind: BlockKind::Normal,
        statements: vec![],
        terminator: Terminator::Goto { target: 3 },
        source_location: None,
        coord_x: 0,
        coord_y: 0,
        coord_z: 0,
    });

    let b2 = g.add_node(BasicBlock {
        id: 2,
        db_id: None,
        kind: BlockKind::Normal,
        statements: vec![],
        terminator: Terminator::Goto { target: 3 },
        source_location: None,
        coord_x: 0,
        coord_y: 0,
        coord_z: 0,
    });

    let b3 = g.add_node(BasicBlock {
        id: 3,
        db_id: None,
        kind: BlockKind::Exit,
        statements: vec![],
        terminator: Terminator::Return,
        source_location: None,
        coord_x: 0,
        coord_y: 0,
        coord_z: 0,
    });

    g.add_edge(b0, b1, EdgeType::TrueBranch);
    g.add_edge(b0, b2, EdgeType::FalseBranch);
    g.add_edge(b1, b3, EdgeType::Fallthrough);
    g.add_edge(b2, b3, EdgeType::Fallthrough);

    g
}

#[allow(dead_code)]
fn create_loop_cfg() -> Cfg {
    let mut g = Cfg::new();

    let b0 = g.add_node(BasicBlock {
        id: 0,
        db_id: None,
        kind: BlockKind::Entry,
        statements: vec![],
        terminator: Terminator::Goto { target: 1 },
        source_location: None,
        coord_x: 0,
        coord_y: 0,
        coord_z: 0,
    });

    let b1 = g.add_node(BasicBlock {
        id: 1,
        db_id: None,
        kind: BlockKind::Normal,
        statements: vec![],
        terminator: Terminator::SwitchInt {
            targets: vec![2],
            otherwise: 3,
        },
        source_location: None,
        coord_x: 0,
        coord_y: 0,
        coord_z: 0,
    });

    let b2 = g.add_node(BasicBlock {
        id: 2,
        db_id: None,
        kind: BlockKind::Normal,
        statements: vec![],
        terminator: Terminator::Goto { target: 1 },
        source_location: None,
        coord_x: 0,
        coord_y: 0,
        coord_z: 0,
    });

    let b3 = g.add_node(BasicBlock {
        id: 3,
        db_id: None,
        kind: BlockKind::Exit,
        statements: vec![],
        terminator: Terminator::Return,
        source_location: None,
        coord_x: 0,
        coord_y: 0,
        coord_z: 0,
    });

    g.add_edge(b0, b1, EdgeType::Fallthrough);
    g.add_edge(b1, b2, EdgeType::TrueBranch);
    g.add_edge(b1, b3, EdgeType::FalseBranch);
    g.add_edge(b2, b1, EdgeType::LoopBack);

    g
}

#[allow(dead_code)]
fn create_error_cfg() -> Cfg {
    let mut g = Cfg::new();

    let b0 = g.add_node(BasicBlock {
        id: 0,
        db_id: None,
        kind: BlockKind::Entry,
        statements: vec![],
        terminator: Terminator::Goto { target: 1 },
        source_location: None,
        coord_x: 0,
        coord_y: 0,
        coord_z: 0,
    });

    let b1 = g.add_node(BasicBlock {
        id: 1,
        db_id: None,
        kind: BlockKind::Exit,
        statements: vec![],
        terminator: Terminator::Abort("panic!".to_string()),
        source_location: None,
        coord_x: 0,
        coord_y: 0,
        coord_z: 0,
    });

    g.add_edge(b0, b1, EdgeType::Fallthrough);

    g
}

#[allow(dead_code)]
fn create_unreachable_term_cfg() -> Cfg {
    let mut g = Cfg::new();

    let b0 = g.add_node(BasicBlock {
        id: 0,
        db_id: None,
        kind: BlockKind::Entry,
        statements: vec![],
        terminator: Terminator::Goto { target: 1 },
        source_location: None,
        coord_x: 0,
        coord_y: 0,
        coord_z: 0,
    });

    let b1 = g.add_node(BasicBlock {
        id: 1,
        db_id: None,
        kind: BlockKind::Exit,
        statements: vec![],
        terminator: Terminator::Unreachable,
        source_location: None,
        coord_x: 0,
        coord_y: 0,
        coord_z: 0,
    });

    g.add_edge(b0, b1, EdgeType::Fallthrough);

    g
}

#[allow(dead_code)]
fn create_dead_code_cfg() -> Cfg {
    let mut g = Cfg::new();

    let _b0 = g.add_node(BasicBlock {
        id: 0,
        db_id: None,
        kind: BlockKind::Entry,
        statements: vec![],
        terminator: Terminator::Return,
        source_location: None,
        coord_x: 0,
        coord_y: 0,
        coord_z: 0,
    });

    let _b1 = g.add_node(BasicBlock {
        id: 1,
        db_id: None,
        kind: BlockKind::Exit,
        statements: vec![],
        terminator: Terminator::Return,
        source_location: None,
        coord_x: 0,
        coord_y: 0,
        coord_z: 0,
    });

    g
}

#[allow(dead_code)]
fn create_call_unwind_cfg() -> Cfg {
    let mut g = Cfg::new();

    let b0 = g.add_node(BasicBlock {
        id: 0,
        db_id: None,
        kind: BlockKind::Entry,
        statements: vec![],
        terminator: Terminator::Call {
            target: Some(1),
            unwind: Some(2),
        },
        source_location: None,
        coord_x: 0,
        coord_y: 0,
        coord_z: 0,
    });

    let b1 = g.add_node(BasicBlock {
        id: 1,
        db_id: None,
        kind: BlockKind::Exit,
        statements: vec![],
        terminator: Terminator::Return,
        source_location: None,
        coord_x: 0,
        coord_y: 0,
        coord_z: 0,
    });

    let _b2 = g.add_node(BasicBlock {
        id: 2,
        db_id: None,
        kind: BlockKind::Exit,
        statements: vec![],
        terminator: Terminator::Return,
        source_location: None,
        coord_x: 0,
        coord_y: 0,
        coord_z: 0,
    });

    g.add_edge(b0, b1, EdgeType::Fallthrough);

    g
}

#[allow(dead_code)]
fn create_self_loop_cfg() -> Cfg {
    let mut g = Cfg::new();

    let b0 = g.add_node(BasicBlock {
        id: 0,
        db_id: None,
        kind: BlockKind::Entry,
        statements: vec![],
        terminator: Terminator::Goto { target: 1 },
        source_location: None,
        coord_x: 0,
        coord_y: 0,
        coord_z: 0,
    });

    let _b1 = g.add_node(BasicBlock {
        id: 1,
        db_id: None,
        kind: BlockKind::Normal,
        statements: vec![],
        terminator: Terminator::Goto { target: 1 },
        source_location: None,
        coord_x: 0,
        coord_y: 0,
        coord_z: 0,
    });

    g.add_edge(b0, NodeIndex::new(1), EdgeType::Fallthrough);

    g
}

#[allow(dead_code)]
fn create_nested_loop_cfg() -> Cfg {
    let mut g = Cfg::new();

    let b0 = g.add_node(BasicBlock {
        id: 0,
        db_id: None,
        kind: BlockKind::Entry,
        statements: vec![],
        terminator: Terminator::Goto { target: 1 },
        source_location: None,
        coord_x: 0,
        coord_y: 0,
        coord_z: 0,
    });

    let b1 = g.add_node(BasicBlock {
        id: 1,
        db_id: None,
        kind: BlockKind::Normal,
        statements: vec![],
        terminator: Terminator::SwitchInt {
            targets: vec![2],
            otherwise: 4,
        },
        source_location: None,
        coord_x: 0,
        coord_y: 0,
        coord_z: 0,
    });

    let b2 = g.add_node(BasicBlock {
        id: 2,
        db_id: None,
        kind: BlockKind::Normal,
        statements: vec![],
        terminator: Terminator::SwitchInt {
            targets: vec![3],
            otherwise: 1,
        },
        source_location: None,
        coord_x: 0,
        coord_y: 0,
        coord_z: 0,
    });

    let b3 = g.add_node(BasicBlock {
        id: 3,
        db_id: None,
        kind: BlockKind::Normal,
        statements: vec![],
        terminator: Terminator::Goto { target: 2 },
        source_location: None,
        coord_x: 0,
        coord_y: 0,
        coord_z: 0,
    });

    let b4 = g.add_node(BasicBlock {
        id: 4,
        db_id: None,
        kind: BlockKind::Exit,
        statements: vec![],
        terminator: Terminator::Return,
        source_location: None,
        coord_x: 0,
        coord_y: 0,
        coord_z: 0,
    });

    g.add_edge(b0, b1, EdgeType::Fallthrough);
    g.add_edge(b1, b2, EdgeType::TrueBranch);
    g.add_edge(b1, b4, EdgeType::FalseBranch);
    g.add_edge(b2, b3, EdgeType::TrueBranch);
    g.add_edge(b2, b1, EdgeType::LoopBack);
    g.add_edge(b3, b2, EdgeType::LoopBack);

    g
}

#[allow(dead_code)]
fn create_conflicting_conditions_cfg() -> Cfg {
    let mut g = Cfg::new();

    let b0 = g.add_node(BasicBlock {
        id: 0,
        db_id: None,
        kind: BlockKind::Entry,
        statements: vec![],
        terminator: Terminator::SwitchInt {
            targets: vec![1],
            otherwise: 2,
        },
        source_location: None,
        coord_x: 0,
        coord_y: 0,
        coord_z: 0,
    });

    let b1 = g.add_node(BasicBlock {
        id: 1,
        db_id: None,
        kind: BlockKind::Normal,
        statements: vec![],
        terminator: Terminator::SwitchInt {
            targets: vec![3],
            otherwise: 3,
        },
        source_location: None,
        coord_x: 0,
        coord_y: 0,
        coord_z: 0,
    });

    let b2 = g.add_node(BasicBlock {
        id: 2,
        db_id: None,
        kind: BlockKind::Exit,
        statements: vec![],
        terminator: Terminator::Return,
        source_location: None,
        coord_x: 0,
        coord_y: 0,
        coord_z: 0,
    });

    let b3 = g.add_node(BasicBlock {
        id: 3,
        db_id: None,
        kind: BlockKind::Exit,
        statements: vec![],
        terminator: Terminator::Return,
        source_location: None,
        coord_x: 0,
        coord_y: 0,
        coord_z: 0,
    });

    g.add_edge(b0, b1, EdgeType::TrueBranch);
    g.add_edge(b0, b2, EdgeType::FalseBranch);
    g.add_edge(b1, b3, EdgeType::Fallthrough);

    g
}

#[allow(dead_code)]
fn create_large_linear_cfg(size: usize) -> Cfg {
    let mut g = Cfg::new();

    for i in 0..size {
        let kind = if i == 0 {
            BlockKind::Entry
        } else if i == size - 1 {
            BlockKind::Exit
        } else {
            BlockKind::Normal
        };

        let terminator = if i == size - 1 {
            Terminator::Return
        } else {
            Terminator::Goto { target: i + 1 }
        };

        let _node = g.add_node(BasicBlock {
            id: i,
            db_id: None,
            kind,
            statements: vec![],
            terminator,
            source_location: None,
            coord_x: 0,
            coord_y: 0,
            coord_z: 0,
        });
    }

    for i in 0..size - 1 {
        let from = NodeIndex::new(i);
        let to = NodeIndex::new(i + 1);
        g.add_edge(from, to, EdgeType::Fallthrough);
    }

    g
}

#[allow(dead_code)]
fn create_large_diamond_cfg() -> Cfg {
    let mut g = Cfg::new();

    let mut nodes = Vec::new();

    for i in 0..21 {
        let kind = if i == 0 {
            BlockKind::Entry
        } else if i % 2 == 0 && i > 0 {
            BlockKind::Normal
        } else if i == 20 {
            BlockKind::Exit
        } else {
            BlockKind::Normal
        };

        let terminator = if i == 20 {
            Terminator::Return
        } else if i % 2 == 0 {
            let target1 = i + 1;
            let target2 = i + 2;
            Terminator::SwitchInt {
                targets: vec![target1],
                otherwise: target2,
            }
        } else {
            let merge = i + 1;
            Terminator::Goto { target: merge }
        };

        let node = g.add_node(BasicBlock {
            id: i,
            db_id: None,
            kind,
            statements: vec![],
            terminator,
            source_location: None,
            coord_x: 0,
            coord_y: 0,
            coord_z: 0,
        });
        nodes.push(node);
    }

    for i in (0..20).step_by(2) {
        let from = nodes[i];
        let to1 = nodes[i + 1];
        let to2 = nodes[i + 2];
        g.add_edge(from, to1, EdgeType::TrueBranch);
        g.add_edge(from, to2, EdgeType::FalseBranch);
    }

    for i in (1..20).filter(|x| x % 2 == 1) {
        let from = nodes[i];
        let to = nodes[i + 1];
        g.add_edge(from, to, EdgeType::Fallthrough);
    }

    g
}

#[allow(dead_code)]
fn create_simple_diamond_cfg() -> Cfg {
    let mut g = Cfg::new();

    let b0 = g.add_node(BasicBlock {
        id: 0,
        db_id: None,
        kind: BlockKind::Entry,
        statements: vec![],
        terminator: Terminator::SwitchInt {
            targets: vec![1],
            otherwise: 2,
        },
        source_location: None,
        coord_x: 0,
        coord_y: 0,
        coord_z: 0,
    });

    let b1 = g.add_node(BasicBlock {
        id: 1,
        db_id: None,
        kind: BlockKind::Normal,
        statements: vec![],
        terminator: Terminator::Goto { target: 3 },
        source_location: None,
        coord_x: 0,
        coord_y: 0,
        coord_z: 0,
    });

    let b2 = g.add_node(BasicBlock {
        id: 2,
        db_id: None,
        kind: BlockKind::Normal,
        statements: vec![],
        terminator: Terminator::Goto { target: 3 },
        source_location: None,
        coord_x: 0,
        coord_y: 0,
        coord_z: 0,
    });

    let b3 = g.add_node(BasicBlock {
        id: 3,
        db_id: None,
        kind: BlockKind::Exit,
        statements: vec![],
        terminator: Terminator::Return,
        source_location: None,
        coord_x: 0,
        coord_y: 0,
        coord_z: 0,
    });

    g.add_edge(b0, b1, EdgeType::TrueBranch);
    g.add_edge(b0, b2, EdgeType::FalseBranch);
    g.add_edge(b1, b3, EdgeType::Fallthrough);
    g.add_edge(b2, b3, EdgeType::Fallthrough);

    g
}

#[test]
fn tests_feasibility_test_classify_path_normal_return() {
    let cfg = create_linear_cfg();
    let path = vec![0, 1, 2];
    let kind = classify_path(&cfg, &path);
    assert_eq!(kind, PathKind::Normal);
}

#[test]
fn tests_feasibility_test_classify_path_error_abort() {
    let cfg = create_error_cfg();
    let path = vec![0, 1];
    let kind = classify_path(&cfg, &path);
    assert_eq!(kind, PathKind::Error);
}

#[test]
fn tests_feasibility_test_classify_path_degenerate_unreachable_terminator() {
    let cfg = create_unreachable_term_cfg();
    let path = vec![0, 1];
    let kind = classify_path(&cfg, &path);
    assert_eq!(kind, PathKind::Degenerate);
}

#[test]
fn tests_feasibility_test_classify_path_unreachable_block() {
    let cfg = create_dead_code_cfg();
    let path = vec![1];
    let kind = classify_path(&cfg, &path);
    assert_eq!(kind, PathKind::Unreachable);
}

#[test]
fn tests_feasibility_test_classify_path_error_call_unwind() {
    let cfg = create_call_unwind_cfg();
    let path = vec![0, 1];
    let kind = classify_path(&cfg, &path);
    assert_eq!(kind, PathKind::Error);
}

#[test]
fn tests_feasibility_test_classify_path_empty() {
    let cfg = create_linear_cfg();
    let path: Vec<mirage_analyzer::cfg::BlockId> = vec![];
    let kind = classify_path(&cfg, &path);
    assert_eq!(kind, PathKind::Degenerate);
}

#[test]
fn tests_feasibility_test_classify_path_single_block() {

    let mut g = Cfg::new();
    let _b0 = g.add_node(BasicBlock {
        id: 0,
        db_id: None,
        kind: BlockKind::Entry,
        statements: vec![],
        terminator: Terminator::Return,
        source_location: None,
        coord_x: 0,
        coord_y: 0,
        coord_z: 0,
    });
    let path = vec![0];
    let kind = classify_path(&g, &path);
    assert_eq!(kind, PathKind::Normal);
}

#[test]
fn tests_feasibility_test_classify_path_nonexistent_block() {
    let cfg = create_linear_cfg();
    let path = vec![0, 99];
    let kind = classify_path(&cfg, &path);
    assert_eq!(kind, PathKind::Degenerate);
}

#[test]
fn tests_feasibility_test_classify_path_precomputed_matches_classify_path() {
    let cfg = create_diamond_cfg();
    let reachable_nodes = find_reachable(&cfg);
    let reachable_blocks: HashSet<mirage_analyzer::cfg::BlockId> =
        reachable_nodes.iter().map(|&idx| cfg[NodeIndex::new(idx)].id).collect();

    let test_paths = vec![vec![0, 1, 3], vec![0, 2, 3], vec![0, 1], vec![0]];

    for path in test_paths {
        let kind1 = classify_path(&cfg, &path);
        let kind2 = classify_path_precomputed(&cfg, &path, &reachable_blocks);
        assert_eq!(
            kind1, kind2,
            "classify_path_precomputed should match classify_path for path {:?}",
            path
        );
    }
}

#[test]
fn tests_feasibility_test_classify_path_precomputed_unreachable() {
    let cfg = create_dead_code_cfg();
    let reachable_nodes = find_reachable(&cfg);
    let reachable_blocks: HashSet<mirage_analyzer::cfg::BlockId> =
        reachable_nodes.iter().map(|&idx| cfg[NodeIndex::new(idx)].id).collect();
    let path = vec![1];
    let kind = classify_path_precomputed(&cfg, &path, &reachable_blocks);
    assert_eq!(kind, PathKind::Unreachable);
}

#[test]
fn tests_feasibility_test_classify_path_precomputed_performance() {

    let cfg = create_diamond_cfg();
    let reachable_nodes = find_reachable(&cfg);
    let reachable_blocks: HashSet<mirage_analyzer::cfg::BlockId> =
        reachable_nodes.iter().map(|&idx| cfg[NodeIndex::new(idx)].id).collect();

    let test_paths: Vec<Vec<mirage_analyzer::cfg::BlockId>> = (0..1000).map(|_| vec![0, 1, 3]).collect();

    let start = Instant::now();
    for path in &test_paths {
        let _ = classify_path_precomputed(&cfg, path, &reachable_blocks);
    }
    let precomputed_duration = start.elapsed();

    assert!(
        precomputed_duration.as_millis() < 10,
        "classify_path_precomputed should classify 1000 paths in <10ms, took {}ms",
        precomputed_duration.as_millis()
    );
}

#[test]
fn tests_feasibility_test_classify_path_precomputed_all_kinds() {
    let cfg_normal = create_linear_cfg();
    let reachable = find_reachable(&cfg_normal)
        .iter()
        .map(|&idx| cfg_normal[NodeIndex::new(idx)].id)
        .collect();
    assert_eq!(
        classify_path_precomputed(&cfg_normal, &[0, 1, 2], &reachable),
        PathKind::Normal
    );

    let cfg_error = create_error_cfg();
    let reachable = find_reachable(&cfg_error)
        .iter()
        .map(|&idx| cfg_error[NodeIndex::new(idx)].id)
        .collect();
    assert_eq!(
        classify_path_precomputed(&cfg_error, &[0, 1], &reachable),
        PathKind::Error
    );

    let cfg_degen = create_unreachable_term_cfg();
    let reachable = find_reachable(&cfg_degen)
        .iter()
        .map(|&idx| cfg_degen[NodeIndex::new(idx)].id)
        .collect();
    assert_eq!(
        classify_path_precomputed(&cfg_degen, &[0, 1], &reachable),
        PathKind::Degenerate
    );
}

#[test]
fn tests_feasibility_test_is_feasible_path_empty_path() {
    let cfg = create_linear_cfg();
    let empty_path: Vec<mirage_analyzer::cfg::BlockId> = vec![];
    assert!(
        !is_feasible_path(&cfg, &empty_path),
        "Empty path should be infeasible"
    );
}

#[test]
fn tests_feasibility_test_is_feasible_path_non_entry_first_block() {
    let cfg = create_diamond_cfg();
    let path = vec![1, 3];
    assert!(
        !is_feasible_path(&cfg, &path),
        "Path starting from non-entry block should be infeasible"
    );
}

#[test]
fn tests_feasibility_test_is_feasible_path_dead_end_goto() {
    let cfg = create_linear_cfg();
    let path = vec![0, 1];
    assert!(
        !is_feasible_path(&cfg, &path),
        "Path ending in Goto should be infeasible (dead end)"
    );
}

#[test]
fn tests_feasibility_test_is_feasible_path_valid_return() {
    let cfg = create_linear_cfg();
    let path = vec![0, 1, 2];
    assert!(
        is_feasible_path(&cfg, &path),
        "Complete path ending in Return should be feasible"
    );
}

#[test]
fn tests_feasibility_test_is_feasible_path_abort_is_feasible() {
    let cfg = create_error_cfg();
    let path = vec![0, 1];
    assert!(
        is_feasible_path(&cfg, &path),
        "Path ending in Abort should be feasible (error path but reachable)"
    );
}

#[test]
fn tests_feasibility_test_is_feasible_path_unreachable_terminator() {
    let cfg = create_unreachable_term_cfg();
    let path = vec![0, 1];
    assert!(
        !is_feasible_path(&cfg, &path),
        "Path ending in Unreachable should be infeasible"
    );
}

#[test]
fn tests_feasibility_test_is_feasible_path_nonexistent_block() {
    let cfg = create_linear_cfg();
    let path = vec![0, 99];
    assert!(
        !is_feasible_path(&cfg, &path),
        "Path with nonexistent block should be infeasible"
    );
}

#[test]
fn tests_feasibility_test_is_feasible_path_switch_int_dead_end() {
    let cfg = create_diamond_cfg();
    let path = vec![0];
    assert!(
        !is_feasible_path(&cfg, &path),
        "Path ending in SwitchInt should be infeasible (dead end)"
    );
}

#[test]
fn tests_feasibility_test_is_feasible_path_complete_diamond() {
    let cfg = create_diamond_cfg();
    let path1 = vec![0, 1, 3];
    let path2 = vec![0, 2, 3];
    assert!(
        is_feasible_path(&cfg, &path1),
        "Complete diamond path 0->1->3 should be feasible"
    );
    assert!(
        is_feasible_path(&cfg, &path2),
        "Complete diamond path 0->2->3 should be feasible"
    );
}

#[test]
fn tests_feasibility_test_is_feasible_path_call_no_unwind() {

    let mut g = Cfg::new();
    let b0 = g.add_node(BasicBlock {
        id: 0,
        db_id: None,
        kind: BlockKind::Entry,
        statements: vec![],
        terminator: Terminator::Call {
            target: Some(1),
            unwind: None,
        },
        source_location: None,
        coord_x: 0,
        coord_y: 0,
        coord_z: 0,
    });
    let _b1 = g.add_node(BasicBlock {
        id: 1,
        db_id: None,
        kind: BlockKind::Exit,
        statements: vec![],
        terminator: Terminator::Return,
        source_location: None,
        coord_x: 0,
        coord_y: 0,
        coord_z: 0,
    });
    g.add_edge(
        b0,
        petgraph::graph::NodeIndex::new(1),
        EdgeType::Fallthrough,
    );
    let path = vec![0];
    assert!(
        is_feasible_path(&g, &path),
        "Path ending in Call with no unwind should be feasible"
    );
}

#[test]
fn tests_feasibility_test_is_feasible_path_call_with_unwind_and_target() {
    let cfg = create_call_unwind_cfg();
    let path = vec![0];
    assert!(
        is_feasible_path(&cfg, &path),
        "Path ending in Call with both unwind and target should be feasible"
    );
}

#[test]
fn tests_feasibility_test_is_feasible_path_call_always_unwinds() {

    let mut g = Cfg::new();
    let b0 = g.add_node(BasicBlock {
        id: 0,
        db_id: None,
        kind: BlockKind::Entry,
        statements: vec![],
        terminator: Terminator::Call {
            target: None,
            unwind: Some(1),
        },
        source_location: None,
        coord_x: 0,
        coord_y: 0,
        coord_z: 0,
    });
    let _b1 = g.add_node(BasicBlock {
        id: 1,
        db_id: None,
        kind: BlockKind::Exit,
        statements: vec![],
        terminator: Terminator::Return,
        source_location: None,
        coord_x: 0,
        coord_y: 0,
        coord_z: 0,
    });
    g.add_edge(
        b0,
        petgraph::graph::NodeIndex::new(1),
        EdgeType::Fallthrough,
    );
    let path = vec![0];
    assert!(
        !is_feasible_path(&g, &path),
        "Path ending in Call with only unwind (no target) should be infeasible"
    );
}

#[test]
fn tests_feasibility_test_is_feasible_path_precomputed_matches_basic() {
    let cfg = create_diamond_cfg();
    let reachable_nodes = find_reachable(&cfg);
    let reachable_blocks: HashSet<mirage_analyzer::cfg::BlockId> =
        reachable_nodes.iter().map(|&idx| cfg[NodeIndex::new(idx)].id).collect();

    let test_paths = vec![vec![0, 1, 3], vec![0, 2, 3], vec![0, 1], vec![]];

    for path in test_paths {
        let basic = is_feasible_path(&cfg, &path);
        let precomputed = is_feasible_path_precomputed(&cfg, &path, &reachable_blocks);
        assert_eq!(basic, precomputed, "Mismatch for {:?}", path);
    }
}

#[test]
fn tests_feasibility_test_is_feasible_path_precomputed_unreachable_block() {
    let cfg = create_dead_code_cfg();
    let reachable_nodes = find_reachable(&cfg);
    let reachable_blocks: HashSet<mirage_analyzer::cfg::BlockId> =
        reachable_nodes.iter().map(|&idx| cfg[NodeIndex::new(idx)].id).collect();
    let path = vec![1];
    assert!(
        !is_feasible_path_precomputed(&cfg, &path, &reachable_blocks),
        "Path with unreachable block should be infeasible"
    );
}

#[test]
fn tests_feasibility_test_is_feasible_path_precomputed_performance() {

    let cfg = create_diamond_cfg();
    let reachable_nodes = find_reachable(&cfg);
    let reachable_blocks: HashSet<mirage_analyzer::cfg::BlockId> =
        reachable_nodes.iter().map(|&idx| cfg[NodeIndex::new(idx)].id).collect();

    let test_paths: Vec<Vec<mirage_analyzer::cfg::BlockId>> = (0..1000).map(|_| vec![0, 1, 3]).collect();

    let start = Instant::now();
    for path in &test_paths {
        let _ = is_feasible_path_precomputed(&cfg, path, &reachable_blocks);
    }
    let precomputed_duration = start.elapsed();

    assert!(
        precomputed_duration.as_millis() < 5,
        "is_feasible_path_precomputed should check 1000 paths in <5ms, took {}ms",
        precomputed_duration.as_millis()
    );
}

#[test]
fn tests_feasibility_test_is_feasible_path_precomputed_all_criteria() {
    let cfg_normal = create_linear_cfg();
    let reachable_normal: HashSet<mirage_analyzer::cfg::BlockId> = find_reachable(&cfg_normal)
        .iter()
        .map(|&idx| cfg_normal[NodeIndex::new(idx)].id)
        .collect();
    assert!(is_feasible_path_precomputed(
        &cfg_normal,
        &[0, 1, 2],
        &reachable_normal
    ));

    let cfg_error = create_error_cfg();
    let reachable_error: HashSet<mirage_analyzer::cfg::BlockId> = find_reachable(&cfg_error)
        .iter()
        .map(|&idx| cfg_error[NodeIndex::new(idx)].id)
        .collect();
    assert!(is_feasible_path_precomputed(
        &cfg_error,
        &[0, 1],
        &reachable_error
    ));

    let cfg_degen = create_unreachable_term_cfg();
    let reachable_degen: HashSet<mirage_analyzer::cfg::BlockId> = find_reachable(&cfg_degen)
        .iter()
        .map(|&idx| cfg_degen[NodeIndex::new(idx)].id)
        .collect();
    assert!(!is_feasible_path_precomputed(
        &cfg_degen,
        &[0, 1],
        &reachable_degen
    ));
}

#[test]
fn tests_feasibility_test_classify_with_feasibility_dead_end() {
    let cfg = create_linear_cfg();
    let reachable: HashSet<mirage_analyzer::cfg::BlockId> = find_reachable(&cfg)
        .iter()
        .map(|&idx| cfg[NodeIndex::new(idx)].id)
        .collect();
    let path = vec![0, 1];
    let kind = classify_path_precomputed(&cfg, &path, &reachable);
    assert_eq!(kind, PathKind::Degenerate);
}

#[test]
fn tests_feasibility_test_classify_with_feasibility_valid_exit() {
    let cfg = create_linear_cfg();
    let reachable: HashSet<mirage_analyzer::cfg::BlockId> = find_reachable(&cfg)
        .iter()
        .map(|&idx| cfg[NodeIndex::new(idx)].id)
        .collect();
    let path = vec![0, 1, 2];
    let kind = classify_path_precomputed(&cfg, &path, &reachable);
    assert_eq!(kind, PathKind::Normal);
}

#[test]
fn tests_feasibility_test_classify_with_feasibility_error_path() {
    let cfg = create_error_cfg();
    let reachable: HashSet<mirage_analyzer::cfg::BlockId> = find_reachable(&cfg)
        .iter()
        .map(|&idx| cfg[NodeIndex::new(idx)].id)
        .collect();
    let path = vec![0, 1];
    let kind = classify_path_precomputed(&cfg, &path, &reachable);
    assert_eq!(kind, PathKind::Error);
}

#[test]
fn tests_feasibility_test_classify_with_feasibility_switch_int_dead_end() {
    let cfg = create_diamond_cfg();
    let reachable: HashSet<mirage_analyzer::cfg::BlockId> = find_reachable(&cfg)
        .iter()
        .map(|&idx| cfg[NodeIndex::new(idx)].id)
        .collect();
    let path = vec![0];
    let kind = classify_path_precomputed(&cfg, &path, &reachable);
    assert_eq!(kind, PathKind::Degenerate);
}

#[test]
fn tests_feasibility_test_classify_with_feasibility_priority_order() {
    let cfg = create_dead_code_cfg();
    let reachable: HashSet<mirage_analyzer::cfg::BlockId> = find_reachable(&cfg)
        .iter()
        .map(|&idx| cfg[NodeIndex::new(idx)].id)
        .collect();
    let path = vec![1];
    let kind = classify_path_precomputed(&cfg, &path, &reachable);
    assert_eq!(kind, PathKind::Unreachable);
}

#[test]
fn tests_feasibility_test_classify_with_feasibility_complete_paths() {
    let cfg = create_diamond_cfg();
    let reachable: HashSet<mirage_analyzer::cfg::BlockId> = find_reachable(&cfg)
        .iter()
        .map(|&idx| cfg[NodeIndex::new(idx)].id)
        .collect();
    assert_eq!(
        classify_path_precomputed(&cfg, &[0, 1, 3], &reachable),
        PathKind::Normal
    );
    assert_eq!(
        classify_path_precomputed(&cfg, &[0, 2, 3], &reachable),
        PathKind::Normal
    );
}

#[test]
fn tests_feasibility_test_classify_with_feasibility_call_terminator() {

    let mut g = Cfg::new();
    let b0 = g.add_node(BasicBlock {
        id: 0,
        db_id: None,
        kind: BlockKind::Entry,
        statements: vec![],
        terminator: Terminator::Call {
            target: Some(1),
            unwind: None,
        },
        source_location: None,
        coord_x: 0,
        coord_y: 0,
        coord_z: 0,
    });
    let _b1 = g.add_node(BasicBlock {
        id: 1,
        db_id: None,
        kind: BlockKind::Exit,
        statements: vec![],
        terminator: Terminator::Return,
        source_location: None,
        coord_x: 0,
        coord_y: 0,
        coord_z: 0,
    });
    g.add_edge(
        b0,
        petgraph::graph::NodeIndex::new(1),
        EdgeType::Fallthrough,
    );
    let reachable: HashSet<mirage_analyzer::cfg::BlockId> =
        find_reachable(&g).iter().map(|&idx| g[NodeIndex::new(idx)].id).collect();
    let path = vec![0];
    let kind = classify_path_precomputed(&g, &path, &reachable);
    assert_eq!(kind, PathKind::Normal);
}

#[test]
fn tests_feasibility_test_feasibility_limitation_conflicting_conditions() {
    let cfg = create_conflicting_conditions_cfg();
    let reachable: HashSet<mirage_analyzer::cfg::BlockId> = find_reachable(&cfg)
        .iter()
        .map(|&idx| cfg[NodeIndex::new(idx)].id)
        .collect();
    let path = vec![0, 1, 3];
    assert!(
        is_feasible_path_precomputed(&cfg, &path, &reachable),
        "Static analysis marks conflicting path as feasible (limitation)"
    );
    assert_eq!(
        classify_path_precomputed(&cfg, &path, &reachable),
        PathKind::Normal,
        "Conflicting path is classified as Normal (static limitation)"
    );
}

#[test]
fn tests_feasibility_test_feasibility_documentation_accuracy() {
    let cfg = create_linear_cfg();
    let reachable: HashSet<mirage_analyzer::cfg::BlockId> = find_reachable(&cfg)
        .iter()
        .map(|&idx| cfg[NodeIndex::new(idx)].id)
        .collect();
    assert!(!is_feasible_path_precomputed(&cfg, &[1, 2], &reachable));
    assert!(!is_feasible_path_precomputed(&cfg, &[0, 1], &reachable));
    assert!(is_feasible_path_precomputed(&cfg, &[0, 1, 2], &reachable));
}
