#![allow(unused_imports)]
use mirage_analyzer::cfg::edge::EdgeType;
use mirage_analyzer::cfg::loops::find_loop_headers;
use mirage_analyzer::cfg::paths::cached::{check_path_explosion, estimate_path_count};
use mirage_analyzer::cfg::paths::enumeration::{
    enumerate_paths, enumerate_paths_outcome, enumerate_paths_with_context, enumerate_paths_with_context_outcome,
};
use mirage_analyzer::cfg::paths::feasibility::{
    classify_path, classify_path_precomputed, is_feasible_path, is_feasible_path_precomputed,
};
use mirage_analyzer::cfg::paths::iterative::enumerate_paths_iterative;
use mirage_analyzer::cfg::paths::limits::{hash_path, EnumerationContext, PathLimits};
use mirage_analyzer::cfg::paths::metadata::{enumerate_paths_with_metadata, LimitsHit};
use mirage_analyzer::cfg::paths::{find_node_by_block_id, Path, PathKind};
use mirage_analyzer::cfg::reachability::find_reachable;
use mirage_analyzer::cfg::{BasicBlock, BlockId, BlockKind, Cfg, Terminator};
use petgraph::graph::{DiGraph, NodeIndex};
use std::collections::HashSet;
use std::time::{Duration, Instant};


#[allow(dead_code)]
fn create_linear_cfg() -> Cfg {
    let mut g = Cfg::new();

    let b0 = g.add_node(BasicBlock {
        id: 0,
        db_id: None,
        kind: BlockKind::Entry,
        statements: vec![],
        terminator: Terminator::Goto { target: 1 },
        source_location: None,
        coord_x: 0,
        coord_y: 0,
        coord_z: 0,
    });

    let b1 = g.add_node(BasicBlock {
        id: 1,
        db_id: None,
        kind: BlockKind::Normal,
        statements: vec![],
        terminator: Terminator::Goto { target: 2 },
        source_location: None,
        coord_x: 0,
        coord_y: 0,
        coord_z: 0,
    });

    let b2 = g.add_node(BasicBlock {
        id: 2,
        db_id: None,
        kind: BlockKind::Exit,
        statements: vec![],
        terminator: Terminator::Return,
        source_location: None,
        coord_x: 0,
        coord_y: 0,
        coord_z: 0,
    });

    g.add_edge(b0, b1, EdgeType::Fallthrough);
    g.add_edge(b1, b2, EdgeType::Fallthrough);

    g
}

#[allow(dead_code)]
fn create_diamond_cfg() -> Cfg {
    let mut g = Cfg::new();

    let b0 = g.add_node(BasicBlock {
        id: 0,
        db_id: None,
        kind: BlockKind::Entry,
        statements: vec![],
        terminator: Terminator::SwitchInt {
            targets: vec![1],
            otherwise: 2,
        },
        source_location: None,
        coord_x: 0,
        coord_y: 0,
        coord_z: 0,
    });

    let b1 = g.add_node(BasicBlock {
        id: 1,
        db_id: None,
        kind: BlockKind::Normal,
        statements: vec![],
        terminator: Terminator::Goto { target: 3 },
        source_location: None,
        coord_x: 0,
        coord_y: 0,
        coord_z: 0,
    });

    let b2 = g.add_node(BasicBlock {
        id: 2,
        db_id: None,
        kind: BlockKind::Normal,
        statements: vec![],
        terminator: Terminator::Goto { target: 3 },
        source_location: None,
        coord_x: 0,
        coord_y: 0,
        coord_z: 0,
    });

    let b3 = g.add_node(BasicBlock {
        id: 3,
        db_id: None,
        kind: BlockKind::Exit,
        statements: vec![],
        terminator: Terminator::Return,
        source_location: None,
        coord_x: 0,
        coord_y: 0,
        coord_z: 0,
    });

    g.add_edge(b0, b1, EdgeType::TrueBranch);
    g.add_edge(b0, b2, EdgeType::FalseBranch);
    g.add_edge(b1, b3, EdgeType::Fallthrough);
    g.add_edge(b2, b3, EdgeType::Fallthrough);

    g
}

#[allow(dead_code)]
fn create_loop_cfg() -> Cfg {
    let mut g = Cfg::new();

    let b0 = g.add_node(BasicBlock {
        id: 0,
        db_id: None,
        kind: BlockKind::Entry,
        statements: vec![],
        terminator: Terminator::Goto { target: 1 },
        source_location: None,
        coord_x: 0,
        coord_y: 0,
        coord_z: 0,
    });

    let b1 = g.add_node(BasicBlock {
        id: 1,
        db_id: None,
        kind: BlockKind::Normal,
        statements: vec![],
        terminator: Terminator::SwitchInt {
            targets: vec![2],
            otherwise: 3,
        },
        source_location: None,
        coord_x: 0,
        coord_y: 0,
        coord_z: 0,
    });

    let b2 = g.add_node(BasicBlock {
        id: 2,
        db_id: None,
        kind: BlockKind::Normal,
        statements: vec![],
        terminator: Terminator::Goto { target: 1 },
        source_location: None,
        coord_x: 0,
        coord_y: 0,
        coord_z: 0,
    });

    let b3 = g.add_node(BasicBlock {
        id: 3,
        db_id: None,
        kind: BlockKind::Exit,
        statements: vec![],
        terminator: Terminator::Return,
        source_location: None,
        coord_x: 0,
        coord_y: 0,
        coord_z: 0,
    });

    g.add_edge(b0, b1, EdgeType::Fallthrough);
    g.add_edge(b1, b2, EdgeType::TrueBranch);
    g.add_edge(b1, b3, EdgeType::FalseBranch);
    g.add_edge(b2, b1, EdgeType::LoopBack);

    g
}

#[allow(dead_code)]
fn create_error_cfg() -> Cfg {
    let mut g = Cfg::new();

    let b0 = g.add_node(BasicBlock {
        id: 0,
        db_id: None,
        kind: BlockKind::Entry,
        statements: vec![],
        terminator: Terminator::Goto { target: 1 },
        source_location: None,
        coord_x: 0,
        coord_y: 0,
        coord_z: 0,
    });

    let b1 = g.add_node(BasicBlock {
        id: 1,
        db_id: None,
        kind: BlockKind::Exit,
        statements: vec![],
        terminator: Terminator::Abort("panic!".to_string()),
        source_location: None,
        coord_x: 0,
        coord_y: 0,
        coord_z: 0,
    });

    g.add_edge(b0, b1, EdgeType::Fallthrough);

    g
}

#[allow(dead_code)]
fn create_unreachable_term_cfg() -> Cfg {
    let mut g = Cfg::new();

    let b0 = g.add_node(BasicBlock {
        id: 0,
        db_id: None,
        kind: BlockKind::Entry,
        statements: vec![],
        terminator: Terminator::Goto { target: 1 },
        source_location: None,
        coord_x: 0,
        coord_y: 0,
        coord_z: 0,
    });

    let b1 = g.add_node(BasicBlock {
        id: 1,
        db_id: None,
        kind: BlockKind::Exit,
        statements: vec![],
        terminator: Terminator::Unreachable,
        source_location: None,
        coord_x: 0,
        coord_y: 0,
        coord_z: 0,
    });

    g.add_edge(b0, b1, EdgeType::Fallthrough);

    g
}

#[allow(dead_code)]
fn create_dead_code_cfg() -> Cfg {
    let mut g = Cfg::new();

    let _b0 = g.add_node(BasicBlock {
        id: 0,
        db_id: None,
        kind: BlockKind::Entry,
        statements: vec![],
        terminator: Terminator::Return,
        source_location: None,
        coord_x: 0,
        coord_y: 0,
        coord_z: 0,
    });

    let _b1 = g.add_node(BasicBlock {
        id: 1,
        db_id: None,
        kind: BlockKind::Exit,
        statements: vec![],
        terminator: Terminator::Return,
        source_location: None,
        coord_x: 0,
        coord_y: 0,
        coord_z: 0,
    });

    g
}

#[allow(dead_code)]
fn create_call_unwind_cfg() -> Cfg {
    let mut g = Cfg::new();

    let b0 = g.add_node(BasicBlock {
        id: 0,
        db_id: None,
        kind: BlockKind::Entry,
        statements: vec![],
        terminator: Terminator::Call {
            target: Some(1),
            unwind: Some(2),
        },
        source_location: None,
        coord_x: 0,
        coord_y: 0,
        coord_z: 0,
    });

    let b1 = g.add_node(BasicBlock {
        id: 1,
        db_id: None,
        kind: BlockKind::Exit,
        statements: vec![],
        terminator: Terminator::Return,
        source_location: None,
        coord_x: 0,
        coord_y: 0,
        coord_z: 0,
    });

    let _b2 = g.add_node(BasicBlock {
        id: 2,
        db_id: None,
        kind: BlockKind::Exit,
        statements: vec![],
        terminator: Terminator::Return,
        source_location: None,
        coord_x: 0,
        coord_y: 0,
        coord_z: 0,
    });

    g.add_edge(b0, b1, EdgeType::Fallthrough);

    g
}

#[allow(dead_code)]
fn create_self_loop_cfg() -> Cfg {
    let mut g = Cfg::new();

    let b0 = g.add_node(BasicBlock {
        id: 0,
        db_id: None,
        kind: BlockKind::Entry,
        statements: vec![],
        terminator: Terminator::Goto { target: 1 },
        source_location: None,
        coord_x: 0,
        coord_y: 0,
        coord_z: 0,
    });

    let _b1 = g.add_node(BasicBlock {
        id: 1,
        db_id: None,
        kind: BlockKind::Normal,
        statements: vec![],
        terminator: Terminator::Goto { target: 1 },
        source_location: None,
        coord_x: 0,
        coord_y: 0,
        coord_z: 0,
    });

    g.add_edge(b0, NodeIndex::new(1), EdgeType::Fallthrough);

    g
}

#[allow(dead_code)]
fn create_nested_loop_cfg() -> Cfg {
    let mut g = Cfg::new();

    let b0 = g.add_node(BasicBlock {
        id: 0,
        db_id: None,
        kind: BlockKind::Entry,
        statements: vec![],
        terminator: Terminator::Goto { target: 1 },
        source_location: None,
        coord_x: 0,
        coord_y: 0,
        coord_z: 0,
    });

    let b1 = g.add_node(BasicBlock {
        id: 1,
        db_id: None,
        kind: BlockKind::Normal,
        statements: vec![],
        terminator: Terminator::SwitchInt {
            targets: vec![2],
            otherwise: 4,
        },
        source_location: None,
        coord_x: 0,
        coord_y: 0,
        coord_z: 0,
    });

    let b2 = g.add_node(BasicBlock {
        id: 2,
        db_id: None,
        kind: BlockKind::Normal,
        statements: vec![],
        terminator: Terminator::SwitchInt {
            targets: vec![3],
            otherwise: 1,
        },
        source_location: None,
        coord_x: 0,
        coord_y: 0,
        coord_z: 0,
    });

    let b3 = g.add_node(BasicBlock {
        id: 3,
        db_id: None,
        kind: BlockKind::Normal,
        statements: vec![],
        terminator: Terminator::Goto { target: 2 },
        source_location: None,
        coord_x: 0,
        coord_y: 0,
        coord_z: 0,
    });

    let b4 = g.add_node(BasicBlock {
        id: 4,
        db_id: None,
        kind: BlockKind::Exit,
        statements: vec![],
        terminator: Terminator::Return,
        source_location: None,
        coord_x: 0,
        coord_y: 0,
        coord_z: 0,
    });

    g.add_edge(b0, b1, EdgeType::Fallthrough);
    g.add_edge(b1, b2, EdgeType::TrueBranch);
    g.add_edge(b1, b4, EdgeType::FalseBranch);
    g.add_edge(b2, b3, EdgeType::TrueBranch);
    g.add_edge(b2, b1, EdgeType::LoopBack);
    g.add_edge(b3, b2, EdgeType::LoopBack);

    g
}

#[allow(dead_code)]
fn create_conflicting_conditions_cfg() -> Cfg {
    let mut g = Cfg::new();

    let b0 = g.add_node(BasicBlock {
        id: 0,
        db_id: None,
        kind: BlockKind::Entry,
        statements: vec![],
        terminator: Terminator::SwitchInt {
            targets: vec![1],
            otherwise: 2,
        },
        source_location: None,
        coord_x: 0,
        coord_y: 0,
        coord_z: 0,
    });

    let b1 = g.add_node(BasicBlock {
        id: 1,
        db_id: None,
        kind: BlockKind::Normal,
        statements: vec![],
        terminator: Terminator::SwitchInt {
            targets: vec![3],
            otherwise: 3,
        },
        source_location: None,
        coord_x: 0,
        coord_y: 0,
        coord_z: 0,
    });

    let b2 = g.add_node(BasicBlock {
        id: 2,
        db_id: None,
        kind: BlockKind::Exit,
        statements: vec![],
        terminator: Terminator::Return,
        source_location: None,
        coord_x: 0,
        coord_y: 0,
        coord_z: 0,
    });

    let b3 = g.add_node(BasicBlock {
        id: 3,
        db_id: None,
        kind: BlockKind::Exit,
        statements: vec![],
        terminator: Terminator::Return,
        source_location: None,
        coord_x: 0,
        coord_y: 0,
        coord_z: 0,
    });

    g.add_edge(b0, b1, EdgeType::TrueBranch);
    g.add_edge(b0, b2, EdgeType::FalseBranch);
    g.add_edge(b1, b3, EdgeType::Fallthrough);

    g
}

#[allow(dead_code)]
fn create_large_linear_cfg(size: usize) -> Cfg {
    let mut g = Cfg::new();

    for i in 0..size {
        let kind = if i == 0 {
            BlockKind::Entry
        } else if i == size - 1 {
            BlockKind::Exit
        } else {
            BlockKind::Normal
        };

        let terminator = if i == size - 1 {
            Terminator::Return
        } else {
            Terminator::Goto { target: i + 1 }
        };

        let _node = g.add_node(BasicBlock {
            id: i,
            db_id: None,
            kind,
            statements: vec![],
            terminator,
            source_location: None,
            coord_x: 0,
            coord_y: 0,
            coord_z: 0,
        });
    }

    for i in 0..size - 1 {
        let from = NodeIndex::new(i);
        let to = NodeIndex::new(i + 1);
        g.add_edge(from, to, EdgeType::Fallthrough);
    }

    g
}

#[allow(dead_code)]
fn create_large_diamond_cfg() -> Cfg {
    let mut g = Cfg::new();

    let mut nodes = Vec::new();

    for i in 0..21 {
        let kind = if i == 0 {
            BlockKind::Entry
        } else if i % 2 == 0 && i > 0 {
            BlockKind::Normal
        } else if i == 20 {
            BlockKind::Exit
        } else {
            BlockKind::Normal
        };

        let terminator = if i == 20 {
            Terminator::Return
        } else if i % 2 == 0 {
            let target1 = i + 1;
            let target2 = i + 2;
            Terminator::SwitchInt {
                targets: vec![target1],
                otherwise: target2,
            }
        } else {
            let merge = i + 1;
            Terminator::Goto { target: merge }
        };

        let node = g.add_node(BasicBlock {
            id: i,
            db_id: None,
            kind,
            statements: vec![],
            terminator,
            source_location: None,
            coord_x: 0,
            coord_y: 0,
            coord_z: 0,
        });
        nodes.push(node);
    }

    for i in (0..20).step_by(2) {
        let from = nodes[i];
        let to1 = nodes[i + 1];
        let to2 = nodes[i + 2];
        g.add_edge(from, to1, EdgeType::TrueBranch);
        g.add_edge(from, to2, EdgeType::FalseBranch);
    }

    for i in (1..20).filter(|x| x % 2 == 1) {
        let from = nodes[i];
        let to = nodes[i + 1];
        g.add_edge(from, to, EdgeType::Fallthrough);
    }

    g
}

#[allow(dead_code)]
fn create_simple_diamond_cfg() -> Cfg {
    let mut g = Cfg::new();

    let b0 = g.add_node(BasicBlock {
        id: 0,
        db_id: None,
        kind: BlockKind::Entry,
        statements: vec![],
        terminator: Terminator::SwitchInt {
            targets: vec![1],
            otherwise: 2,
        },
        source_location: None,
        coord_x: 0,
        coord_y: 0,
        coord_z: 0,
    });

    let b1 = g.add_node(BasicBlock {
        id: 1,
        db_id: None,
        kind: BlockKind::Normal,
        statements: vec![],
        terminator: Terminator::Goto { target: 3 },
        source_location: None,
        coord_x: 0,
        coord_y: 0,
        coord_z: 0,
    });

    let b2 = g.add_node(BasicBlock {
        id: 2,
        db_id: None,
        kind: BlockKind::Normal,
        statements: vec![],
        terminator: Terminator::Goto { target: 3 },
        source_location: None,
        coord_x: 0,
        coord_y: 0,
        coord_z: 0,
    });

    let b3 = g.add_node(BasicBlock {
        id: 3,
        db_id: None,
        kind: BlockKind::Exit,
        statements: vec![],
        terminator: Terminator::Return,
        source_location: None,
        coord_x: 0,
        coord_y: 0,
        coord_z: 0,
    });

    g.add_edge(b0, b1, EdgeType::TrueBranch);
    g.add_edge(b0, b2, EdgeType::FalseBranch);
    g.add_edge(b1, b3, EdgeType::Fallthrough);
    g.add_edge(b2, b3, EdgeType::Fallthrough);

    g
}

#[test]
fn mod_test_hash_path_deterministic() {
    let blocks = vec![0, 1, 2];
    let hash1 = hash_path(&blocks);
    let hash2 = hash_path(&blocks);

    assert_eq!(hash1, hash2, "Same input should produce same hash");
}

#[test]
fn mod_test_hash_path_different_sequences() {
    let blocks1 = vec![0, 1, 2];
    let blocks2 = vec![0, 2, 1];

    assert_ne!(hash_path(&blocks1), hash_path(&blocks2));
}

#[test]
fn mod_test_hash_path_length_collision_protection() {
    let blocks1 = vec![1, 2, 3];
    let blocks2 = vec![1, 2, 3, 0];

    assert_ne!(hash_path(&blocks1), hash_path(&blocks2));
}



#[test]
fn mod_test_find_node_by_block_id_existing() {
    let cfg = create_linear_cfg();

    let b0 = find_node_by_block_id(&cfg, 0);
    let b1 = find_node_by_block_id(&cfg, 1);
    let b2 = find_node_by_block_id(&cfg, 2);

    assert!(b0.is_some());
    assert!(b1.is_some());
    assert!(b2.is_some());

    assert_eq!(b0.unwrap(), 0);
    assert_eq!(b1.unwrap(), 1);
    assert_eq!(b2.unwrap(), 2);
}

#[test]
fn mod_test_find_node_by_block_id_nonexistent() {
    let cfg = create_linear_cfg();

    let b99 = find_node_by_block_id(&cfg, 99);
    assert!(b99.is_none());
}

#[test]
fn mod_test_find_node_by_block_id_empty_cfg() {
    let cfg: Cfg = Cfg::new();

    let b0 = find_node_by_block_id(&cfg, 0);
    assert!(b0.is_none());
}
