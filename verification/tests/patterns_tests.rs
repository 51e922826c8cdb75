use mirage_analyzer::cfg::edge::EdgeType;
use mirage_analyzer::cfg::patterns::{
    classify_branch, detect_all_patterns, detect_if_else_patterns, detect_match_patterns, find_common_successor,
    BranchType,
};
use mirage_analyzer::cfg::{BasicBlock, BlockKind, Cfg, Terminator};
use petgraph::graph::{DiGraph, NodeIndex};

fn block(id: usize, kind: BlockKind, statements: Vec<String>, terminator: Terminator) -> BasicBlock {
    BasicBlock {
        id,
        db_id: None,
        kind,
        statements,
        terminator,
        source_location: None,
        coord_x: 0,
        coord_y: 0,
        coord_z: 0,
    }
}

/// 0 -> 1 -> {2, 3} -> 4
fn create_diamond_cfg() -> Cfg {
    let mut g = DiGraph::new();
    let b0 = g.add_node(block(0, BlockKind::Entry, vec![], Terminator::Goto { target: 1 }));
    let b1 = g.add_node(block(1, BlockKind::Normal, vec![], Terminator::SwitchInt { targets: vec![2], otherwise: 3 }));
    let b2 = g.add_node(block(2, BlockKind::Normal, vec!["true branch".to_string()], Terminator::Goto { target: 4 }));
    let b3 = g.add_node(block(3, BlockKind::Normal, vec!["false branch".to_string()], Terminator::Goto { target: 4 }));
    let b4 = g.add_node(block(4, BlockKind::Exit, vec!["merge".to_string()], Terminator::Return));
    g.add_edge(b0, b1, EdgeType::Fallthrough);
    g.add_edge(b1, b2, EdgeType::TrueBranch);
    g.add_edge(b1, b3, EdgeType::FalseBranch);
    g.add_edge(b2, b4, EdgeType::Fallthrough);
    g.add_edge(b3, b4, EdgeType::Fallthrough);
    g
}

#[test]
fn test_detect_if_else_diamond() {
    let cfg = create_diamond_cfg();
    let patterns = detect_if_else_patterns(&cfg);
    assert_eq!(patterns.len(), 1);
    let pattern = &patterns[0];
    assert_eq!(pattern.condition, 1);
    assert_eq!(pattern.true_branch, 2);
    assert_eq!(pattern.false_branch, 3);
    assert_eq!(pattern.merge_point, Some(4));
    assert!(pattern.has_else());
}

#[test]
fn test_classify_branch() {
    let cfg = create_diamond_cfg();
    assert_eq!(classify_branch(&cfg, 0), BranchType::Linear);
    assert_eq!(classify_branch(&cfg, 1), BranchType::Conditional);
    assert_eq!(classify_branch(&cfg, 2), BranchType::Linear);
    assert_eq!(classify_branch(&cfg, 4), BranchType::Linear);
}

#[test]
fn test_detect_match_patterns() {
    let mut g: Cfg = DiGraph::new();
    let b0 = g.add_node(block(0, BlockKind::Entry, vec![], Terminator::SwitchInt { targets: vec![1, 2], otherwise: 3 }));
    let b1 = g.add_node(block(1, BlockKind::Exit, vec!["case 1".to_string()], Terminator::Return));
    let b2 = g.add_node(block(2, BlockKind::Exit, vec!["case 2".to_string()], Terminator::Return));
    let b3 = g.add_node(block(3, BlockKind::Exit, vec!["default".to_string()], Terminator::Return));
    g.add_edge(b0, b1, EdgeType::TrueBranch);
    g.add_edge(b0, b2, EdgeType::TrueBranch);
    g.add_edge(b0, b3, EdgeType::FalseBranch);
    let patterns = detect_match_patterns(&g);
    assert_eq!(patterns.len(), 1);
    let pattern = &patterns[0];
    assert_eq!(pattern.switch_node, 0);
    assert_eq!(pattern.targets.len(), 2);
    assert_eq!(pattern.otherwise, 3);
    assert_eq!(pattern.branch_count(), 3);
}

#[test]
fn test_classify_multiway() {
    let mut g: Cfg = DiGraph::new();
    let b0 = g.add_node(block(0, BlockKind::Entry, vec![], Terminator::SwitchInt { targets: vec![1, 2], otherwise: 3 }));
    for i in 1..=3 {
        g.add_node(block(i, BlockKind::Exit, vec![], Terminator::Return));
    }
    for i in 1..=3 {
        g.add_edge(b0, NodeIndex::new(i), EdgeType::TrueBranch);
    }
    assert_eq!(classify_branch(&g, 0), BranchType::MultiWay);
}

#[test]
fn test_detect_all_patterns() {
    let mut g: Cfg = DiGraph::new();
    let b0 = g.add_node(block(0, BlockKind::Entry, vec![], Terminator::Goto { target: 1 }));
    let b1 = g.add_node(block(1, BlockKind::Normal, vec![], Terminator::SwitchInt { targets: vec![2], otherwise: 3 }));
    let b2 = g.add_node(block(2, BlockKind::Normal, vec![], Terminator::SwitchInt { targets: vec![4, 5], otherwise: 6 }));
    let b3 = g.add_node(block(3, BlockKind::Normal, vec![], Terminator::Goto { target: 7 }));
    let b4 = g.add_node(block(4, BlockKind::Normal, vec![], Terminator::Goto { target: 7 }));
    let b5 = g.add_node(block(5, BlockKind::Normal, vec![], Terminator::Goto { target: 7 }));
    let b6 = g.add_node(block(6, BlockKind::Normal, vec![], Terminator::Goto { target: 7 }));
    let b7 = g.add_node(block(7, BlockKind::Exit, vec![], Terminator::Return));
    g.add_edge(b0, b1, EdgeType::Fallthrough);
    g.add_edge(b1, b2, EdgeType::TrueBranch);
    g.add_edge(b1, b3, EdgeType::FalseBranch);
    g.add_edge(b2, b4, EdgeType::TrueBranch);
    g.add_edge(b2, b5, EdgeType::TrueBranch);
    g.add_edge(b2, b6, EdgeType::FalseBranch);
    g.add_edge(b3, b7, EdgeType::Fallthrough);
    g.add_edge(b4, b7, EdgeType::Fallthrough);
    g.add_edge(b5, b7, EdgeType::Fallthrough);
    g.add_edge(b6, b7, EdgeType::Fallthrough);
    let (if_patterns, match_patterns) = detect_all_patterns(&g);
    assert_eq!(if_patterns.len(), 1);
    assert_eq!(if_patterns[0].condition, 1);
    assert_eq!(match_patterns.len(), 1);
    assert_eq!(match_patterns[0].switch_node, 2);
    assert_eq!(match_patterns[0].targets.len(), 2);
    assert_eq!(match_patterns[0].branch_count(), 3);
}

#[test]
fn patterns_test_empty_cfg() {
    let cfg: Cfg = DiGraph::new();
    assert!(detect_if_else_patterns(&cfg).is_empty());
    assert!(detect_match_patterns(&cfg).is_empty());
}

#[test]
fn test_linear_cfg_no_patterns() {
    let mut g: Cfg = DiGraph::new();
    let b0 = g.add_node(block(0, BlockKind::Entry, vec![], Terminator::Goto { target: 1 }));
    let b1 = g.add_node(block(1, BlockKind::Normal, vec![], Terminator::Goto { target: 2 }));
    let b2 = g.add_node(block(2, BlockKind::Exit, vec![], Terminator::Return));
    g.add_edge(b0, b1, EdgeType::Fallthrough);
    g.add_edge(b1, b2, EdgeType::Fallthrough);
    assert!(detect_if_else_patterns(&g).is_empty());
    assert!(detect_match_patterns(&g).is_empty());
}

#[test]
fn common_successor_found_through_longer_branch() {
    // 0 -> {1, 2}; 1 -> 3 -> 4; 2 -> 4: the branches first meet at 4.
    let mut g: Cfg = DiGraph::new();
    let b0 = g.add_node(block(0, BlockKind::Entry, vec![], Terminator::SwitchInt { targets: vec![1], otherwise: 2 }));
    let b1 = g.add_node(block(1, BlockKind::Normal, vec![], Terminator::Goto { target: 3 }));
    let b2 = g.add_node(block(2, BlockKind::Normal, vec![], Terminator::Goto { target: 4 }));
    let b3 = g.add_node(block(3, BlockKind::Normal, vec![], Terminator::Goto { target: 4 }));
    let b4 = g.add_node(block(4, BlockKind::Exit, vec![], Terminator::Return));
    g.add_edge(b0, b1, EdgeType::TrueBranch);
    g.add_edge(b0, b2, EdgeType::FalseBranch);
    g.add_edge(b1, b3, EdgeType::Fallthrough);
    g.add_edge(b2, b4, EdgeType::Fallthrough);
    g.add_edge(b3, b4, EdgeType::Fallthrough);
    assert_eq!(find_common_successor(&g, 1, 2), Some(4));
    assert_eq!(find_common_successor(&g, 3, 4), None);
}
