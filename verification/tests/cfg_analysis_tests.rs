use mirage_analyzer::cfg::analysis::{find_entry, find_exits, is_branch_point, is_exit_block, is_merge_point};
use mirage_analyzer::cfg::edge::EdgeType;
use mirage_analyzer::cfg::{BasicBlock, BlockKind, Cfg, Terminator};
use petgraph::graph::{DiGraph, NodeIndex};

fn block(id: usize, kind: BlockKind, terminator: Terminator) -> BasicBlock {
    BasicBlock {
        id,
        db_id: None,
        kind,
        statements: vec![],
        terminator,
        source_location: None,
        coord_x: 0,
        coord_y: 0,
        coord_z: 0,
    }
}

fn create_test_cfg() -> Cfg {
    let mut g = DiGraph::new();
    let b0 = g.add_node(block(0, BlockKind::Entry, Terminator::Goto { target: 1 }));
    let b1 = g.add_node(block(1, BlockKind::Normal, Terminator::SwitchInt { targets: vec![2], otherwise: 3 }));
    let b2 = g.add_node(block(2, BlockKind::Exit, Terminator::Return));
    let b3 = g.add_node(block(3, BlockKind::Exit, Terminator::Return));
    g.add_edge(b0, b1, EdgeType::Fallthrough);
    g.add_edge(b1, b2, EdgeType::TrueBranch);
    g.add_edge(b1, b3, EdgeType::FalseBranch);
    g
}

#[test]
fn test_find_entry() {
    let cfg = create_test_cfg();
    let entry = find_entry(&cfg);
    assert!(entry.is_some());
    assert_eq!(entry.unwrap(), 0);
}

#[test]
fn test_find_exits() {
    let cfg = create_test_cfg();
    let exits = find_exits(&cfg);
    assert_eq!(exits.len(), 2);
    let exit_ids: Vec<usize> = exits.iter().map(|&idx| cfg.node_weight(NodeIndex::new(idx)).unwrap().id).collect();
    assert!(exit_ids.contains(&2));
    assert!(exit_ids.contains(&3));
}

#[test]
fn test_is_exit_block() {
    let cfg = create_test_cfg();
    assert!(!is_exit_block(&cfg, 0));
    assert!(!is_exit_block(&cfg, 1));
    assert!(is_exit_block(&cfg, 2));
    assert!(is_exit_block(&cfg, 3));
}

#[test]
fn test_is_branch_point() {
    let cfg = create_test_cfg();
    assert!(!is_branch_point(&cfg, 0));
    assert!(is_branch_point(&cfg, 1));
    assert!(!is_branch_point(&cfg, 2));
}

#[test]
fn test_is_merge_point() {
    let cfg = create_test_cfg();
    assert!(!is_merge_point(&cfg, 0));
    assert!(!is_merge_point(&cfg, 1));
}

#[test]
fn test_is_merge_point_with_actual_merge() {
    let mut g: Cfg = DiGraph::new();
    let b0 = g.add_node(block(0, BlockKind::Entry, Terminator::SwitchInt { targets: vec![1], otherwise: 2 }));
    let b1 = g.add_node(block(1, BlockKind::Normal, Terminator::Goto { target: 3 }));
    let b2 = g.add_node(block(2, BlockKind::Normal, Terminator::Goto { target: 3 }));
    let b3 = g.add_node(block(3, BlockKind::Exit, Terminator::Return));
    g.add_edge(b0, b1, EdgeType::TrueBranch);
    g.add_edge(b0, b2, EdgeType::FalseBranch);
    g.add_edge(b1, b3, EdgeType::Fallthrough);
    g.add_edge(b2, b3, EdgeType::Fallthrough);
    assert!(!is_merge_point(&g, b0.index()));
    assert!(!is_merge_point(&g, b1.index()));
    assert!(!is_merge_point(&g, b2.index()));
    assert!(is_merge_point(&g, b3.index()));
}

#[test]
fn test_multiple_exits_with_unwind() {
    let mut g: Cfg = DiGraph::new();
    let b0 = g.add_node(block(0, BlockKind::Entry, Terminator::Call { target: Some(1), unwind: Some(2) }));
    let b1 = g.add_node(block(1, BlockKind::Exit, Terminator::Return));
    let b2 = g.add_node(block(2, BlockKind::Exit, Terminator::Abort("panic".to_string())));
    g.add_edge(b0, b1, EdgeType::Call);
    g.add_edge(b0, b2, EdgeType::Exception);
    let exits = find_exits(&g);
    assert_eq!(exits.len(), 2);
}

#[test]
fn analysis_test_empty_cfg() {
    let cfg: Cfg = DiGraph::new();
    assert!(find_entry(&cfg).is_none());
    assert!(find_exits(&cfg).is_empty());
}

#[test]
fn test_single_block_cfg() {
    let mut g: Cfg = DiGraph::new();
    let b0 = g.add_node(block(0, BlockKind::Entry, Terminator::Return));
    assert_eq!(find_entry(&g), Some(b0.index()));
    assert_eq!(find_exits(&g), vec![b0.index()]);
}

#[test]
fn test_unreachable_exit() {
    let mut g: Cfg = DiGraph::new();
    let b0 = g.add_node(block(0, BlockKind::Entry, Terminator::Goto { target: 1 }));
    let b1 = g.add_node(block(1, BlockKind::Normal, Terminator::Return));
    let _b2 = g.add_node(block(2, BlockKind::Exit, Terminator::Unreachable));
    g.add_edge(b0, b1, EdgeType::Fallthrough);
    let exits = find_exits(&g);
    assert_eq!(exits.len(), 2);
    let exit_ids: Vec<usize> = exits.iter().map(|&idx| g.node_weight(NodeIndex::new(idx)).unwrap().id).collect();
    assert!(exit_ids.contains(&1));
    assert!(exit_ids.contains(&2));
}
