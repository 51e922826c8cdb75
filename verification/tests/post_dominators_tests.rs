use mirage_analyzer::cfg::edge::EdgeType;
use mirage_analyzer::cfg::post_dominators::PostDominatorTree;
use mirage_analyzer::cfg::{BasicBlock, BlockKind, Cfg, Terminator};
use petgraph::graph::DiGraph;
use petgraph::visit::Reversed;
use petgraph::visit::{EdgeCount, NodeCount};

fn block(id: usize, kind: BlockKind, statements: Vec<String>, terminator: Terminator) -> BasicBlock {
    BasicBlock {
        id,
        db_id: None,
        kind,
        statements,
        terminator,
        source_location: None,
        coord_x: 0,
        coord_y: 0,
        coord_z: 0,
    }
}

/// Diamond: 0 -> {1, 2} -> 3
fn create_diamond_cfg() -> Cfg {
    let mut g = DiGraph::new();
    let b0 = g.add_node(block(0, BlockKind::Entry, vec![], Terminator::SwitchInt { targets: vec![1], otherwise: 2 }));
    let b1 = g.add_node(block(1, BlockKind::Normal, vec!["branch 1".to_string()], Terminator::Goto { target: 3 }));
    let b2 = g.add_node(block(2, BlockKind::Normal, vec!["branch 2".to_string()], Terminator::Goto { target: 3 }));
    let b3 = g.add_node(block(3, BlockKind::Exit, vec![], Terminator::Return));
    g.add_edge(b0, b1, EdgeType::TrueBranch);
    g.add_edge(b0, b2, EdgeType::FalseBranch);
    g.add_edge(b1, b3, EdgeType::Fallthrough);
    g.add_edge(b2, b3, EdgeType::Fallthrough);
    g
}

#[test]
fn test_post_dominator_tree_construction() {
    let cfg = create_diamond_cfg();
    let t = PostDominatorTree::new(&cfg).expect("CFG has exit");
    assert_eq!(t.root(), 3);
    assert_eq!(t.immediate_post_dominator(3), None);
    assert_eq!(t.immediate_post_dominator(1), Some(3));
    assert_eq!(t.immediate_post_dominator(2), Some(3));
    assert_eq!(t.immediate_post_dominator(0), Some(3));
}

#[test]
fn test_post_dominates() {
    let cfg = create_diamond_cfg();
    let t = PostDominatorTree::new(&cfg).expect("CFG has exit");
    assert!(t.post_dominates(3, 3));
    assert!(t.post_dominates(3, 0));
    assert!(!t.post_dominates(0, 3));
    assert!(t.post_dominates(0, 0));
    assert!(t.post_dominates(3, 3));
}

#[test]
fn post_dominators_test_children() {
    let cfg = create_diamond_cfg();
    let t = PostDominatorTree::new(&cfg).expect("CFG has exit");
    let children = t.children(3);
    assert_eq!(children.len(), 3);
    assert!(children.contains(&0));
    assert!(children.contains(&1));
    assert!(children.contains(&2));
}

#[test]
fn test_strictly_post_dominates() {
    let cfg = create_diamond_cfg();
    let t = PostDominatorTree::new(&cfg).expect("CFG has exit");
    assert!(t.strictly_post_dominates(3, 1));
    assert!(!t.strictly_post_dominates(3, 3));
}

#[test]
fn test_post_dominators_iterator() {
    let cfg = create_diamond_cfg();
    let t = PostDominatorTree::new(&cfg).expect("CFG has exit");
    let pdoms: Vec<usize> = t.post_dominators(0);
    assert_eq!(pdoms.len(), 2);
    assert_eq!(pdoms[0], 0);
    assert_eq!(pdoms[1], 3);
}

#[test]
fn test_common_post_dominator() {
    let cfg = create_diamond_cfg();
    let t = PostDominatorTree::new(&cfg).expect("CFG has exit");
    assert_eq!(t.common_post_dominator(1, 2), Some(3));
    assert_eq!(t.common_post_dominator(1, 1), Some(1));
}

#[test]
fn post_dominators_test_depth() {
    let cfg = create_diamond_cfg();
    let t = PostDominatorTree::new(&cfg).expect("CFG has exit");
    assert_eq!(t.depth(3), 0);
    assert_eq!(t.depth(0), 1);
    assert_eq!(t.depth(1), 1);
    assert_eq!(t.depth(2), 1);
}

#[test]
fn post_dominators_test_empty_cfg() {
    let cfg: Cfg = DiGraph::new();
    assert!(PostDominatorTree::new(&cfg).is_none());
}

#[test]
fn post_dominators_test_linear_cfg() {
    let mut g: Cfg = DiGraph::new();
    let b0 = g.add_node(block(0, BlockKind::Entry, vec![], Terminator::Goto { target: 1 }));
    let b1 = g.add_node(block(1, BlockKind::Normal, vec![], Terminator::Goto { target: 2 }));
    let b2 = g.add_node(block(2, BlockKind::Normal, vec![], Terminator::Goto { target: 3 }));
    let b3 = g.add_node(block(3, BlockKind::Exit, vec![], Terminator::Return));
    g.add_edge(b0, b1, EdgeType::Fallthrough);
    g.add_edge(b1, b2, EdgeType::Fallthrough);
    g.add_edge(b2, b3, EdgeType::Fallthrough);
    let t = PostDominatorTree::new(&g).expect("CFG has exit");
    assert_eq!(t.immediate_post_dominator(b3.index()), None);
    assert_eq!(t.immediate_post_dominator(b2.index()), Some(b3.index()));
    assert_eq!(t.immediate_post_dominator(b1.index()), Some(b2.index()));
    assert_eq!(t.immediate_post_dominator(b0.index()), Some(b1.index()));
}

#[test]
fn test_reversed_is_zero_copy() {
    let cfg = create_diamond_cfg();
    let reversed = Reversed(&cfg);
    assert_eq!(reversed.node_count(), cfg.node_count());
    assert_eq!(reversed.edge_count(), cfg.edge_count());
}
