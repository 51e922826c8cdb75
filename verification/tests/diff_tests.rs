use std::collections::HashMap;
use mirage_analyzer::cfg::block_graph::{blocks_to_petgraph, CfgBlockData};
use mirage_analyzer::cfg::diff::{compute_edge_diff, derive_edges, BlockDiff};

fn block(id: i64, kind: &str, terminator: &str, location: &str) -> BlockDiff {
    BlockDiff {
        block_id: id,
        kind: kind.to_string(),
        terminator: terminator.to_string(),
        source_location: location.to_string(),
    }
}

#[test]
fn test_block_diff_equality() {
    let block1 = BlockDiff {
        block_id: 1,
        kind: "entry".to_string(),
        terminator: "fallthrough".to_string(),
        source_location: "1:0-10:0".to_string(),
    };

    let block2 = BlockDiff {
        block_id: 1,
        kind: "entry".to_string(),
        terminator: "fallthrough".to_string(),
        source_location: "1:0-10:0".to_string(),
    };

    assert_eq!(block1, block2);
}

#[test]
fn test_derive_edges() {
    let mut blocks = HashMap::new();

    blocks.insert(0, block(0, "entry", "fallthrough", "1:0-5:0"));
    blocks.insert(1, block(1, "normal", "return", "5:0-10:0"));

    let edges = derive_edges(&blocks);

    assert_eq!(edges.len(), 1);
    assert_eq!(edges[0].from_block, 0);
    assert_eq!(edges[0].to_block, 1);
    assert_eq!(edges[0].edge_type, "fallthrough");
}

#[test]
fn test_compute_edge_diff() {
    let mut before = HashMap::new();
    before.insert(0, block(0, "entry", "fallthrough", "1:0-5:0"));
    before.insert(1, block(1, "normal", "return", "5:0-10:0"));

    let mut after = HashMap::new();
    after.insert(0, block(0, "entry", "return", "1:0-5:0"));
    after.insert(1, block(1, "normal", "return", "5:0-10:0"));

    let (added, deleted) = compute_edge_diff(&before, &after).unwrap();

    assert_eq!(added.len(), 0);
    assert_eq!(deleted.len(), 1);
}

#[test]
fn conditional_derives_true_and_false_edges() {
    let mut blocks = HashMap::new();
    blocks.insert(0, block(0, "entry", "conditional", "1:0-2:0"));
    blocks.insert(1, block(1, "normal", "return", "2:0-3:0"));
    blocks.insert(2, block(2, "normal", "return", "3:0-4:0"));

    let edges = derive_edges(&blocks);
    assert_eq!(edges.len(), 2);
    assert!(edges.iter().any(|e| e.from_block == 0 && e.to_block == 1 && e.edge_type == "true_branch"));
    assert!(edges.iter().any(|e| e.from_block == 0 && e.to_block == 2 && e.edge_type == "false_branch"));
}

#[test]
fn unchanged_cfg_has_no_edge_difference() {
    let mut before = HashMap::new();
    before.insert(0, block(0, "entry", "fallthrough", "1:0-5:0"));
    before.insert(1, block(1, "normal", "return", "5:0-10:0"));
    let mut after = HashMap::new();
    after.insert(0, block(0, "entry", "fallthrough", "1:0-5:0"));
    after.insert(1, block(1, "normal", "return", "5:0-10:0"));

    let (added, deleted) = compute_edge_diff(&before, &after).unwrap();
    assert!(added.is_empty());
    assert!(deleted.is_empty());
}

fn stored_block(id: i64, kind: &str, terminator: &str, start: u64, end: u64, l0: u64, l1: u64) -> CfgBlockData {
    CfgBlockData {
        id,
        kind: kind.to_string(),
        terminator: terminator.to_string(),
        byte_start: start,
        byte_end: end,
        start_line: l0,
        start_col: 0,
        end_line: l1,
        end_col: 0,
    }
}

#[test]
fn test_blocks_to_petgraph() {
    let blocks = vec![
        stored_block(0, "entry", "fallthrough", 0, 10, 1, 2),
        stored_block(1, "normal", "return", 10, 20, 2, 3),
    ];
    let graph = blocks_to_petgraph(&blocks);
    assert_eq!(graph.node_count(), 2);
    assert_eq!(graph.edge_count(), 1);
}

#[test]
fn blocks_to_petgraph_conditional_reaches_next_two() {
    let blocks = vec![
        stored_block(0, "entry", "conditional", 0, 10, 1, 2),
        stored_block(1, "normal", "goto", 10, 20, 2, 3),
        stored_block(2, "normal", "conditional", 20, 30, 3, 4),
        stored_block(3, "exit", "return", 30, 40, 4, 5),
    ];
    let graph = blocks_to_petgraph(&blocks);
    let weights: Vec<i64> = graph.node_indices().map(|i| graph[i]).collect();
    assert_eq!(weights, vec![0, 1, 2, 3]);
    let edges: Vec<(usize, usize)> =
        graph.raw_edges().iter().map(|e| (e.source().index(), e.target().index())).collect();
    assert_eq!(edges, vec![(0, 1), (0, 2), (1, 2), (2, 3)]);
}

#[test]
fn stored_rows_become_positional_block_diffs() {
    let rows = vec![
        stored_block(40, "entry", "conditional", 0, 10, 1, 2),
        stored_block(41, "exit", "return", 10, 20, 2, 3),
    ];
    let diffs = mirage_analyzer::cfg::diff::block_diffs_from_rows(&rows);
    assert_eq!(diffs.len(), 2);
    assert_eq!(diffs[0].block_id, 0);
    assert_eq!(diffs[1].block_id, 1);
    assert_eq!(diffs[0].kind, "entry");
    assert_eq!(diffs[0].terminator, "conditional");
    assert_eq!(diffs[0].source_location, ":1:0-2:0");
    assert_eq!(diffs[1].source_location, ":2:0-3:0");
}
