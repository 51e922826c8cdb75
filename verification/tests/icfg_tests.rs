use mirage_analyzer::cfg::icfg::{enumerate_icfg_paths, Icfg, IcfgEdge, IcfgOptions};
use mirage_analyzer::cfg::icfg_builder::{CallLink, IcfgBlockRow, IcfgBuilder};
use mirage_analyzer::cfg::paths::limits::PathLimits;
use petgraph::graph::NodeIndex;
use petgraph::visit::EdgeRef;

fn row(id: i64, terminator: &str) -> IcfgBlockRow {
    IcfgBlockRow { id, terminator: terminator.to_string() }
}

const CALLER: i64 = 1;
const CALLEE: i64 = 2;

/// Caller: block 10 calls the callee, block 11 resumes and returns.
/// Callee: block 20 returns. The call is known at its call-site block.
fn build_caller_callee() -> Icfg {
    let mut builder = IcfgBuilder::new(CALLER, IcfgOptions::default());
    while let Some((function_id, depth)) = builder.next_function() {
        let (rows, neighbors, precise) = if function_id == CALLER {
            (
                vec![row(10, "call"), row(11, "return")],
                vec![CALLEE],
                vec![CallLink {
                    callee_id: CALLEE,
                    caller_call_block_id: Some(10),
                    caller_resume_block_id: Some(11),
                    callee_return_block_ids: vec![20],
                }],
            )
        } else {
            (vec![row(20, "return")], vec![], vec![])
        };
        assert!(builder.has_room_for(rows.len()));
        let callees = IcfgBuilder::select_callees(neighbors, &precise);
        builder.expand(function_id, depth, Some(format!("f{}", function_id)), &rows, callees, precise);
    }
    assert!(builder.has_room_for_links());
    builder.finish()
}

#[test]
fn test_build_icfg_stitches_real_callsite_and_resume_blocks() {
    let icfg = build_caller_callee();
    let caller_callsite_idx = icfg.node_map.get((CALLER, 10)).unwrap();
    let callee_entry_idx = icfg.node_map.get((CALLEE, -1)).unwrap();
    let callee_return_idx = icfg.node_map.get((CALLEE, 20)).unwrap();
    let caller_resume_idx = icfg.node_map.get((CALLER, 11)).unwrap();
    let has_precise_call_edge = icfg.graph.edges(NodeIndex::new(caller_callsite_idx)).any(|edge| {
        edge.target().index() == callee_entry_idx && matches!(edge.weight(), IcfgEdge::Call { .. })
    });
    assert!(has_precise_call_edge, "ICFG should connect caller callsite to callee entry");
    let has_precise_return_edge = icfg.graph.edges(NodeIndex::new(callee_return_idx)).any(|edge| {
        edge.target().index() == caller_resume_idx && matches!(edge.weight(), IcfgEdge::Return { .. })
    });
    assert!(has_precise_return_edge, "ICFG should connect callee return block to caller continuation");
}

#[test]
fn test_enumerate_icfg_paths_crosses_call_and_return_edges() {
    let icfg = build_caller_callee();
    let paths = enumerate_icfg_paths(&icfg, &PathLimits::default());
    let call = icfg.node_map.get((CALLER, 10)).unwrap();
    let ret = icfg.node_map.get((CALLEE, 20)).unwrap();
    let resume = icfg.node_map.get((CALLER, 11)).unwrap();
    assert!(
        paths.iter().any(|path| {
            let call_pos = path.blocks.iter().position(|b| *b == call);
            let return_pos = path.blocks.iter().position(|b| *b == ret);
            let resume_pos = path.blocks.iter().position(|b| *b == resume);
            matches!((call_pos, return_pos, resume_pos), (Some(c), Some(r), Some(s)) if c < r && r < s)
        }),
        "ICFG path enumeration should include caller -> callee -> caller continuation flow"
    );
}

#[test]
fn icfg_nodes_per_function() {
    let icfg = build_caller_callee();
    // entry + exit + one node per block, for both functions
    assert_eq!(icfg.graph.node_count(), 4 + 3);
    assert!(icfg.node_map.get((CALLER, -1)).is_some());
    assert!(icfg.node_map.get((CALLER, -2)).is_some());
    assert!(icfg.node_map.get((CALLEE, -2)).is_some());
    assert!(icfg.node_map.get((3, -1)).is_none());
}

#[test]
fn icfg_depth_limit_stops_expansion() {
    let options = IcfgOptions { max_depth: 0, include_return_edges: true };
    let mut builder = IcfgBuilder::new(CALLER, options);
    let mut expanded = vec![];
    while let Some((function_id, depth)) = builder.next_function() {
        expanded.push(function_id);
        let rows = vec![row(10, "return")];
        let callees = IcfgBuilder::select_callees(vec![CALLEE], &vec![]);
        builder.expand(function_id, depth, None, &rows, callees, vec![]);
    }
    assert_eq!(expanded, vec![CALLER]);
}

#[test]
fn stored_callees_fill_in_only_when_none_selected() {
    assert!(IcfgBuilder::needs_stored_callees(&vec![]));
    assert!(!IcfgBuilder::needs_stored_callees(&vec![3]));
    assert_eq!(IcfgBuilder::callees_or_stored(vec![3, 4], Some(vec![9])), vec![3, 4]);
    assert_eq!(IcfgBuilder::callees_or_stored(vec![], Some(vec![9])), vec![9]);
    assert_eq!(IcfgBuilder::callees_or_stored(vec![], None), Vec::<i64>::new());
}
