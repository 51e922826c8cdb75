use mirage_analyzer::analysis::call_graph::call_graph_metrics;

#[test]
fn call_graph_metrics_counts_degrees_and_cycles() {
    // 1 -> 2 -> 3 -> 1 is a cycle; 3 -> 4 leaves it; 4 -> 4 calls itself
    let edges = vec![(1, 2), (2, 3), (3, 1), (3, 4), (4, 4)];
    let m = call_graph_metrics(&edges);
    assert_eq!(m.symbols, vec![1, 2, 3, 4]);
    assert_eq!(m.degree, vec![2, 2, 3, 3]);
    assert_eq!(m.scc_size, vec![3, 3, 3, 1]);
}

#[test]
fn call_graph_metrics_of_no_calls_is_empty() {
    let m = call_graph_metrics(&vec![]);
    assert!(m.symbols.is_empty());
    assert!(m.degree.is_empty());
    assert!(m.scc_size.is_empty());
}

#[test]
fn call_graph_metrics_acyclic_chain() {
    let m = call_graph_metrics(&vec![(10, 20), (20, 30)]);
    assert_eq!(m.symbols, vec![10, 20, 30]);
    assert_eq!(m.degree, vec![1, 2, 1]);
    assert_eq!(m.scc_size, vec![1, 1, 1]);
}
