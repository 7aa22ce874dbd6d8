use block_executor::dependency_graph::DependencyGraph;
use block_executor::partitioner::get_shard_for_index;
use block_executor::transaction::AnalyzedTransaction;

#[test]
// Two transactions conflict exactly when one writes what the other touches.
fn test_conflict_relation() {
    let a = AnalyzedTransaction::new(Some(1), vec![10, 11], vec![10, 11]);
    let b = AnalyzedTransaction::new(Some(2), vec![11, 12], vec![12]);
    let c = AnalyzedTransaction::new(Some(3), vec![20], vec![21]);
    // a writes 11, which b reads.
    assert!(a.conflicts_with(&b));
    assert!(b.conflicts_with(&a));
    assert!(!a.conflicts_with(&c));
    assert!(!c.conflicts_with(&b));
}

#[test]
// The graph links each transaction to every conflicting neighbour, in both
// directions, and to nothing else.
fn test_dependency_graph_neighbours() {
    let txns = vec![
        AnalyzedTransaction::new(Some(1), vec![10], vec![10]),
        AnalyzedTransaction::new(Some(2), vec![20], vec![20]),
        AnalyzedTransaction::new(Some(1), vec![10], vec![10]),
    ];
    let graph = DependencyGraph::create_dependency_graph(&txns);
    assert_eq!(graph.get_dependent_nodes(0), &vec![2]);
    assert_eq!(graph.get_dependent_nodes(1), &Vec::<usize>::new());
    assert_eq!(graph.get_dependent_nodes(2), &vec![0]);
}

#[test]
// Positional chunking: the shard of an index is the index over the chunk width.
fn test_get_shard_for_index() {
    assert_eq!(get_shard_for_index(3, 0), 0);
    assert_eq!(get_shard_for_index(3, 2), 0);
    assert_eq!(get_shard_for_index(3, 3), 1);
    assert_eq!(get_shard_for_index(3, 8), 2);
    assert_eq!(get_shard_for_index(3, 9), 3);
    assert_eq!(get_shard_for_index(1, 5), 5);
}
