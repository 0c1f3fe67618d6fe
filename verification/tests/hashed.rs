use flatgraph::error::GraphError;
use flatgraph::hashed::hash_path_summary;
use flatgraph::summary::PathSummary;
use handlegraph::hashgraph::HashGraph;
use handlegraph::mutablehandlegraph::AdditiveHandleGraph;
use handlegraph::pathhandlegraph::MutableGraphPaths;

#[test]
fn summary_of_a_path_of_a_hash_graph() {
    let mut graph = HashGraph::new();
    let a = graph.create_handle(b"ACGT", 1u64);
    let b = graph.create_handle(b"GG", 2u64);
    let walk = graph.create_path(b"walk", false).unwrap();
    let odd = graph.create_path(b"\xff\xfe", false).unwrap();
    let bare = graph.create_path(b"bare", false).unwrap();
    graph.path_append_step(walk, a);
    graph.path_append_step(walk, b);
    graph.path_append_step(walk, a);
    graph.path_append_step(odd, b);
    assert_eq!(
        hash_path_summary(&graph, walk.0),
        PathSummary { name: Ok("walk".to_string()), steps: 3 }
    );
    assert_eq!(
        hash_path_summary(&graph, odd.0),
        PathSummary { name: Err(GraphError::InvalidUtf8 { path: odd.0 }), steps: 1 }
    );
    assert_eq!(
        hash_path_summary(&graph, bare.0),
        PathSummary { name: Ok("bare".to_string()), steps: 0 }
    );
}

#[test]
fn summary_of_a_path_that_a_hash_graph_does_not_hold() {
    let mut graph = HashGraph::new();
    let a = graph.create_handle(b"ACGT", 1u64);
    let walk = graph.create_path(b"walk", false).unwrap();
    graph.path_append_step(walk, a);
    assert_eq!(
        hash_path_summary(&graph, walk.0 + 40),
        PathSummary { name: Ok(String::new()), steps: 0 }
    );
    assert_eq!(
        hash_path_summary(&HashGraph::new(), 0),
        PathSummary { name: Ok(String::new()), steps: 0 }
    );
}
