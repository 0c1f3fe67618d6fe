use flatgraph::builder::Builder;
use flatgraph::error::GraphError;
use flatgraph::graph::{Endpoint, Strand};
use flatgraph::loader::load;

fn forward(node: usize) -> Endpoint {
    Endpoint { node, strand: Strand::Forward }
}

#[test]
fn ids_are_given_in_order_from_zero() {
    let mut b = Builder::new();
    assert_eq!(b.node_count(), 0);
    assert_eq!(b.path_count(), 0);
    assert_eq!(b.add_node(b"A"), 0);
    assert_eq!(b.begin_path(b"a"), 0);
    assert_eq!(b.add_node(b""), 1);
    assert_eq!(b.add_node(b"A"), 2);
    assert_eq!(b.begin_path(b"a"), 1);
    assert_eq!(b.node_count(), 3);
    assert_eq!(b.path_count(), 2);
}

#[test]
fn edge_to_a_missing_node_is_dangling() {
    let mut b = Builder::new();
    b.add_node(b"A");
    b.add_edge(forward(0), forward(0));
    b.add_edge(forward(0), forward(5));
    b.add_edge(forward(9), forward(0));
    assert_eq!(b.finish().err(), Some(GraphError::DanglingEdge { from: 0, to: 5 }));
    let mut b = Builder::new();
    b.add_node(b"A");
    b.add_edge(forward(1), forward(0));
    assert_eq!(b.finish().err(), Some(GraphError::DanglingEdge { from: 1, to: 0 }));
    let mut b = Builder::new();
    b.add_edge(forward(0), forward(0));
    assert_eq!(b.finish().err(), Some(GraphError::DanglingEdge { from: 0, to: 0 }));
}

#[test]
fn edge_may_come_before_its_nodes() {
    let mut b = Builder::new();
    b.add_edge(forward(1), forward(0));
    assert!(b.finish().is_err());
    b.add_node(b"A");
    assert!(b.finish().is_err());
    b.add_node(b"C");
    let image = b.finish().unwrap();
    let view = load(&image).unwrap();
    assert_eq!(view.neighbors(1, Strand::Forward).unwrap().to_vec(), vec![forward(0)]);
    assert_eq!(view.neighbors(0, Strand::Forward).unwrap().to_vec(), vec![]);
}

#[test]
fn step_on_an_unknown_path_is_out_of_range() {
    let mut b = Builder::new();
    b.add_node(b"A");
    assert_eq!(
        b.add_step(0, 0, Strand::Forward),
        Err(GraphError::PathOutOfRange { id: 0, count: 0 })
    );
    b.begin_path(b"p");
    assert_eq!(
        b.add_step(3, 0, Strand::Forward),
        Err(GraphError::PathOutOfRange { id: 3, count: 1 })
    );
    assert_eq!(b.add_step(0, 0, Strand::Reverse), Ok(()));
    let image = b.finish().unwrap();
    let view = load(&image).unwrap();
    assert_eq!(view.path(0).unwrap().step_count(), 1);
}

#[test]
fn step_on_a_missing_node_is_out_of_range() {
    let mut b = Builder::new();
    b.add_node(b"A");
    b.add_node(b"C");
    b.begin_path(b"p");
    b.begin_path(b"q");
    b.add_step(1, 4, Strand::Forward).unwrap();
    b.add_step(0, 1, Strand::Forward).unwrap();
    b.add_step(0, 2, Strand::Reverse).unwrap();
    b.add_step(0, 3, Strand::Forward).unwrap();
    assert_eq!(b.finish().err(), Some(GraphError::NodeOutOfRange { id: 2, count: 2 }));
    // a dangling edge is reported before a step on a missing node
    b.add_edge(forward(0), forward(2));
    assert_eq!(b.finish().err(), Some(GraphError::DanglingEdge { from: 0, to: 2 }));
}

#[test]
fn finish_can_be_called_again() {
    let mut b = Builder::new();
    b.add_node(b"ACGT");
    let first = b.finish().unwrap();
    assert_eq!(b.finish().unwrap(), first);
    b.add_node(b"T");
    let second = b.finish().unwrap();
    assert_eq!(load(&first).unwrap().node_count(), 1);
    assert_eq!(load(&second).unwrap().node_count(), 2);
}

#[test]
fn errors_compare_by_their_values() {
    assert_eq!(GraphError::IoError { os_code: Some(2) }, GraphError::IoError { os_code: Some(2) });
    assert_ne!(GraphError::IoError { os_code: Some(2) }, GraphError::IoError { os_code: None });
    assert_ne!(
        GraphError::NodeOutOfRange { id: 1, count: 1 },
        GraphError::PathOutOfRange { id: 1, count: 1 }
    );
    assert_eq!(
        format!("{:?}", GraphError::AlignmentError { segment: 1, offset: 153 }),
        "AlignmentError { segment: 1, offset: 153 }"
    );
}
