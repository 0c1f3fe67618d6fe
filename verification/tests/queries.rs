use flatgraph::builder::Builder;
use flatgraph::error::GraphError;
use flatgraph::graph::{Endpoint, Step, Strand};
use flatgraph::loader::load;
use flatgraph::summary::{path_summaries, summarize, PathSummary};
use flatgraph::text::decode_text;

fn end(node: usize, strand: Strand) -> Endpoint {
    Endpoint { node, strand }
}

fn sample() -> Vec<u8> {
    let mut b = Builder::new();
    b.add_node(b"AAA");
    b.add_node(b"");
    b.add_node(b"CC");
    b.add_edge(end(0, Strand::Forward), end(1, Strand::Forward));
    b.add_edge(end(0, Strand::Reverse), end(2, Strand::Reverse));
    b.add_edge(end(2, Strand::Forward), end(0, Strand::Forward));
    b.add_edge(end(0, Strand::Forward), end(2, Strand::Forward));
    b.begin_path(b"walk");
    b.begin_path(b"\xff\xfe");
    b.begin_path(b"");
    b.add_step(0, 0, Strand::Forward).unwrap();
    b.add_step(1, 2, Strand::Reverse).unwrap();
    b.add_step(0, 2, Strand::Forward).unwrap();
    b.finish().unwrap()
}

#[test]
fn counts_are_not_ids() {
    let image = sample();
    let view = load(&image).unwrap();
    assert_eq!(view.node_count(), 3);
    assert_eq!(view.path_count(), 3);
    assert_eq!(
        view.node(view.node_count()).err(),
        Some(GraphError::NodeOutOfRange { id: 3, count: 3 })
    );
    assert_eq!(
        view.path(view.path_count()).err(),
        Some(GraphError::PathOutOfRange { id: 3, count: 3 })
    );
    assert_eq!(
        view.neighbors(7, Strand::Forward).err(),
        Some(GraphError::NodeOutOfRange { id: 7, count: 3 })
    );
    assert_eq!(view.path_steps(3).err(), Some(GraphError::PathOutOfRange { id: 3, count: 3 }));
    assert_eq!(view.path_name(4).err(), Some(GraphError::PathOutOfRange { id: 4, count: 3 }));
    assert_eq!(view.path_name_str(5).err(), Some(GraphError::PathOutOfRange { id: 5, count: 3 }));
    assert!(view.node(2).is_ok());
    assert!(view.path(2).is_ok());
}

#[test]
fn neighbors_are_filtered_by_the_strand_of_leaving() {
    let image = sample();
    let view = load(&image).unwrap();
    assert_eq!(
        view.neighbors(0, Strand::Forward).unwrap().to_vec(),
        vec![end(1, Strand::Forward), end(2, Strand::Forward)]
    );
    assert_eq!(
        view.neighbors(0, Strand::Reverse).unwrap().to_vec(),
        vec![end(2, Strand::Reverse)]
    );
    assert_eq!(view.neighbors(1, Strand::Forward).unwrap().to_vec(), vec![]);
    assert_eq!(view.neighbors(2, Strand::Reverse).unwrap().to_vec(), vec![]);
    let mut cursor = view.neighbors(0, Strand::Forward).unwrap();
    assert_eq!(cursor.next(), Some(end(1, Strand::Forward)));
    assert_eq!(cursor.next(), Some(end(2, Strand::Forward)));
    assert_eq!(cursor.next(), None);
    assert_eq!(cursor.next(), None);
}

#[test]
fn path_steps_can_be_walked_again_from_the_start() {
    let image = sample();
    let view = load(&image).unwrap();
    let expected = vec![
        Step { node: 0, strand: Strand::Forward },
        Step { node: 2, strand: Strand::Forward },
    ];
    let mut first = view.path_steps(0).unwrap();
    assert_eq!(first.len(), 2);
    assert_eq!(first.next(), Some(expected[0]));
    let mut second = view.path_steps(0).unwrap();
    assert_eq!(second.to_vec(), expected);
    assert_eq!(second.next(), Some(expected[0]));
    assert_eq!(first.len(), 1);
    assert_eq!(first.to_vec(), vec![expected[1]]);
    assert_eq!(first.next(), Some(expected[1]));
    assert_eq!(first.next(), None);
    assert_eq!(first.len(), 0);
    assert_eq!(second.next(), Some(expected[1]));
    assert_eq!(second.next(), None);
    assert_eq!(view.path_steps(0).unwrap().to_vec(), view.path_steps(0).unwrap().to_vec());
    assert_eq!(view.path_steps(2).unwrap().to_vec(), vec![]);
}

#[test]
fn names_are_bytes_until_text_is_asked_for() {
    let image = sample();
    let view = load(&image).unwrap();
    assert_eq!(view.path_name(1), Ok(&b"\xff\xfe"[..]));
    assert_eq!(view.path_name_str(1), Err(GraphError::InvalidUtf8 { path: 1 }));
    assert_eq!(view.path(1).unwrap().text(), Err(GraphError::InvalidUtf8 { path: 1 }));
    assert_eq!(view.path_name_str(0), Ok("walk"));
    assert_eq!(view.path(0).unwrap().text(), Ok("walk"));
    assert_eq!(view.path_name_str(2), Ok(""));
}

#[test]
fn text_is_strict_utf8() {
    assert_eq!(decode_text(b"plain", 4), Ok("plain"));
    assert_eq!(decode_text("gr\u{fc}n \u{1f600}".as_bytes(), 4), Ok("gr\u{fc}n \u{1f600}"));
    // an overlong encoding, a surrogate, a cut sequence, a stray continuation byte
    assert_eq!(decode_text(b"\xc0\x80", 4), Err(GraphError::InvalidUtf8 { path: 4 }));
    assert_eq!(decode_text(b"\xed\xa0\x80", 9), Err(GraphError::InvalidUtf8 { path: 9 }));
    assert_eq!(decode_text(b"ab\xe2\x82", 0), Err(GraphError::InvalidUtf8 { path: 0 }));
    assert_eq!(decode_text(b"\x80", 1), Err(GraphError::InvalidUtf8 { path: 1 }));
    assert_eq!(decode_text(b"\xf4\x90\x80\x80", 1), Err(GraphError::InvalidUtf8 { path: 1 }));
}

#[test]
fn summaries_of_all_paths() {
    let image = sample();
    let view = load(&image).unwrap();
    assert_eq!(
        path_summaries(&view),
        vec![
            PathSummary { name: Ok("walk".to_string()), steps: 2 },
            PathSummary { name: Err(GraphError::InvalidUtf8 { path: 1 }), steps: 1 },
            PathSummary { name: Ok(String::new()), steps: 0 },
        ]
    );
}

#[test]
fn summary_of_a_path_that_a_graph_does_not_know() {
    assert_eq!(summarize(3, None, None), PathSummary { name: Ok(String::new()), steps: 0 });
    assert_eq!(
        summarize(3, Some(b"chr1"), None),
        PathSummary { name: Ok("chr1".to_string()), steps: 0 }
    );
    assert_eq!(summarize(3, None, Some(12)), PathSummary { name: Ok(String::new()), steps: 12 });
    assert_eq!(
        summarize(3, Some(b"\xff"), Some(5)),
        PathSummary { name: Err(GraphError::InvalidUtf8 { path: 3 }), steps: 5 }
    );
}

fn shareable<T: Send + Sync + Copy>() {}

#[test]
fn views_and_cursors_can_be_shared_and_copied() {
    shareable::<flatgraph::view::GraphView>();
    shareable::<flatgraph::view::Node>();
    shareable::<flatgraph::view::Path>();
    shareable::<flatgraph::view::Steps>();
    shareable::<flatgraph::view::Neighbors>();
    shareable::<flatgraph::store::SegmentStore>();
    let image = sample();
    let view = load(&image).unwrap();
    let copy = view;
    assert_eq!(copy.node_count(), view.node_count());
    assert_eq!(
        copy.path_steps(0).unwrap().to_vec(),
        view.path_steps(0).unwrap().to_vec()
    );
}
