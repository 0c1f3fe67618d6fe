use flatgraph::builder::Builder;
use flatgraph::error::GraphError;
use flatgraph::graph::{Edge, Endpoint, Step, Strand};
use flatgraph::layout::decode;
use flatgraph::loader::load;
use flatgraph::store::SegmentStore;

fn forward(node: usize) -> Endpoint {
    Endpoint { node, strand: Strand::Forward }
}

fn reverse(node: usize) -> Endpoint {
    Endpoint { node, strand: Strand::Reverse }
}

fn three_node_image() -> Vec<u8> {
    let mut b = Builder::new();
    assert_eq!(b.add_node(b"ACGT"), 0);
    assert_eq!(b.add_node(b"GG"), 1);
    assert_eq!(b.add_node(b"T"), 2);
    b.add_edge(forward(0), forward(1));
    b.add_edge(forward(1), forward(2));
    assert_eq!(b.begin_path(b"p1"), 0);
    assert_eq!(b.add_step(0, 0, Strand::Forward), Ok(()));
    assert_eq!(b.add_step(0, 1, Strand::Forward), Ok(()));
    assert_eq!(b.add_step(0, 2, Strand::Forward), Ok(()));
    b.finish().unwrap()
}

fn put_u64(image: &mut [u8], at: usize, value: u64) {
    image[at..at + 8].copy_from_slice(&value.to_le_bytes());
}

#[test]
fn three_node_graph_round_trips() {
    let image = three_node_image();
    let view = load(&image).unwrap();
    assert_eq!(view.node_count(), 3);
    assert_eq!(view.path_count(), 1);
    assert_eq!(view.neighbors(0, Strand::Forward).unwrap().to_vec(), vec![forward(1)]);
    let steps = view.path_steps(0).unwrap().to_vec();
    assert_eq!(
        steps,
        vec![
            Step { node: 0, strand: Strand::Forward },
            Step { node: 1, strand: Strand::Forward },
            Step { node: 2, strand: Strand::Forward },
        ]
    );
    assert_eq!(view.path_name(0), Ok(&b"p1"[..]));
    assert_eq!(view.path_name_str(0), Ok("p1"));
    assert_eq!(view.node(0).unwrap().sequence(), b"ACGT");
    assert_eq!(view.node(1).unwrap().sequence(), b"GG");
    assert_eq!(view.node(2).unwrap().sequence(), b"T");
}

#[test]
fn truncated_image_is_rejected() {
    let image = three_node_image();
    assert_eq!(image.len(), 296);
    let cut = &image[..image.len() - 5];
    assert_eq!(
        load(cut).err(),
        Some(GraphError::TruncatedFile { offset: 280, len: 16, file_len: 291 })
    );
    let cut = &image[..150];
    assert_eq!(
        load(cut).err(),
        Some(GraphError::TruncatedFile { offset: 152, len: 32, file_len: 150 })
    );
}

#[test]
fn misaligned_segment_is_rejected() {
    let mut image = three_node_image();
    put_u64(&mut image, 12 + 16, 153);
    assert_eq!(load(&image).err(), Some(GraphError::AlignmentError { segment: 1, offset: 153 }));
    let mut image = three_node_image();
    put_u64(&mut image, 12 + 16 * 4, 236);
    put_u64(&mut image, 20 + 16 * 4, 16);
    assert_eq!(load(&image).err(), Some(GraphError::AlignmentError { segment: 4, offset: 236 }));
}

#[test]
fn byte_segments_need_no_alignment() {
    let image = three_node_image();
    let header = decode(&image).unwrap();
    assert_eq!(header.segments[0].offset, 140);
    assert_eq!(header.segments[0].len, 7);
    assert_eq!(header.segments[6].offset, 272);
    assert!(load(&image).is_ok());
}

#[test]
fn every_part_of_a_larger_graph_round_trips() {
    let sequences: Vec<Vec<u8>> = (0..20u8).map(|i| vec![b'A' + (i % 4); (i as usize * 7) % 5]).collect();
    let edges: Vec<Edge> = (0..60usize)
        .map(|k| Edge {
            from: if k % 3 == 0 { reverse((k * 7) % 20) } else { forward((k * 7) % 20) },
            to: if k % 2 == 0 { forward((k * 11) % 20) } else { reverse((k * 11) % 20) },
        })
        .collect();
    let names: Vec<Vec<u8>> = vec![b"first".to_vec(), Vec::new(), b"chr\xc3\xa9".to_vec(), vec![0xff, 0x00]];
    let mut b = Builder::new();
    // paths are begun before the nodes they visit exist
    for (p, name) in names.iter().enumerate() {
        assert_eq!(b.begin_path(name), p);
    }
    let mut steps: Vec<Vec<Step>> = vec![Vec::new(); 4];
    for k in 0..50usize {
        let p = (k * k) % 4;
        if p == 1 {
            continue;
        }
        let step = Step {
            node: (k * 13) % 20,
            strand: if k % 5 == 0 { Strand::Reverse } else { Strand::Forward },
        };
        steps[p].push(step);
        assert_eq!(b.add_step(p, step.node, step.strand), Ok(()));
    }
    for e in edges.iter().take(30) {
        b.add_edge(e.from, e.to);
    }
    for (i, s) in sequences.iter().enumerate() {
        assert_eq!(b.add_node(s), i);
    }
    for e in edges.iter().skip(30) {
        b.add_edge(e.from, e.to);
    }
    assert_eq!(b.node_count(), 20);
    assert_eq!(b.path_count(), 4);
    let image = b.finish().unwrap();
    let view = load(&image).unwrap();
    assert_eq!(view.node_count(), 20);
    assert_eq!(view.path_count(), 4);
    for i in 0..20 {
        let node = view.node(i).unwrap();
        assert_eq!(node.id(), i);
        assert_eq!(node.sequence(), &sequences[i][..]);
        let expected: Vec<Edge> = edges.iter().copied().filter(|e| e.from.node == i).collect();
        assert_eq!(node.edge_count(), expected.len());
        let found: Vec<Edge> = (0..node.edge_count()).map(|k| node.edge(k).unwrap()).collect();
        assert_eq!(found, expected);
        assert_eq!(node.edge(expected.len()), None);
        for direction in [Strand::Forward, Strand::Reverse] {
            let reached: Vec<Endpoint> =
                expected.iter().filter(|e| e.from.strand == direction).map(|e| e.to).collect();
            assert_eq!(view.neighbors(i, direction).unwrap().to_vec(), reached);
            assert_eq!(node.neighbors(direction).to_vec(), reached);
        }
    }
    for p in 0..4 {
        let path = view.path(p).unwrap();
        assert_eq!(path.id(), p);
        assert_eq!(path.name(), &names[p][..]);
        assert_eq!(path.step_count(), steps[p].len());
        assert_eq!(path.steps().to_vec(), steps[p]);
        assert_eq!(view.path_steps(p).unwrap().to_vec(), steps[p]);
        assert_eq!(view.path_name(p).unwrap(), &names[p][..]);
        for (k, step) in steps[p].iter().enumerate() {
            assert_eq!(path.step(k), Some(*step));
        }
        assert_eq!(path.step(steps[p].len()), None);
    }
    assert_eq!(view.path(1).unwrap().step_count(), 0);
    assert_eq!(view.path_name_str(2), Ok("chr\u{e9}"));
    assert_eq!(view.path_name_str(3), Err(GraphError::InvalidUtf8 { path: 3 }));
}

#[test]
fn offset_indexes_never_decrease_and_end_at_the_data_length() {
    let image = three_node_image();
    let header = decode(&image).unwrap();
    let store = SegmentStore::new(&image, &header).unwrap();
    let words = |w: flatgraph::store::WordSlice| -> Vec<u64> {
        (0..w.len()).map(|i| w.get(i).unwrap()).collect()
    };
    assert_eq!(words(store.sequence_index()), vec![0, 4, 6, 7]);
    assert_eq!(words(store.edge_index()), vec![0, 8, 16, 16]);
    assert_eq!(words(store.step_index()), vec![0, 24]);
    assert_eq!(words(store.name_index()), vec![0, 2]);
    assert_eq!(store.sequences().len(), 7);
    assert_eq!(store.edges().byte_len(), 16);
    assert_eq!(store.steps().byte_len(), 24);
    assert_eq!(store.names().len(), 2);
    for index in [store.sequence_index(), store.edge_index(), store.step_index(), store.name_index()] {
        let entries = words(index);
        assert!(entries.windows(2).all(|pair| pair[0] <= pair[1]));
    }
    assert_eq!(store.edges().get(2), None);
}

#[test]
fn records_are_packed_as_documented() {
    let mut b = Builder::new();
    b.add_node(b"A");
    b.add_node(b"C");
    b.add_node(b"G");
    b.add_edge(reverse(0), forward(2));
    b.add_edge(forward(0), reverse(1));
    b.add_edge(reverse(2), reverse(2));
    b.begin_path(b"x");
    b.add_step(0, 2, Strand::Reverse).unwrap();
    b.add_step(0, 1, Strand::Forward).unwrap();
    let image = b.finish().unwrap();
    let header = decode(&image).unwrap();
    let store = SegmentStore::new(&image, &header).unwrap();
    // 4 * target + 2 * target strand + source strand
    assert_eq!(store.edges().get(0), Some(4 * 2 + 1));
    assert_eq!(store.edges().get(1), Some(4 * 1 + 2));
    assert_eq!(store.edges().get(2), Some(4 * 2 + 2 + 1));
    // 2 * node + strand
    assert_eq!(store.steps().get(0), Some(2 * 2 + 1));
    assert_eq!(store.steps().get(1), Some(2 * 1));
}

#[test]
fn corrupt_index_is_rejected() {
    let mut image = three_node_image();
    put_u64(&mut image, 152 + 8, 9);
    assert_eq!(load(&image).err(), Some(GraphError::CorruptIndex { segment: 1, entry: 2 }));
    let mut image = three_node_image();
    put_u64(&mut image, 152 + 24, 6);
    assert_eq!(load(&image).err(), Some(GraphError::CorruptIndex { segment: 1, entry: 3 }));
    let mut image = three_node_image();
    put_u64(&mut image, 152, 1);
    assert_eq!(load(&image).err(), Some(GraphError::CorruptIndex { segment: 1, entry: 0 }));
    let mut image = three_node_image();
    put_u64(&mut image, 200 + 8, 4);
    assert_eq!(load(&image).err(), Some(GraphError::CorruptIndex { segment: 3, entry: 1 }));
    let mut image = three_node_image();
    put_u64(&mut image, 256 + 8, 16);
    assert_eq!(load(&image).err(), Some(GraphError::CorruptIndex { segment: 5, entry: 1 }));
    let mut image = three_node_image();
    put_u64(&mut image, 280 + 8, 3);
    assert_eq!(load(&image).err(), Some(GraphError::CorruptIndex { segment: 7, entry: 1 }));
}

#[test]
fn dangling_references_in_an_image_are_rejected() {
    let mut image = three_node_image();
    put_u64(&mut image, 184, 4 * 7);
    assert_eq!(load(&image).err(), Some(GraphError::DanglingEdge { from: 0, to: 7 }));
    let mut image = three_node_image();
    put_u64(&mut image, 184 + 8, 4 * 3 + 1);
    assert_eq!(load(&image).err(), Some(GraphError::DanglingEdge { from: 1, to: 3 }));
    let mut image = three_node_image();
    put_u64(&mut image, 232 + 8, 2 * 9 + 1);
    assert_eq!(load(&image).err(), Some(GraphError::NodeOutOfRange { id: 9, count: 3 }));
}
