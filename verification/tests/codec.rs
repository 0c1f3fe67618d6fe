use flatgraph::builder::Builder;
use flatgraph::error::GraphError;
use flatgraph::layout::{
    decode, encode, width_of, Header, SegmentRange, Segments, HEADER_LEN, MAGIC, SEGMENT_COUNT,
    VERSION,
};
use flatgraph::loader::load;
use flatgraph::store::{records_for, slice_for, SegmentStore, WordSlice};

fn words(values: &[u64]) -> Vec<u8> {
    values.iter().flat_map(|v| v.to_le_bytes()).collect()
}

fn empty_segments() -> Segments {
    Segments {
        sequences: Vec::new(),
        sequence_index: words(&[0]),
        edges: Vec::new(),
        edge_index: words(&[0]),
        steps: Vec::new(),
        step_index: words(&[0]),
        names: Vec::new(),
        name_index: words(&[0]),
    }
}

fn u64_at(image: &[u8], at: usize) -> u64 {
    let mut word = [0u8; 8];
    word.copy_from_slice(&image[at..at + 8]);
    u64::from_le_bytes(word)
}

#[test]
fn image_of_the_empty_graph_is_exact() {
    let image = Builder::new().finish().unwrap();
    assert_eq!(image, encode(&empty_segments()));
    assert_eq!(image.len(), 176);
    assert_eq!(&image[0..4], b"FLGR");
    assert_eq!(&image[0..4], &MAGIC[..]);
    assert_eq!(&image[4..8], &1u32.to_le_bytes()[..]);
    assert_eq!(&image[4..8], &VERSION.to_le_bytes()[..]);
    assert_eq!(&image[8..12], &8u32.to_le_bytes()[..]);
    let table: Vec<(u64, u64)> =
        (0..8).map(|k| (u64_at(&image, 12 + 16 * k), u64_at(&image, 20 + 16 * k))).collect();
    assert_eq!(
        table,
        vec![(140, 0), (144, 8), (152, 0), (152, 8), (160, 0), (160, 8), (168, 0), (168, 8)]
    );
    assert!(image[140..].iter().all(|b| *b == 0));
    let view = load(&image).unwrap();
    assert_eq!(view.node_count(), 0);
    assert_eq!(view.path_count(), 0);
}

#[test]
fn segments_are_padded_to_their_element_width() {
    let segments = Segments {
        sequences: b"ACG".to_vec(),
        sequence_index: words(&[0, 3]),
        edges: Vec::new(),
        edge_index: words(&[0, 0]),
        steps: words(&[0]),
        step_index: words(&[0, 8]),
        names: b"n".to_vec(),
        name_index: words(&[0, 1]),
    };
    let image = encode(&segments);
    let header = decode(&image).unwrap();
    assert_eq!(header.version, VERSION);
    assert_eq!(header.segments.len(), SEGMENT_COUNT);
    assert_eq!(
        header.segments,
        vec![
            SegmentRange { offset: 140, len: 3 },
            SegmentRange { offset: 144, len: 16 },
            SegmentRange { offset: 160, len: 0 },
            SegmentRange { offset: 160, len: 16 },
            SegmentRange { offset: 176, len: 8 },
            SegmentRange { offset: 184, len: 16 },
            SegmentRange { offset: 200, len: 1 },
            SegmentRange { offset: 208, len: 16 },
        ]
    );
    assert_eq!(image.len(), 224);
    assert_eq!(image[143], 0);
    assert_eq!(&image[201..208], &[0u8; 7][..]);
    for (k, range) in header.segments.iter().enumerate() {
        assert_eq!(range.offset % width_of(k), 0);
    }
    assert_eq!(HEADER_LEN, 140);
    let store = SegmentStore::new(&image, &header).unwrap();
    assert_eq!(store.sequences(), b"ACG");
    assert_eq!(store.names(), b"n");
    assert_eq!(store.sequence_index().get(1), Some(3));
    assert_eq!(store.step_index().get(1), Some(8));
    assert_eq!(store.steps().len(), 1);
    assert_eq!(store.edges().len(), 0);
    let view = load(&image).unwrap();
    assert_eq!(view.node(0).unwrap().sequence(), b"ACG");
    assert_eq!(view.path_name_str(0), Ok("n"));
}

#[test]
fn element_widths() {
    let widths: Vec<usize> = (0..8).map(width_of).collect();
    assert_eq!(widths, vec![1, 8, 8, 8, 8, 8, 1, 8]);
}

#[test]
fn wrong_magic_is_a_malformed_header() {
    let mut image = encode(&empty_segments());
    image[0] = b'X';
    assert_eq!(decode(&image).err(), Some(GraphError::MalformedHeader));
    assert_eq!(load(&image).err(), Some(GraphError::MalformedHeader));
    assert_eq!(load(&[]).err(), Some(GraphError::MalformedHeader));
    assert_eq!(load(b"FLG").err(), Some(GraphError::MalformedHeader));
}

#[test]
fn short_header_is_a_truncated_file() {
    let image = encode(&empty_segments());
    assert_eq!(
        decode(&image[..8]).err(),
        Some(GraphError::TruncatedFile { offset: 0, len: 12, file_len: 8 })
    );
    assert_eq!(
        decode(&image[..139]).err(),
        Some(GraphError::TruncatedFile { offset: 0, len: 140, file_len: 139 })
    );
    assert_eq!(
        decode(&image[..140]).err(),
        Some(GraphError::TruncatedFile { offset: 144, len: 8, file_len: 140 })
    );
}

#[test]
fn later_version_is_unsupported() {
    let mut image = encode(&empty_segments());
    image[4..8].copy_from_slice(&2u32.to_le_bytes());
    assert_eq!(
        load(&image).err(),
        Some(GraphError::UnsupportedVersion { found: 2, supported: 1 })
    );
    // the version is tested before the rest of the header is read
    assert_eq!(
        decode(&image[..12]).err(),
        Some(GraphError::UnsupportedVersion { found: 2, supported: 1 })
    );
    image[4..8].copy_from_slice(&0u32.to_le_bytes());
    assert_eq!(decode(&image).unwrap().version, 0);
    assert!(load(&image).is_ok());
}

#[test]
fn wrong_segment_count_is_a_malformed_header() {
    let mut image = encode(&empty_segments());
    image[8..12].copy_from_slice(&7u32.to_le_bytes());
    assert_eq!(load(&image).err(), Some(GraphError::MalformedHeader));
}

#[test]
fn segment_overflowing_the_address_space_is_truncated() {
    let mut image = encode(&empty_segments());
    image[12 + 16..20 + 16].copy_from_slice(&u64::MAX.to_le_bytes());
    assert_eq!(
        load(&image).err(),
        Some(GraphError::TruncatedFile { offset: u64::MAX, len: 8, file_len: 176 })
    );
    let mut image = encode(&empty_segments());
    image[20 + 16..28 + 16].copy_from_slice(&u64::MAX.to_le_bytes());
    assert_eq!(
        load(&image).err(),
        Some(GraphError::TruncatedFile { offset: 144, len: u64::MAX, file_len: 176 })
    );
}

#[test]
fn ragged_segment_lengths_are_a_malformed_header() {
    let mut segments = empty_segments();
    segments.sequence_index = vec![0; 7];
    let image = encode(&segments);
    assert_eq!(load(&image).err(), Some(GraphError::MalformedHeader));
    let mut segments = empty_segments();
    segments.edge_index = words(&[0, 0]);
    let image = encode(&segments);
    assert_eq!(load(&image).err(), Some(GraphError::MalformedHeader));
    let mut segments = empty_segments();
    segments.name_index = Vec::new();
    let image = encode(&segments);
    assert_eq!(load(&image).err(), Some(GraphError::MalformedHeader));
}

#[test]
fn store_checks_a_header_made_by_hand() {
    let image = encode(&empty_segments());
    let good = decode(&image).unwrap();
    let short = Header { version: 1, segments: good.segments[..7].to_vec() };
    assert_eq!(SegmentStore::new(&image, &short).err(), Some(GraphError::MalformedHeader));
    let mut far = Header { version: 1, segments: good.segments.clone() };
    far.segments[3] = SegmentRange { offset: 170, len: 8 };
    assert_eq!(
        SegmentStore::new(&image, &far).err(),
        Some(GraphError::TruncatedFile { offset: 170, len: 8, file_len: 176 })
    );
    let mut skewed = Header { version: 1, segments: good.segments.clone() };
    skewed.segments[5] = SegmentRange { offset: 161, len: 8 };
    assert_eq!(
        SegmentStore::new(&image, &skewed).err(),
        Some(GraphError::AlignmentError { segment: 5, offset: 161 })
    );
}

#[test]
fn slice_for_takes_the_range_between_two_entries() {
    let index = words(&[0, 4, 6, 7, 5, 9]);
    let offsets = WordSlice::new(&index).unwrap();
    let data = b"ACGTGGT";
    assert_eq!(slice_for(0, &offsets, data), Some(&b"ACGT"[..]));
    assert_eq!(slice_for(1, &offsets, data), Some(&b"GG"[..]));
    assert_eq!(slice_for(2, &offsets, data), Some(&b"T"[..]));
    // entries out of order
    assert_eq!(slice_for(3, &offsets, data), None);
    // range past the data
    assert_eq!(slice_for(4, &offsets, data), None);
    // no entry after the last
    assert_eq!(slice_for(5, &offsets, data), None);
    assert_eq!(slice_for(usize::MAX, &offsets, data), None);
    assert!(WordSlice::new(&index[..9]).is_none());
}

#[test]
fn records_for_takes_whole_words() {
    let index = words(&[0, 16, 16, 24, 28, 32, 40]);
    let offsets = WordSlice::new(&index).unwrap();
    let records = words(&[10, 11, 12, 13]);
    let data = WordSlice::new(&records).unwrap();
    let read = |w: WordSlice| -> Vec<u64> { (0..w.len()).map(|i| w.get(i).unwrap()).collect() };
    assert_eq!(records_for(0, &offsets, &data).map(read), Some(vec![10, 11]));
    assert_eq!(records_for(1, &offsets, &data).map(read), Some(vec![]));
    assert_eq!(records_for(2, &offsets, &data).map(read), Some(vec![12]));
    // a range that splits a word
    assert!(records_for(3, &offsets, &data).is_none());
    assert!(records_for(4, &offsets, &data).is_none());
    // a range past the data
    assert!(records_for(5, &offsets, &data).is_none());
    assert!(records_for(6, &offsets, &data).is_none());
}
