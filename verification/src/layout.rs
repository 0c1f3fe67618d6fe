//! The byte layout of a graph image: a fixed header with a table of eight
//! segments, followed by the segments themselves.
//!
//! | bytes            | content                                        |
//! |------------------|------------------------------------------------|
//! | `0 .. 4`         | the magic bytes                                |
//! | `4 .. 8`         | format version, 32 bits                        |
//! | `8 .. 12`        | number of segments, 32 bits                    |
//! | `12 + 16k ..`    | offset and length of segment `k`, 64 bits each |
//! | `140 ..`         | the segments, each at a multiple of its width  |
//!
//! All integers are little-endian. Bytes between segments are zero when
//! written and ignored when read.

use crate::error::GraphError;
use crate::scan::{first_failure, lemma_first_failure, lemma_first_failure_is};
use crate::words::{
    lemma_u32_at_written, lemma_u32_bytes_len, lemma_word_bytes_at, lemma_word_bytes_len, push_u32,
    push_words, read_u32, read_u64, u32_at, u64_at, word_bytes, zeros,
};
use vstd::bytes::spec_u32_to_le_bytes;
use vstd::prelude::*;

verus! {

/// The first four bytes of every image.
pub const MAGIC: [u8; 4] = [0x46, 0x4c, 0x47, 0x52];

/// The latest format version that this crate reads, and the one it writes.
pub const VERSION: u32 = 1;

/// The number of segments in an image.
pub const SEGMENT_COUNT: usize = 8;

/// The length of the header: twelve bytes and eight table records.
pub const HEADER_LEN: usize = 140;

/// Segment number of the nodes' sequence bytes.
pub const SEQUENCES: usize = 0;

/// Segment number of the offset index into the sequence bytes.
pub const SEQUENCE_INDEX: usize = 1;

/// Segment number of the edge records.
pub const EDGES: usize = 2;

/// Segment number of the offset index into the edge records.
pub const EDGE_INDEX: usize = 3;

/// Segment number of the step records.
pub const STEPS: usize = 4;

/// Segment number of the offset index into the step records.
pub const STEP_INDEX: usize = 5;

/// Segment number of the paths' name bytes.
pub const NAMES: usize = 6;

/// Segment number of the offset index into the name bytes.
pub const NAME_INDEX: usize = 7;

/// The width in bytes of the elements of segment `k`: one for the two byte
/// arrays, eight for every array of words.
pub open spec fn element_width(k: int) -> int {
    if k == 0 || k == 6 {
        1
    } else {
        8
    }
}

/// The width in bytes of the elements of segment `k`.
pub fn width_of(k: usize) -> (w: usize)
    ensures
        w == element_width(k as int),
{
    if k == SEQUENCES || k == NAMES {
        1
    } else {
        8
    }
}

/// The number of bytes to skip at position `len` to reach a multiple of `width`.
pub open spec fn padding(len: int, width: int) -> int {
    (width - len % width) % width
}

/// Where a segment lies in an image.
#[derive(Clone, Copy, Debug, PartialEq, Eq, Structural)]
pub struct SegmentRange {
    pub offset: usize,
    pub len: usize,
}

/// What a header says, as a mathematical value.
pub struct HeaderModel {
    pub version: u32,
    pub segments: Seq<SegmentRange>,
}

/// A decoded header: the version and the place of each segment.
#[derive(Debug)]
pub struct Header {
    pub version: u32,
    pub segments: Vec<SegmentRange>,
}

impl View for Header {
    type V = HeaderModel;

    open spec fn view(&self) -> HeaderModel {
        HeaderModel { version: self.version, segments: self.segments@ }
    }
}

/// The bytes of the eight segments, as mathematical values.
pub struct SegmentsModel {
    pub sequences: Seq<u8>,
    pub sequence_index: Seq<u8>,
    pub edges: Seq<u8>,
    pub edge_index: Seq<u8>,
    pub steps: Seq<u8>,
    pub step_index: Seq<u8>,
    pub names: Seq<u8>,
    pub name_index: Seq<u8>,
}

impl SegmentsModel {
    /// The bytes of segment `k`.
    pub open spec fn bytes_of(self, k: int) -> Seq<u8> {
        if k == 0 {
            self.sequences
        } else if k == 1 {
            self.sequence_index
        } else if k == 2 {
            self.edges
        } else if k == 3 {
            self.edge_index
        } else if k == 4 {
            self.steps
        } else if k == 5 {
            self.step_index
        } else if k == 6 {
            self.names
        } else {
            self.name_index
        }
    }

    /// Everything that follows the header up to the end of segment `k - 1`.
    pub open spec fn body(self, k: int) -> Seq<u8>
        decreases k,
    {
        if k <= 0 {
            Seq::empty()
        } else {
            let before = self.body(k - 1);
            before + zeros(padding(HEADER_LEN + before.len(), element_width(k - 1)))
                + self.bytes_of(k - 1)
        }
    }

    /// The offset in the image at which segment `k` starts.
    pub open spec fn start(self, k: int) -> int {
        let at = HEADER_LEN + self.body(k).len();
        at + padding(at, element_width(k))
    }

    /// The place of each segment in the image.
    pub open spec fn ranges(self) -> Seq<SegmentRange> {
        Seq::new(
            8,
            |k: int|
                SegmentRange { offset: self.start(k) as usize, len: self.bytes_of(k).len() as usize },
        )
    }
}

/// The bytes of the eight segments, ready to be written. The arrays of
/// words hold their words as little-endian bytes.
#[derive(Debug)]
pub struct Segments {
    pub sequences: Vec<u8>,
    pub sequence_index: Vec<u8>,
    pub edges: Vec<u8>,
    pub edge_index: Vec<u8>,
    pub steps: Vec<u8>,
    pub step_index: Vec<u8>,
    pub names: Vec<u8>,
    pub name_index: Vec<u8>,
}

impl View for Segments {
    type V = SegmentsModel;

    open spec fn view(&self) -> SegmentsModel {
        SegmentsModel {
            sequences: self.sequences@,
            sequence_index: self.sequence_index@,
            edges: self.edges@,
            edge_index: self.edge_index@,
            steps: self.steps@,
            step_index: self.step_index@,
            names: self.names@,
            name_index: self.name_index@,
        }
    }
}

/// The sixteen words of the segment table: offset and length of each segment.
pub open spec fn table_words(ranges: Seq<SegmentRange>) -> Seq<u64> {
    Seq::new(
        16,
        |i: int|
            if i % 2 == 0 {
                ranges[i / 2].offset as u64
            } else {
                ranges[i / 2].len as u64
            },
    )
}

/// The header that declares the given segment ranges.
pub open spec fn header_bytes(ranges: Seq<SegmentRange>) -> Seq<u8> {
    MAGIC@ + spec_u32_to_le_bytes(VERSION) + spec_u32_to_le_bytes(8) + word_bytes(
        table_words(ranges),
    )
}

/// The image of the given segments: the header, then each segment at the next
/// multiple of its element width.
pub open spec fn encoded(s: SegmentsModel) -> Seq<u8> {
    header_bytes(s.ranges()) + s.body(8)
}

/// The offset that the header of `b` declares for segment `k`.
pub open spec fn table_offset(b: Seq<u8>, k: int) -> u64 {
    u64_at(b, 12 + 16 * k)
}

/// The length that the header of `b` declares for segment `k`.
pub open spec fn table_len(b: Seq<u8>, k: int) -> u64 {
    u64_at(b, 20 + 16 * k)
}

/// Segment `k` as declared lies within `b`.
pub open spec fn segment_fits(b: Seq<u8>, k: int) -> bool {
    table_offset(b, k) + table_len(b, k) <= b.len()
}

/// `b` starts with the magic bytes.
pub open spec fn has_magic(b: Seq<u8>) -> bool {
    b.len() >= 4 && b.subrange(0, 4) == MAGIC@
}

/// What decoding the header of `b` gives: the header, or the first of these
/// failures, tested in this order.
///
/// - `MalformedHeader`: `b` does not start with the magic bytes.
/// - `TruncatedFile`: `b` is too short to hold version and segment count.
/// - `UnsupportedVersion`: the version is later than [`VERSION`].
/// - `MalformedHeader`: the segment count is not eight.
/// - `TruncatedFile`: `b` is too short to hold the segment table.
/// - `TruncatedFile`: a declared segment reaches past the end of `b`; the
///   first such segment is reported.
pub open spec fn decoded(b: Seq<u8>) -> Result<HeaderModel, GraphError> {
    if !has_magic(b) {
        Err(GraphError::MalformedHeader)
    } else if b.len() < 12 {
        Err(GraphError::TruncatedFile { offset: 0, len: 12, file_len: b.len() as u64 })
    } else if u32_at(b, 4) > VERSION {
        Err(GraphError::UnsupportedVersion { found: u32_at(b, 4), supported: VERSION })
    } else if u32_at(b, 8) != 8 {
        Err(GraphError::MalformedHeader)
    } else if b.len() < HEADER_LEN {
        Err(GraphError::TruncatedFile { offset: 0, len: 140, file_len: b.len() as u64 })
    } else {
        let k = first_failure(|k: int| segment_fits(b, k), 0, 8);
        if k < 8 {
            Err(
                GraphError::TruncatedFile {
                    offset: table_offset(b, k),
                    len: table_len(b, k),
                    file_len: b.len() as u64,
                },
            )
        } else {
            Ok(
                HeaderModel {
                    version: u32_at(b, 4),
                    segments: Seq::new(
                        8,
                        |k: int|
                            SegmentRange {
                                offset: table_offset(b, k) as usize,
                                len: table_len(b, k) as usize,
                            },
                    ),
                },
            )
        }
    }
}

/// Reads and checks the header of an image.
pub fn decode(bytes: &[u8]) -> (res: Result<Header, GraphError>)
    ensures
        match res {
            Ok(h) => decoded(bytes@) == Ok::<HeaderModel, GraphError>(h@),
            Err(e) => decoded(bytes@) == Err::<HeaderModel, GraphError>(e),
        },
{
    let n = bytes.len();
    if n < 4 || bytes[0] != MAGIC[0] || bytes[1] != MAGIC[1] || bytes[2] != MAGIC[2] || bytes[3]
        != MAGIC[3] {
        assert(!has_magic(bytes@)) by {
            if has_magic(bytes@) {
                assert(bytes@.subrange(0, 4)[0] == MAGIC@[0]);
                assert(bytes@.subrange(0, 4)[1] == MAGIC@[1]);
                assert(bytes@.subrange(0, 4)[2] == MAGIC@[2]);
                assert(bytes@.subrange(0, 4)[3] == MAGIC@[3]);
            }
        }
        return Err(GraphError::MalformedHeader);
    }
    assert(bytes@.subrange(0, 4) =~= MAGIC@);
    if n < 12 {
        return Err(GraphError::TruncatedFile { offset: 0, len: 12, file_len: n as u64 });
    }
    let version = read_u32(bytes, 4);
    if version > VERSION {
        return Err(GraphError::UnsupportedVersion { found: version, supported: VERSION });
    }
    let count = read_u32(bytes, 8);
    if count != 8 {
        return Err(GraphError::MalformedHeader);
    }
    if n < HEADER_LEN {
        return Err(GraphError::TruncatedFile { offset: 0, len: 140, file_len: n as u64 });
    }
    let ghost fits = |k: int| segment_fits(bytes@, k);
    let mut segments: Vec<SegmentRange> = Vec::new();
    let mut k: usize = 0;
    while k < 8
        invariant
            k <= 8,
            n == bytes@.len(),
            n >= HEADER_LEN,
            has_magic(bytes@),
            u32_at(bytes@, 4) <= VERSION,
            u32_at(bytes@, 8) == 8,
            fits == (|k: int| segment_fits(bytes@, k)),
            forall|j: int| 0 <= j < k ==> #[trigger] fits(j),
            segments@.len() == k,
            forall|j: int|
                0 <= j < k ==> #[trigger] segments@[j] == (SegmentRange {
                    offset: table_offset(bytes@, j) as usize,
                    len: table_len(bytes@, j) as usize,
                }),
        decreases 8 - k,
    {
        let offset = read_u64(bytes, 12 + 16 * k);
        let len = read_u64(bytes, 20 + 16 * k);
        if offset > n as u64 || len > n as u64 - offset {
            proof {
                assert(!fits(k as int));
                lemma_first_failure_is(fits, 0, 8, k as int);
            }
            return Err(GraphError::TruncatedFile { offset, len, file_len: n as u64 });
        }
        assert(fits(k as int));
        segments.push(SegmentRange { offset: offset as usize, len: len as usize });
        k += 1;
    }
    proof {
        lemma_first_failure_is(fits, 0, 8, 8);
        assert(segments@ =~= decoded(bytes@)->Ok_0.segments);
    }
    Ok(Header { version, segments })
}

/// The 64-bit word number `i` of a segment table that follows the first
/// twelve bytes of a header is the table's word `i`.
proof fn lemma_table_word(ranges: Seq<SegmentRange>, rest: Seq<u8>, i: int)
    requires
        0 <= i < 16,
    ensures
        header_bytes(ranges).len() == HEADER_LEN,
        u64_at(header_bytes(ranges) + rest, 12 + 8 * i) == table_words(ranges)[i],
{
    let table = word_bytes(table_words(ranges));
    let front = MAGIC@ + spec_u32_to_le_bytes(VERSION) + spec_u32_to_le_bytes(8);
    lemma_u32_bytes_len(VERSION);
    lemma_u32_bytes_len(8);
    lemma_word_bytes_len(table_words(ranges));
    lemma_word_bytes_at(table_words(ranges), i);
    assert(front.len() == 12);
    assert((header_bytes(ranges) + rest).subrange(12 + 8 * i, 12 + 8 * i + 8) =~= table.subrange(
        8 * i,
        8 * i + 8,
    ));
}

/// The first twelve bytes of a written header hold the magic bytes, the
/// version and the segment count.
proof fn lemma_header_front(ranges: Seq<SegmentRange>, rest: Seq<u8>)
    ensures
        has_magic(header_bytes(ranges) + rest),
        u32_at(header_bytes(ranges) + rest, 4) == VERSION,
        u32_at(header_bytes(ranges) + rest, 8) == 8,
{
    let table = word_bytes(table_words(ranges));
    let all = header_bytes(ranges) + rest;
    lemma_u32_bytes_len(VERSION);
    lemma_u32_bytes_len(8);
    assert(all.subrange(0, 4) =~= MAGIC@);
    lemma_u32_at_written(MAGIC@, VERSION, spec_u32_to_le_bytes(8) + table + rest);
    assert(MAGIC@ + spec_u32_to_le_bytes(VERSION) + (spec_u32_to_le_bytes(8) + table + rest)
        =~= all);
    lemma_u32_at_written(MAGIC@ + spec_u32_to_le_bytes(VERSION), 8, table + rest);
    assert(MAGIC@ + spec_u32_to_le_bytes(VERSION) + spec_u32_to_le_bytes(8) + (table + rest)
        =~= all);
}

/// The body up to segment `j` is the beginning of the body up to any later
/// segment.
proof fn lemma_body_prefix(s: SegmentsModel, j: int, m: int)
    requires
        0 <= j <= m,
    ensures
        s.body(j).len() <= s.body(m).len(),
        s.body(m).subrange(0, s.body(j).len() as int) == s.body(j),
    decreases m - j,
{
    if j == m {
        assert(s.body(m).subrange(0, s.body(j).len() as int) =~= s.body(j));
    } else {
        lemma_body_prefix(s, j, m - 1);
        assert(s.body(m).subrange(0, s.body(j).len() as int) =~= s.body(m - 1).subrange(
            0,
            s.body(j).len() as int,
        ));
    }
}

/// In the body, segment `k` stands at its start offset, which is a multiple
/// of its element width.
proof fn lemma_segment_in_body(s: SegmentsModel, k: int)
    requires
        0 <= k < 8,
    ensures
        s.start(k) % element_width(k) == 0,
        s.start(k) + s.bytes_of(k).len() == HEADER_LEN + s.body(k + 1).len(),
        HEADER_LEN + s.body(k + 1).len() <= encoded(s).len(),
        header_bytes(s.ranges()).len() == HEADER_LEN,
        encoded(s).subrange(s.start(k), s.start(k) + s.bytes_of(k).len()) == s.bytes_of(k),
{
    lemma_table_word(s.ranges(), s.body(8), 0);
    lemma_body_prefix(s, k + 1, 8);
    let pad = padding(HEADER_LEN + s.body(k).len(), element_width(k));
    assert(s.body(k + 1) == s.body(k) + zeros(pad) + s.bytes_of(k));
    assert(s.body(k + 1).subrange(
        s.start(k) - HEADER_LEN,
        s.start(k) - HEADER_LEN + s.bytes_of(k).len(),
    ) =~= s.bytes_of(k));
    assert(encoded(s).subrange(s.start(k), s.start(k) + s.bytes_of(k).len()) =~= s.body(
        8,
    ).subrange(0, s.body(k + 1).len() as int).subrange(
        s.start(k) - HEADER_LEN,
        s.start(k) - HEADER_LEN + s.bytes_of(k).len(),
    ));
}

/// Decoding a written image gives back the segment ranges that were written;
/// each range is aligned to its element width and holds the segment's bytes.
pub proof fn lemma_decode_encoded(s: SegmentsModel)
    requires
        encoded(s).len() <= usize::MAX,
    ensures
        decoded(encoded(s)) == Ok::<HeaderModel, GraphError>(
            HeaderModel { version: VERSION, segments: s.ranges() },
        ),
        forall|k: int|
            0 <= k < 8 ==> {
                &&& (#[trigger] s.ranges()[k]).offset == s.start(k)
                &&& s.ranges()[k].len == s.bytes_of(k).len()
                &&& s.start(k) % element_width(k) == 0
                &&& s.start(k) + s.bytes_of(k).len() <= encoded(s).len()
                &&& encoded(s).subrange(s.start(k), s.start(k) + s.bytes_of(k).len())
                    == s.bytes_of(k)
            },
{
    let b = encoded(s);
    let ranges = s.ranges();
    lemma_header_front(ranges, s.body(8));
    let fits = |k: int| segment_fits(b, k);
    assert forall|k: int| 0 <= k < 8 implies {
        &&& (#[trigger] ranges[k]).offset == s.start(k)
        &&& ranges[k].len == s.bytes_of(k).len()
        &&& s.start(k) % element_width(k) == 0
        &&& s.start(k) + s.bytes_of(k).len() <= b.len()
        &&& b.subrange(s.start(k), s.start(k) + s.bytes_of(k).len()) == s.bytes_of(k)
        &&& table_offset(b, k) == s.start(k)
        &&& table_len(b, k) == s.bytes_of(k).len()
    } by {
        lemma_segment_in_body(s, k);
        lemma_table_word(ranges, s.body(8), 2 * k);
        lemma_table_word(ranges, s.body(8), 2 * k + 1);
    }
    assert forall|k: int| 0 <= k < 8 implies #[trigger] fits(k) by {
        assert(ranges[k].offset == s.start(k));
    }
    lemma_first_failure_is(fits, 0, 8, 8);
    assert forall|k: int| 0 <= k < 8 implies decoded(b)->Ok_0.segments[k] == ranges[k] by {
        assert(ranges[k].offset == s.start(k));
    }
    assert(decoded(b)->Ok_0.segments =~= ranges);
}

/// A written image that is cut short anywhere after the magic bytes does not
/// decode: it is reported as a truncated file.
pub proof fn lemma_cut_image_rejected(s: SegmentsModel, n: int)
    requires
        encoded(s).len() <= usize::MAX,
        4 <= n < encoded(s).len(),
    ensures
        decoded(encoded(s).take(n)) matches Err(GraphError::TruncatedFile { file_len, .. })
            && file_len == n,
{
    let b = encoded(s);
    let c = b.take(n);
    lemma_decode_encoded(s);
    lemma_segment_in_body(s, 7);
    assert(c.subrange(0, 4) =~= b.subrange(0, 4));
    if n >= 12 {
        assert(c.subrange(4, 8) =~= b.subrange(4, 8));
        assert(c.subrange(8, 12) =~= b.subrange(8, 12));
    }
    if n >= HEADER_LEN {
        let fits = |k: int| segment_fits(c, k);
        assert(c.subrange(124, 132) =~= b.subrange(124, 132));
        assert(c.subrange(132, 140) =~= b.subrange(132, 140));
        assert(s.ranges()[7].offset == s.start(7));
        lemma_table_word(s.ranges(), s.body(8), 14);
        lemma_table_word(s.ranges(), s.body(8), 15);
        assert(!fits(7));
        lemma_first_failure(fits, 0, 8);
    }
}

/// Appends zero bytes until the length is a multiple of eight.
fn pad_to_word(out: &mut Vec<u8>)
    ensures
        final(out)@ == old(out)@ + zeros(padding(old(out)@.len() as int, 8)),
{
    let ghost pad = padding(old(out)@.len() as int, 8);
    assert(old(out)@ + zeros(0) =~= old(out)@);
    while out.len() % 8 != 0
        invariant
            old(out)@.len() <= out@.len() <= old(out)@.len() + pad,
            pad == padding(old(out)@.len() as int, 8),
            out@ == old(out)@ + zeros(out@.len() - old(out)@.len()),
        decreases old(out)@.len() + pad - out@.len(),
    {
        out.push(0);
        assert(out@ =~= old(out)@ + zeros(out@.len() - old(out)@.len()));
    }
}

/// Appends segment `k` at the next multiple of its element width and says
/// where it went.
fn append_segment(out: &mut Vec<u8>, data: &[u8], k: usize) -> (r: SegmentRange)
    ensures
        final(out)@ == old(out)@ + zeros(
            padding(old(out)@.len() as int, element_width(k as int)),
        ) + data@,
        r.offset == old(out)@.len() + padding(old(out)@.len() as int, element_width(k as int)),
        r.len == data@.len(),
{
    if width_of(k) == 8 {
        pad_to_word(out);
    } else {
        assert(old(out)@ + zeros(0) =~= old(out)@);
    }
    let offset = out.len();
    out.extend_from_slice(data);
    SegmentRange { offset, len: data.len() }
}

/// Replaces the first bytes of `out` by `head`.
fn overwrite_front(out: &mut Vec<u8>, head: &[u8])
    requires
        head@.len() <= old(out)@.len(),
    ensures
        final(out)@ == head@ + old(out)@.subrange(head@.len() as int, old(out)@.len() as int),
{
    let n = head.len();
    let mut i: usize = 0;
    assert(out@ =~= head@.take(0) + old(out)@.subrange(0, old(out)@.len() as int));
    while i < n
        invariant
            n == head@.len(),
            i <= n <= old(out)@.len(),
            out@.len() == old(out)@.len(),
            out@ == head@.take(i as int) + old(out)@.subrange(i as int, old(out)@.len() as int),
        decreases n - i,
    {
        out.set(i, head[i]);
        i += 1;
        assert(out@ =~= head@.take(i as int) + old(out)@.subrange(
            i as int,
            old(out)@.len() as int,
        ));
    }
    assert(head@.take(n as int) =~= head@);
}

/// Writes the header that declares `ranges`.
fn write_header(ranges: &Vec<SegmentRange>) -> (head: Vec<u8>)
    requires
        ranges@.len() == 8,
    ensures
        head@ == header_bytes(ranges@),
        head@.len() == HEADER_LEN,
{
    let mut table: Vec<u64> = Vec::new();
    let mut k: usize = 0;
    while k < 8
        invariant
            k <= 8,
            ranges@.len() == 8,
            table@.len() == 2 * k,
            forall|i: int| 0 <= i < 2 * k ==> table@[i] == table_words(ranges@)[i],
        decreases 8 - k,
    {
        table.push(ranges[k].offset as u64);
        table.push(ranges[k].len as u64);
        k += 1;
    }
    assert(table@ =~= table_words(ranges@));
    let mut head: Vec<u8> = Vec::new();
    head.push(MAGIC[0]);
    head.push(MAGIC[1]);
    head.push(MAGIC[2]);
    head.push(MAGIC[3]);
    assert(head@ =~= MAGIC@);
    push_u32(&mut head, VERSION);
    push_u32(&mut head, 8);
    push_words(&mut head, table.as_slice());
    proof {
        lemma_table_word(ranges@, Seq::empty(), 0);
    }
    head
}

/// Appending segment `k` at its alignment after the body up to `k` gives the
/// body up to `k + 1`, and the segment stands at its start offset.
proof fn lemma_appended(
    s: SegmentsModel,
    k: int,
    blank: Seq<u8>,
    before: Seq<u8>,
    after: Seq<u8>,
    r: SegmentRange,
)
    requires
        0 <= k < 8,
        blank.len() == HEADER_LEN,
        before == blank + s.body(k),
        after == before + zeros(padding(before.len() as int, element_width(k))) + s.bytes_of(k),
        r.offset == before.len() + padding(before.len() as int, element_width(k)),
        r.len == s.bytes_of(k).len(),
    ensures
        after == blank + s.body(k + 1),
        r == s.ranges()[k],
{
    assert(s.body(k + 1) == s.body(k) + zeros(
        padding(HEADER_LEN + s.body(k).len(), element_width(k)),
    ) + s.bytes_of(k));
    assert(after =~= blank + s.body(k + 1));
}

/// Writes the image of the given segments: [`encoded`].
pub fn encode(segments: &Segments) -> (out: Vec<u8>)
    ensures
        out@ == encoded(segments@),
{
    let ghost s = segments@;
    let mut out: Vec<u8> = Vec::new();
    while out.len() < HEADER_LEN
        invariant
            out@.len() <= HEADER_LEN,
            out@ == zeros(out@.len() as int),
        decreases HEADER_LEN - out@.len(),
    {
        out.push(0);
        assert(out@ =~= zeros(out@.len() as int));
    }
    let ghost blank = out@;
    assert(out@ =~= blank + s.body(0));
    let mut ranges: Vec<SegmentRange> = Vec::new();
    let ghost before = out@;
    let r0 = append_segment(&mut out, segments.sequences.as_slice(), SEQUENCES);
    proof {
        lemma_appended(s, 0, blank, before, out@, r0);
    }
    let ghost before = out@;
    let r1 = append_segment(&mut out, segments.sequence_index.as_slice(), SEQUENCE_INDEX);
    proof {
        lemma_appended(s, 1, blank, before, out@, r1);
    }
    let ghost before = out@;
    let r2 = append_segment(&mut out, segments.edges.as_slice(), EDGES);
    proof {
        lemma_appended(s, 2, blank, before, out@, r2);
    }
    let ghost before = out@;
    let r3 = append_segment(&mut out, segments.edge_index.as_slice(), EDGE_INDEX);
    proof {
        lemma_appended(s, 3, blank, before, out@, r3);
    }
    let ghost before = out@;
    let r4 = append_segment(&mut out, segments.steps.as_slice(), STEPS);
    proof {
        lemma_appended(s, 4, blank, before, out@, r4);
    }
    let ghost before = out@;
    let r5 = append_segment(&mut out, segments.step_index.as_slice(), STEP_INDEX);
    proof {
        lemma_appended(s, 5, blank, before, out@, r5);
    }
    let ghost before = out@;
    let r6 = append_segment(&mut out, segments.names.as_slice(), NAMES);
    proof {
        lemma_appended(s, 6, blank, before, out@, r6);
    }
    let ghost before = out@;
    let r7 = append_segment(&mut out, segments.name_index.as_slice(), NAME_INDEX);
    proof {
        lemma_appended(s, 7, blank, before, out@, r7);
    }
    ranges.push(r0);
    ranges.push(r1);
    ranges.push(r2);
    ranges.push(r3);
    ranges.push(r4);
    ranges.push(r5);
    ranges.push(r6);
    ranges.push(r7);
    assert(ranges@ =~= s.ranges());
    let head = write_header(&ranges);
    overwrite_front(&mut out, head.as_slice());
    assert(out@ =~= encoded(s));
    out
}

} // verus!
