//! The segments of an image as borrowed, typed arrays.
//!
//! Nothing is copied: a [`SegmentStore`] holds sub-slices of the image, and a
//! [`WordSlice`] decodes a word from its eight bytes when it is asked for.

use crate::error::GraphError;
use crate::layout::{element_width, width_of, Header, HeaderModel, SegmentRange};
use crate::scan::{first_failure, lemma_first_failure_is};
use crate::words::{read_u64, words};
use vstd::prelude::*;
use vstd::slice::slice_subrange;

verus! {

/// A borrowed array of 64-bit little-endian words.
#[derive(Clone, Copy, Debug)]
pub struct WordSlice<'a> {
    bytes: &'a [u8],
}

impl<'a> View for WordSlice<'a> {
    type V = Seq<u64>;

    closed spec fn view(&self) -> Seq<u64> {
        words(self.bytes@)
    }
}

/// The words of a sub-slice that starts and ends at word boundaries are a
/// sub-range of the words.
pub proof fn lemma_words_subrange(b: Seq<u8>, from: int, to: int)
    requires
        0 <= from <= to,
        8 * to <= b.len(),
    ensures
        words(b.subrange(8 * from, 8 * to)) == words(b).subrange(from, to),
{
    let inner = b.subrange(8 * from, 8 * to);
    assert forall|i: int| 0 <= i < to - from implies words(inner)[i] == words(b)[from + i] by {
        assert(inner.subrange(8 * i, 8 * i + 8) =~= b.subrange(
            8 * (from + i),
            8 * (from + i) + 8,
        ));
    }
    assert(words(inner) =~= words(b).subrange(from, to));
}

impl<'a> WordSlice<'a> {
    /// The bytes are those of whole words.
    #[verifier::type_invariant]
    spec fn whole_words(self) -> bool {
        self.bytes@.len() % 8 == 0
    }

    /// Reads `bytes` as an array of words, if its length is a multiple of
    /// eight.
    pub fn new(bytes: &'a [u8]) -> (r: Option<WordSlice<'a>>)
        ensures
            r is Some <==> bytes@.len() % 8 == 0,
            r matches Some(w) ==> w@ == words(bytes@),
    {
        if bytes.len() % 8 == 0 {
            Some(WordSlice { bytes })
        } else {
            None
        }
    }

    /// The number of words.
    pub fn len(&self) -> (n: usize)
        ensures
            n == self@.len(),
    {
        self.bytes.len() / 8
    }

    /// The number of bytes that hold the words.
    pub fn byte_len(&self) -> (n: usize)
        ensures
            n == 8 * self@.len(),
    {
        proof {
            use_type_invariant(self);
        }
        self.bytes.len()
    }

    /// Word number `i`, if there is one.
    pub fn get(&self, i: usize) -> (x: Option<u64>)
        ensures
            x == if i < self@.len() {
                Some(self@[i as int])
            } else {
                None
            },
    {
        if i < self.len() {
            Some(self.word(i))
        } else {
            None
        }
    }

    /// Word number `i`.
    pub(crate) fn word(&self, i: usize) -> (x: u64)
        requires
            i < self@.len(),
        ensures
            x == self@[i as int],
    {
        proof {
            assert(self.bytes@.len() == self.bytes.len());
        }
        read_u64(self.bytes, 8 * i)
    }

    /// The words from number `from` up to, not including, number `to`.
    pub(crate) fn slice(&self, from: usize, to: usize) -> (r: WordSlice<'a>)
        requires
            from <= to <= self@.len(),
        ensures
            r@ == self@.subrange(from as int, to as int),
    {
        proof {
            assert(self.bytes@.len() == self.bytes.len());
        }
        proof {
            lemma_words_subrange(self.bytes@, from as int, to as int);
        }
        WordSlice { bytes: slice_subrange(self.bytes, 8 * from, 8 * to) }
    }
}

/// The typed contents of the eight segments, as mathematical values.
pub struct StoreModel {
    pub sequences: Seq<u8>,
    pub sequence_index: Seq<u64>,
    pub edges: Seq<u64>,
    pub edge_index: Seq<u64>,
    pub steps: Seq<u64>,
    pub step_index: Seq<u64>,
    pub names: Seq<u8>,
    pub name_index: Seq<u64>,
}

/// The range lies within `b`.
pub open spec fn range_fits(b: Seq<u8>, r: SegmentRange) -> bool {
    r.offset + r.len <= b.len()
}

/// Segment `k` starts at a multiple of its element width.
pub open spec fn aligned(h: HeaderModel, k: int) -> bool {
    h.segments[k].offset as int % element_width(k) == 0
}

/// The length of segment `k` is a multiple of its element width.
pub open spec fn whole(h: HeaderModel, k: int) -> bool {
    h.segments[k].len as int % element_width(k) == 0
}

/// The bytes of `b` in the range.
pub open spec fn part(b: Seq<u8>, r: SegmentRange) -> Seq<u8> {
    b.subrange(r.offset as int, r.offset + r.len)
}

/// What taking the segments that `h` declares out of `b` gives: the typed
/// arrays, or the first of these failures, tested in this order.
///
/// - `MalformedHeader`: `h` does not declare eight segments.
/// - `TruncatedFile`: a segment reaches past the end of `b`; the first such
///   segment is reported.
/// - `AlignmentError`: a segment does not start at a multiple of its element
///   width; the first such segment is reported.
/// - `MalformedHeader`: the length of a segment is not a multiple of its
///   element width.
pub open spec fn stored(b: Seq<u8>, h: HeaderModel) -> Result<StoreModel, GraphError> {
    if h.segments.len() != 8 {
        Err(GraphError::MalformedHeader)
    } else {
        let t = first_failure(|k: int| range_fits(b, h.segments[k]), 0, 8);
        let a = first_failure(|k: int| aligned(h, k), 0, 8);
        let w = first_failure(|k: int| whole(h, k), 0, 8);
        if t < 8 {
            Err(
                GraphError::TruncatedFile {
                    offset: h.segments[t].offset as u64,
                    len: h.segments[t].len as u64,
                    file_len: b.len() as u64,
                },
            )
        } else if a < 8 {
            Err(GraphError::AlignmentError { segment: a as usize, offset: h.segments[a].offset as u64 })
        } else if w < 8 {
            Err(GraphError::MalformedHeader)
        } else {
            Ok(
                StoreModel {
                    sequences: part(b, h.segments[0]),
                    sequence_index: words(part(b, h.segments[1])),
                    edges: words(part(b, h.segments[2])),
                    edge_index: words(part(b, h.segments[3])),
                    steps: words(part(b, h.segments[4])),
                    step_index: words(part(b, h.segments[5])),
                    names: part(b, h.segments[6]),
                    name_index: words(part(b, h.segments[7])),
                },
            )
        }
    }
}

/// The eight segments of an image, each a typed array borrowed from it.
#[derive(Clone, Copy, Debug)]
pub struct SegmentStore<'a> {
    sequences: &'a [u8],
    sequence_index: WordSlice<'a>,
    edges: WordSlice<'a>,
    edge_index: WordSlice<'a>,
    steps: WordSlice<'a>,
    step_index: WordSlice<'a>,
    names: &'a [u8],
    name_index: WordSlice<'a>,
}

impl<'a> View for SegmentStore<'a> {
    type V = StoreModel;

    closed spec fn view(&self) -> StoreModel {
        StoreModel {
            sequences: self.sequences@,
            sequence_index: self.sequence_index@,
            edges: self.edges@,
            edge_index: self.edge_index@,
            steps: self.steps@,
            step_index: self.step_index@,
            names: self.names@,
            name_index: self.name_index@,
        }
    }
}

/// Cuts the range out of the image.
fn cut<'a>(bytes: &'a [u8], r: SegmentRange) -> (s: &'a [u8])
    requires
        range_fits(bytes@, r),
    ensures
        s@ == part(bytes@, r),
{
    proof {
        assert(bytes@.len() == bytes.len());
    }
    slice_subrange(bytes, r.offset, r.offset + r.len)
}

/// Cuts the range out of the image and reads it as words.
fn cut_words<'a>(bytes: &'a [u8], r: SegmentRange) -> (s: WordSlice<'a>)
    requires
        range_fits(bytes@, r),
        r.len % 8 == 0,
    ensures
        s@ == words(part(bytes@, r)),
{
    WordSlice { bytes: cut(bytes, r) }
}

impl<'a> SegmentStore<'a> {
    /// Takes the segments that `header` declares out of `bytes`: [`stored`].
    pub fn new(bytes: &'a [u8], header: &Header) -> (res: Result<SegmentStore<'a>, GraphError>)
        ensures
            match res {
                Ok(store) => stored(bytes@, header@) == Ok::<StoreModel, GraphError>(store@),
                Err(e) => stored(bytes@, header@) == Err::<StoreModel, GraphError>(e),
            },
    {
        let n = bytes.len();
        if header.segments.len() != 8 {
            return Err(GraphError::MalformedHeader);
        }
        let ghost h = header@;
        let ghost fits = |k: int| range_fits(bytes@, h.segments[k]);
        let ghost lined = |k: int| aligned(h, k);
        let ghost full = |k: int| whole(h, k);
        let mut k: usize = 0;
        while k < 8
            invariant
                k <= 8,
                n == bytes@.len(),
                h == header@,
                h.segments.len() == 8,
                fits == (|k: int| range_fits(bytes@, h.segments[k])),
                forall|j: int| 0 <= j < k ==> #[trigger] fits(j),
            decreases 8 - k,
        {
            let r = header.segments[k];
            if r.offset > n || r.len > n - r.offset {
                proof {
                    assert(!fits(k as int));
                    lemma_first_failure_is(fits, 0, 8, k as int);
                }
                return Err(
                    GraphError::TruncatedFile {
                        offset: r.offset as u64,
                        len: r.len as u64,
                        file_len: n as u64,
                    },
                );
            }
            assert(fits(k as int));
            k += 1;
        }
        proof {
            lemma_first_failure_is(fits, 0, 8, 8);
        }
        let mut k: usize = 0;
        while k < 8
            invariant
                k <= 8,
                h == header@,
                h.segments.len() == 8,
                first_failure(fits, 0, 8) == 8,
                fits == (|k: int| range_fits(bytes@, h.segments[k])),
                lined == (|k: int| aligned(h, k)),
                forall|j: int| 0 <= j < k ==> #[trigger] lined(j),
            decreases 8 - k,
        {
            let r = header.segments[k];
            if r.offset % width_of(k) != 0 {
                proof {
                    assert(!lined(k as int));
                    lemma_first_failure_is(lined, 0, 8, k as int);
                }
                return Err(GraphError::AlignmentError { segment: k, offset: r.offset as u64 });
            }
            assert(lined(k as int));
            k += 1;
        }
        proof {
            lemma_first_failure_is(lined, 0, 8, 8);
        }
        let mut k: usize = 0;
        while k < 8
            invariant
                k <= 8,
                h == header@,
                h.segments.len() == 8,
                first_failure(fits, 0, 8) == 8,
                first_failure(lined, 0, 8) == 8,
                fits == (|k: int| range_fits(bytes@, h.segments[k])),
                lined == (|k: int| aligned(h, k)),
                full == (|k: int| whole(h, k)),
                forall|j: int| 0 <= j < k ==> #[trigger] full(j),
            decreases 8 - k,
        {
            let r = header.segments[k];
            if r.len % width_of(k) != 0 {
                proof {
                    assert(!full(k as int));
                    lemma_first_failure_is(full, 0, 8, k as int);
                }
                return Err(GraphError::MalformedHeader);
            }
            assert(full(k as int));
            k += 1;
        }
        proof {
            lemma_first_failure_is(full, 0, 8, 8);
            crate::scan::lemma_first_failure(fits, 0, 8);
            assert(fits(0) && fits(1) && fits(2) && fits(3) && fits(4) && fits(5) && fits(6)
                && fits(7));
            assert(full(1) && full(2) && full(3) && full(4) && full(5) && full(7));
        }
        Ok(
            SegmentStore {
                sequences: cut(bytes, header.segments[0]),
                sequence_index: cut_words(bytes, header.segments[1]),
                edges: cut_words(bytes, header.segments[2]),
                edge_index: cut_words(bytes, header.segments[3]),
                steps: cut_words(bytes, header.segments[4]),
                step_index: cut_words(bytes, header.segments[5]),
                names: cut(bytes, header.segments[6]),
                name_index: cut_words(bytes, header.segments[7]),
            },
        )
    }

    /// The sequence bytes of all nodes.
    pub fn sequences(&self) -> (r: &'a [u8])
        ensures
            r@ == self@.sequences,
    {
        self.sequences
    }

    /// The offset index into the sequence bytes.
    pub fn sequence_index(&self) -> (r: WordSlice<'a>)
        ensures
            r@ == self@.sequence_index,
    {
        self.sequence_index
    }

    /// The edge records of all nodes.
    pub fn edges(&self) -> (r: WordSlice<'a>)
        ensures
            r@ == self@.edges,
    {
        self.edges
    }

    /// The offset index into the edge records.
    pub fn edge_index(&self) -> (r: WordSlice<'a>)
        ensures
            r@ == self@.edge_index,
    {
        self.edge_index
    }

    /// The step records of all paths.
    pub fn steps(&self) -> (r: WordSlice<'a>)
        ensures
            r@ == self@.steps,
    {
        self.steps
    }

    /// The offset index into the step records.
    pub fn step_index(&self) -> (r: WordSlice<'a>)
        ensures
            r@ == self@.step_index,
    {
        self.step_index
    }

    /// The name bytes of all paths.
    pub fn names(&self) -> (r: &'a [u8])
        ensures
            r@ == self@.names,
    {
        self.names
    }

    /// The offset index into the name bytes.
    pub fn name_index(&self) -> (r: WordSlice<'a>)
        ensures
            r@ == self@.name_index,
    {
        self.name_index
    }
}

/// Entries `index` and `index + 1` of `offsets` exist and bound a range
/// within `data_len` bytes.
pub open spec fn bounds_entity(offsets: Seq<u64>, index: int, data_len: int) -> bool {
    &&& 0 <= index
    &&& index + 1 < offsets.len()
    &&& offsets[index] <= offsets[index + 1] <= data_len
}

/// The bytes of entity number `index`: those of `data` from
/// `offsets[index]` up to `offsets[index + 1]`, or nothing where the two
/// entries do not bound a range within `data`.
pub fn slice_for<'a>(index: usize, offsets: &WordSlice, data: &'a [u8]) -> (r: Option<&'a [u8]>)
    ensures
        r is Some <==> bounds_entity(offsets@, index as int, data@.len() as int),
        r matches Some(s) ==> s@ == data@.subrange(
            offsets@[index as int] as int,
            offsets@[index + 1] as int,
        ),
{
    let count = offsets.len();
    if index >= count || index + 1 >= count {
        return None;
    }
    let from = offsets.word(index);
    let to = offsets.word(index + 1);
    if from > to || to > data.len() as u64 {
        return None;
    }
    Some(entity_bytes(index, offsets, data))
}

/// The bytes of entity number `index`, where the index is known to bound
/// them.
pub(crate) fn entity_bytes<'a>(index: usize, offsets: &WordSlice, data: &'a [u8]) -> (s: &'a [u8])
    requires
        bounds_entity(offsets@, index as int, data@.len() as int),
    ensures
        s@ == data@.subrange(offsets@[index as int] as int, offsets@[index + 1] as int),
{
    proof {
        assert(offsets.bytes@.len() == offsets.bytes.len());
        assert(data@.len() == data.len());
    }
    let from = offsets.word(index);
    let to = offsets.word(index + 1);
    slice_subrange(data, from as usize, to as usize)
}

/// The records of entity number `index`, where the index is known to bound
/// them at whole words.
pub(crate) fn entity_records<'a>(index: usize, offsets: &WordSlice, data: &WordSlice<'a>) -> (w:
    WordSlice<'a>)
    requires
        bounds_entity(offsets@, index as int, 8 * (data@.len() as int)),
    ensures
        w@ == data@.subrange(offsets@[index as int] as int / 8, offsets@[index + 1] as int / 8),
{
    proof {
        use_type_invariant(data);
        assert(offsets.bytes@.len() == offsets.bytes.len());
        assert(data.bytes@.len() == data.bytes.len());
    }
    let from = offsets.word(index);
    let to = offsets.word(index + 1);
    data.slice((from / 8) as usize, (to / 8) as usize)
}

/// The records of entity number `index`: the words of `data` that occupy its
/// bytes from `offsets[index]` up to `offsets[index + 1]`, or nothing where
/// the two entries do not bound a range of whole words within `data`.
pub fn records_for<'a>(index: usize, offsets: &WordSlice, data: &WordSlice<'a>) -> (r: Option<
    WordSlice<'a>,
>)
    ensures
        r is Some <==> {
            &&& bounds_entity(offsets@, index as int, 8 * (data@.len() as int))
            &&& offsets@[index as int] % 8 == 0
            &&& offsets@[index + 1] % 8 == 0
        },
        r matches Some(w) ==> w@ == data@.subrange(
            offsets@[index as int] as int / 8,
            offsets@[index + 1] as int / 8,
        ),
{
    let count = offsets.len();
    if index >= count || index + 1 >= count {
        return None;
    }
    let from = offsets.word(index);
    let to = offsets.word(index + 1);
    if from > to || to % 8 != 0 || from % 8 != 0 || to > data.byte_len() as u64 {
        return None;
    }
    Some(entity_records(index, offsets, data))
}

} // verus!
