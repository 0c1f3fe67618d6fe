//! The image of a graph: which bytes stand for it, and the proof that
//! loading them gives the graph back.

use crate::error::GraphError;
use crate::graph::{Edge, GraphModel, Step};
use crate::index::{entry_ok, index_ok, lemma_index_ok};
use crate::layout::{
    decoded, encoded, lemma_cut_image_rejected, lemma_decode_encoded, SegmentsModel,
};
use crate::loader::loaded;
use crate::record::{
    edge_word, edges_of, lemma_edge_word, lemma_step_word, step_word, steps_of,
};
use crate::scan::lemma_first_failure_is;
use crate::store::{aligned, part, range_fits, stored, whole, StoreModel};
use crate::view::{
    edge_lands, graph_at, lemma_graph_of_valid, node_at, node_total, path_at, step_lands,
    valid_store, well_shaped,
};
use crate::words::{lemma_word_bytes_len, lemma_words_of_word_bytes, word_bytes, words};
use vstd::prelude::*;

verus! {

/// The chunks one after the other.
pub open spec fn joined<T>(chunks: Seq<Seq<T>>) -> Seq<T>
    decreases chunks.len(),
{
    if chunks.len() == 0 {
        Seq::empty()
    } else {
        joined(chunks.drop_last()) + chunks.last()
    }
}

/// The offset index of the chunks when their elements are `width` bytes wide:
/// entry `i` is the number of bytes that the chunks before chunk `i` take.
pub open spec fn offsets<T>(chunks: Seq<Seq<T>>, width: int) -> Seq<u64> {
    Seq::new(chunks.len() + 1, |i: int| (width * joined(chunks.take(i)).len()) as u64)
}

/// The words of a sequence of edges.
pub open spec fn edge_words(edges: Seq<Edge>) -> Seq<u64> {
    Seq::new(edges.len(), |k: int| edge_word(edges[k]) as u64)
}

/// The words of a sequence of steps.
pub open spec fn step_words(steps: Seq<Step>) -> Seq<u64> {
    Seq::new(steps.len(), |k: int| step_word(steps[k]) as u64)
}

/// The sequence of each node.
pub open spec fn node_sequences(g: GraphModel) -> Seq<Seq<u8>> {
    Seq::new(g.nodes.len(), |i: int| g.nodes[i].sequence)
}

/// The edge words of each node.
pub open spec fn node_edge_words(g: GraphModel) -> Seq<Seq<u64>> {
    Seq::new(g.nodes.len(), |i: int| edge_words(g.nodes[i].edges))
}

/// The name of each path.
pub open spec fn path_names(g: GraphModel) -> Seq<Seq<u8>> {
    Seq::new(g.paths.len(), |p: int| g.paths[p].name)
}

/// The step words of each path.
pub open spec fn path_step_words(g: GraphModel) -> Seq<Seq<u64>> {
    Seq::new(g.paths.len(), |p: int| step_words(g.paths[p].steps))
}

/// The typed arrays that hold the graph.
pub open spec fn store_of(g: GraphModel) -> StoreModel {
    StoreModel {
        sequences: joined(node_sequences(g)),
        sequence_index: offsets(node_sequences(g), 1),
        edges: joined(node_edge_words(g)),
        edge_index: offsets(node_edge_words(g), 8),
        steps: joined(path_step_words(g)),
        step_index: offsets(path_step_words(g), 8),
        names: joined(path_names(g)),
        name_index: offsets(path_names(g), 1),
    }
}

/// The bytes of the eight segments that hold the graph.
pub open spec fn segments_of(g: GraphModel) -> SegmentsModel {
    let s = store_of(g);
    SegmentsModel {
        sequences: s.sequences,
        sequence_index: word_bytes(s.sequence_index),
        edges: word_bytes(s.edges),
        edge_index: word_bytes(s.edge_index),
        steps: word_bytes(s.steps),
        step_index: word_bytes(s.step_index),
        names: s.names,
        name_index: word_bytes(s.name_index),
    }
}

/// The image of the graph.
pub open spec fn image(g: GraphModel) -> Seq<u8> {
    encoded(segments_of(g))
}

/// The chunks up to and including chunk `i` are those before it, then it.
pub proof fn lemma_joined_take<T>(chunks: Seq<Seq<T>>, i: int)
    requires
        0 <= i < chunks.len(),
    ensures
        joined(chunks.take(i + 1)) == joined(chunks.take(i)) + chunks[i],
{
    assert(chunks.take(i + 1).drop_last() =~= chunks.take(i));
}

/// The chunks before chunk `i`, joined, are the beginning of all chunks
/// joined.
pub proof fn lemma_joined_prefix<T>(chunks: Seq<Seq<T>>, i: int)
    requires
        0 <= i <= chunks.len(),
    ensures
        joined(chunks.take(i)).len() <= joined(chunks).len(),
        joined(chunks).subrange(0, joined(chunks.take(i)).len() as int) == joined(chunks.take(i)),
    decreases chunks.len() - i,
{
    if i == chunks.len() {
        assert(chunks.take(i) =~= chunks);
        assert(joined(chunks).subrange(0, joined(chunks).len() as int) =~= joined(chunks));
    } else {
        lemma_joined_prefix(chunks, i + 1);
        lemma_joined_take(chunks, i);
        let longer = joined(chunks.take(i + 1));
        assert(joined(chunks).subrange(0, joined(chunks.take(i)).len() as int)
            =~= joined(chunks).subrange(0, longer.len() as int).subrange(
            0,
            joined(chunks.take(i)).len() as int,
        ));
        assert(longer.subrange(0, joined(chunks.take(i)).len() as int) =~= joined(
            chunks.take(i),
        ));
    }
}

/// Chunk `i` stands in the joined chunks right after the chunks before it.
pub proof fn lemma_chunk_at<T>(chunks: Seq<Seq<T>>, i: int)
    requires
        0 <= i < chunks.len(),
    ensures
        joined(chunks.take(i)).len() + chunks[i].len() == joined(chunks.take(i + 1)).len(),
        joined(chunks.take(i + 1)).len() <= joined(chunks).len(),
        joined(chunks).subrange(
            joined(chunks.take(i)).len() as int,
            joined(chunks.take(i + 1)).len() as int,
        ) == chunks[i],
{
    lemma_joined_prefix(chunks, i + 1);
    lemma_joined_take(chunks, i);
    let from = joined(chunks.take(i)).len() as int;
    let to = joined(chunks.take(i + 1)).len() as int;
    assert(joined(chunks).subrange(from, to) =~= joined(chunks).subrange(0, to).subrange(
        from,
        to,
    ));
    assert(joined(chunks.take(i + 1)).subrange(from, to) =~= chunks[i]);
}

/// What holds of every element of every chunk holds of every element of the
/// joined chunks.
pub proof fn lemma_joined_all<T>(chunks: Seq<Seq<T>>, holds: spec_fn(T) -> bool)
    requires
        forall|i: int, k: int|
            0 <= i < chunks.len() && 0 <= k < chunks[i].len() ==> holds(#[trigger] chunks[i][k]),
    ensures
        forall|r: int| 0 <= r < joined(chunks).len() ==> holds(#[trigger] joined(chunks)[r]),
    decreases chunks.len(),
{
    if chunks.len() > 0 {
        let front = chunks.drop_last();
        assert forall|i: int, k: int| 0 <= i < front.len() && 0 <= k < front[i].len() implies holds(
            #[trigger] front[i][k],
        ) by {
            assert(front[i][k] == chunks[i][k]);
        }
        lemma_joined_all(front, holds);
        assert forall|r: int| 0 <= r < joined(chunks).len() implies holds(
            #[trigger] joined(chunks)[r],
        ) by {
            if r >= joined(front).len() {
                assert(joined(chunks)[r] == chunks[chunks.len() - 1][r - joined(front).len()]);
            } else {
                assert(joined(chunks)[r] == joined(front)[r]);
            }
        }
    }
}

/// The offset index of chunks keeps the rules of an offset index over the
/// joined chunks.
pub proof fn lemma_offsets_ok<T>(chunks: Seq<Seq<T>>, width: int)
    requires
        width == 1 || width == 8,
        width * joined(chunks).len() <= u64::MAX,
    ensures
        index_ok(offsets(chunks, width), width, width * joined(chunks).len()),
        forall|i: int|
            0 <= i <= chunks.len() ==> #[trigger] offsets(chunks, width)[i] == width * joined(
                chunks.take(i),
            ).len(),
{
    let index = offsets(chunks, width);
    let total = width * joined(chunks).len();
    assert forall|i: int| 0 <= i <= chunks.len() implies #[trigger] index[i] == width * joined(
        chunks.take(i),
    ).len() by {
        lemma_joined_prefix(chunks, i);
    }
    assert forall|i: int| 0 <= i < index.len() implies entry_ok(index, width, total, i) by {
        assert(index[i] == width * joined(chunks.take(i)).len());
        if i == 0 {
            assert(chunks.take(0) =~= Seq::<Seq<T>>::empty());
        } else {
            assert(index[i - 1] == width * joined(chunks.take(i - 1)).len());
            lemma_joined_take(chunks, i - 1);
        }
        if i == index.len() - 1 {
            assert(chunks.take(i) =~= chunks);
        }
    }
    lemma_index_ok(index, width, total);
}

/// The graph is small enough for every number in its image to fit the word
/// that holds it.
pub open spec fn fits_words(g: GraphModel) -> bool {
    &&& joined(node_sequences(g)).len() <= u64::MAX
    &&& 8 * joined(node_edge_words(g)).len() <= u64::MAX
    &&& 8 * joined(path_step_words(g)).len() <= u64::MAX
    &&& joined(path_names(g)).len() <= u64::MAX
    &&& 8 * (g.nodes.len() + 1) <= usize::MAX
}

/// The arrays that hold a well-formed graph keep the rules of the data
/// model, and the graph that they hold is that graph.
pub proof fn lemma_store_of_holds(g: GraphModel)
    requires
        g.wf(),
        fits_words(g),
    ensures
        valid_store(store_of(g)),
        graph_at(store_of(g)) == g,
{
    let s = store_of(g);
    let n = g.nodes.len() as int;
    lemma_offsets_ok(node_sequences(g), 1);
    lemma_offsets_ok(node_edge_words(g), 8);
    lemma_offsets_ok(path_step_words(g), 8);
    lemma_offsets_ok(path_names(g), 1);
    assert(well_shaped(s));
    assert(node_total(s) == n);
    assert forall|i: int, k: int|
        0 <= i < node_edge_words(g).len() && 0 <= k < node_edge_words(g)[i].len() implies (
    |w: u64| w as int / 4 < n)(#[trigger] node_edge_words(g)[i][k]) by {
        let e = g.nodes[i].edges[k];
        assert(e.to.node < n);
        lemma_edge_word(e);
    }
    lemma_joined_all(node_edge_words(g), |w: u64| w as int / 4 < n);
    assert forall|r: int| 0 <= r < s.edges.len() implies edge_lands(s, r) by {
        assert((|w: u64| w as int / 4 < n)(s.edges[r]));
    }
    assert forall|p: int, k: int|
        0 <= p < path_step_words(g).len() && 0 <= k < path_step_words(g)[p].len() implies (
    |w: u64| w as int / 2 < n)(#[trigger] path_step_words(g)[p][k]) by {
        let t = g.paths[p].steps[k];
        assert(t.node < n);
        lemma_step_word(t);
    }
    lemma_joined_all(path_step_words(g), |w: u64| w as int / 2 < n);
    assert forall|r: int| 0 <= r < s.steps.len() implies step_lands(s, r) by {
        assert((|w: u64| w as int / 2 < n)(s.steps[r]));
    }
    assert(valid_store(s));
    let h = graph_at(s);
    assert forall|i: int| 0 <= i < n implies h.nodes[i] == g.nodes[i] by {
        lemma_chunk_at(node_sequences(g), i);
        lemma_chunk_at(node_edge_words(g), i);
        assert(s.sequence_index[i] == joined(node_sequences(g).take(i)).len());
        assert(s.sequence_index[i + 1] == joined(node_sequences(g).take(i + 1)).len());
        assert(s.edge_index[i] == 8 * joined(node_edge_words(g).take(i)).len());
        assert(s.edge_index[i + 1] == 8 * joined(node_edge_words(g).take(i + 1)).len());
        let ws = s.edges.subrange(s.edge_index[i] as int / 8, s.edge_index[i + 1] as int / 8);
        assert(ws == edge_words(g.nodes[i].edges));
        assert forall|k: int| 0 <= k < g.nodes[i].edges.len() implies edges_of(i, ws)[k]
            == g.nodes[i].edges[k] by {
            let e = g.nodes[i].edges[k];
            assert(e.from.node == i && e.to.node < n);
            lemma_edge_word(e);
        }
        assert(edges_of(i, ws) =~= g.nodes[i].edges);
        assert(node_at(s, i).sequence == g.nodes[i].sequence);
    }
    assert forall|p: int| 0 <= p < g.paths.len() implies h.paths[p] == g.paths[p] by {
        lemma_chunk_at(path_names(g), p);
        lemma_chunk_at(path_step_words(g), p);
        assert(s.name_index[p] == joined(path_names(g).take(p)).len());
        assert(s.name_index[p + 1] == joined(path_names(g).take(p + 1)).len());
        assert(s.step_index[p] == 8 * joined(path_step_words(g).take(p)).len());
        assert(s.step_index[p + 1] == 8 * joined(path_step_words(g).take(p + 1)).len());
        let ws = s.steps.subrange(s.step_index[p] as int / 8, s.step_index[p + 1] as int / 8);
        assert(ws == step_words(g.paths[p].steps));
        assert forall|k: int| 0 <= k < g.paths[p].steps.len() implies steps_of(ws)[k]
            == g.paths[p].steps[k] by {
            let t = g.paths[p].steps[k];
            assert(t.node < n);
            lemma_step_word(t);
        }
        assert(steps_of(ws) =~= g.paths[p].steps);
        assert(path_at(s, p).name == g.paths[p].name);
    }
    assert(h.nodes =~= g.nodes);
    assert(h.paths =~= g.paths);
}

/// The header of an image of a graph decodes, and the segments that it
/// declares are the arrays that hold the graph.
pub proof fn lemma_stored_image(g: GraphModel)
    requires
        image(g).len() <= usize::MAX,
    ensures
        decoded(image(g)) is Ok,
        stored(image(g), decoded(image(g))->Ok_0) == Ok::<StoreModel, GraphError>(store_of(g)),
        fits_words(g),
{
    let segments = segments_of(g);
    let s = store_of(g);
    let b = image(g);
    lemma_decode_encoded(segments);
    let h = decoded(b)->Ok_0;
    lemma_word_bytes_len(s.sequence_index);
    lemma_word_bytes_len(s.edges);
    lemma_word_bytes_len(s.edge_index);
    lemma_word_bytes_len(s.steps);
    lemma_word_bytes_len(s.step_index);
    lemma_word_bytes_len(s.name_index);
    lemma_words_of_word_bytes(s.sequence_index);
    lemma_words_of_word_bytes(s.edges);
    lemma_words_of_word_bytes(s.edge_index);
    lemma_words_of_word_bytes(s.steps);
    lemma_words_of_word_bytes(s.step_index);
    lemma_words_of_word_bytes(s.name_index);
    let fits = |k: int| range_fits(b, h.segments[k]);
    let lined = |k: int| aligned(h, k);
    let full = |k: int| whole(h, k);
    assert forall|k: int| 0 <= k < 8 implies #[trigger] fits(k) && part(b, h.segments[k])
        == segments.bytes_of(k) by {
        assert(h.segments[k].offset == segments.start(k));
    }
    assert forall|k: int| 0 <= k < 8 implies #[trigger] lined(k) by {
        assert(h.segments[k].offset == segments.start(k));
    }
    assert forall|k: int| 0 <= k < 8 implies #[trigger] full(k) by {
        assert(h.segments[k].len == segments.bytes_of(k).len());
    }
    lemma_first_failure_is(fits, 0, 8, 8);
    lemma_first_failure_is(lined, 0, 8, 8);
    lemma_first_failure_is(full, 0, 8, 8);
    assert(fits(0) && fits(1) && fits(2) && fits(3) && fits(4) && fits(5) && fits(6) && fits(7));
}

/// Round trip: loading the image of a well-formed graph gives the graph
/// back, with every node's sequence and edges and every path's name and
/// steps as they were.
pub proof fn lemma_round_trip(g: GraphModel)
    requires
        g.wf(),
        image(g).len() <= usize::MAX,
    ensures
        loaded(image(g)) == Ok::<GraphModel, GraphError>(g),
{
    lemma_stored_image(g);
    lemma_store_of_holds(g);
    lemma_graph_of_valid(store_of(g));
}

/// An image of a graph that is cut short anywhere after the magic bytes
/// does not load: it is reported as a truncated file, and no part of it is
/// read as a graph.
pub proof fn lemma_cut_image_not_loaded(g: GraphModel, n: int)
    requires
        image(g).len() <= usize::MAX,
        4 <= n < image(g).len(),
    ensures
        loaded(image(g).take(n)) matches Err(GraphError::TruncatedFile { file_len, .. })
            && file_len == n,
{
    lemma_cut_image_rejected(segments_of(g), n);
}

} // verus!
