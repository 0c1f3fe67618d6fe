//! Loading a graph from the bytes of an image.
//!
//! Loading decodes the header, takes the segments out of the image and checks
//! that they hold a graph. Nothing is copied: the view borrows the image, so
//! it cannot outlive it.

use crate::error::GraphError;
use crate::graph::GraphModel;
use crate::layout::{decode, decoded};
use crate::scan::{first_failure, lemma_first_failure, lemma_first_failure_is};
use crate::store::{aligned, range_fits, stored, SegmentStore};
use crate::view::{graph_of, lemma_graph_of_valid, lemma_valid_graph, GraphView};
use vstd::prelude::*;

verus! {

/// What loading the image `b` gives: the graph that it holds, or the first
/// failure of [`decoded`], of [`stored`] or of [`graph_of`], in this order.
pub open spec fn loaded(b: Seq<u8>) -> Result<GraphModel, GraphError> {
    match decoded(b) {
        Err(e) => Err(e),
        Ok(h) => match stored(b, h) {
            Err(e) => Err(e),
            Ok(s) => graph_of(s),
        },
    }
}

/// Loads the graph that the image `bytes` holds: [`loaded`].
pub fn load<'a>(bytes: &'a [u8]) -> (res: Result<GraphView<'a>, GraphError>)
    ensures
        match res {
            Ok(view) => loaded(bytes@) == Ok::<GraphModel, GraphError>(view@) && view@.wf(),
            Err(e) => loaded(bytes@) == Err::<GraphModel, GraphError>(e),
        },
{
    let header = decode(bytes)?;
    let store = SegmentStore::new(bytes, &header)?;
    GraphView::new(store)
}

/// The graph of an image that loads is well formed: every edge ends at a
/// node of the graph, and every step visits one.
pub proof fn lemma_loaded_well_formed(b: Seq<u8>)
    requires
        b.len() <= usize::MAX,
        loaded(b) is Ok,
    ensures
        (loaded(b)->Ok_0).wf(),
{
    let h = decoded(b)->Ok_0;
    let s = stored(b, h)->Ok_0;
    let fits = |k: int| range_fits(b, h.segments[k]);
    lemma_first_failure(fits, 0, 8);
    assert(fits(1));
    lemma_graph_of_valid(s);
    lemma_valid_graph(s);
}

/// An image whose header decodes and declares a segment that starts off the
/// multiples of its element width does not load: the first such segment is
/// reported in an `AlignmentError`.
pub proof fn lemma_misaligned_segment_rejected(b: Seq<u8>, k: int)
    requires
        b.len() <= usize::MAX,
        decoded(b) is Ok,
        0 <= k < 8,
        !aligned(decoded(b)->Ok_0, k),
    ensures
        loaded(b) matches Err(GraphError::AlignmentError { segment, offset }) && segment <= k
            && !aligned(decoded(b)->Ok_0, segment as int) && offset == (decoded(b)->Ok_0).segments[
            segment as int
        ].offset,
{
    let h = decoded(b)->Ok_0;
    let fits = |k: int| range_fits(b, h.segments[k]);
    let declared = |k: int| crate::layout::segment_fits(b, k);
    lemma_first_failure(declared, 0, 8);
    assert forall|j: int| 0 <= j < 8 implies #[trigger] fits(j) by {
        assert(declared(j));
    }
    lemma_first_failure_is(fits, 0, 8, 8);
    let lined = |k: int| aligned(h, k);
    lemma_first_failure(lined, 0, 8);
    if first_failure(lined, 0, 8) > k {
        assert(lined(k));
    }
}

} // verus!
