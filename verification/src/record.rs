//! How edges and steps are packed into 64-bit words.
//!
//! A step is the word `2 * node + strand`. An edge is filed under its source
//! node and is the word `4 * target + 2 * target strand + source strand`. A
//! strand is 0 when forward and 1 when reverse.

use crate::graph::{Edge, Endpoint, Step, Strand};
use vstd::prelude::*;

verus! {

/// The bit that stands for a strand.
pub open spec fn strand_bit(s: Strand) -> int {
    match s {
        Strand::Forward => 0,
        Strand::Reverse => 1,
    }
}

/// The strand that a bit stands for.
pub open spec fn strand_of(bit: int) -> Strand {
    if bit == 0 {
        Strand::Forward
    } else {
        Strand::Reverse
    }
}

/// The word of a step.
pub open spec fn step_word(s: Step) -> int {
    2 * s.node + strand_bit(s.strand)
}

/// The step of a word.
pub open spec fn step_of(w: u64) -> Step {
    Step { node: (w / 2) as usize, strand: strand_of(w as int % 2) }
}

/// The word of an edge.
pub open spec fn edge_word(e: Edge) -> int {
    4 * e.to.node + 2 * strand_bit(e.to.strand) + strand_bit(e.from.strand)
}

/// The edge of a word that is filed under node `from`.
pub open spec fn edge_of(from: int, w: u64) -> Edge {
    Edge {
        from: Endpoint { node: from as usize, strand: strand_of(w as int % 2) },
        to: Endpoint { node: (w / 4) as usize, strand: strand_of((w as int / 2) % 2) },
    }
}

/// The steps of an array of words.
pub open spec fn steps_of(ws: Seq<u64>) -> Seq<Step> {
    Seq::new(ws.len(), |k: int| step_of(ws[k]))
}

/// The edges of an array of words that is filed under node `from`.
pub open spec fn edges_of(from: int, ws: Seq<u64>) -> Seq<Edge> {
    Seq::new(ws.len(), |k: int| edge_of(from, ws[k]))
}

/// Unpacking the word of a step gives the step back.
pub proof fn lemma_step_word(s: Step)
    requires
        step_word(s) <= u64::MAX,
    ensures
        step_of(step_word(s) as u64) == s,
        step_word(s) / 2 == s.node,
{
}

/// Unpacking the word of an edge under its source gives the edge back.
pub proof fn lemma_edge_word(e: Edge)
    requires
        edge_word(e) <= u64::MAX,
    ensures
        edge_of(e.from.node as int, edge_word(e) as u64) == e,
        edge_word(e) / 4 == e.to.node,
{
}

/// The bit of a strand.
pub(crate) fn bit_of(s: Strand) -> (b: u64)
    ensures
        b == strand_bit(s),
{
    match s {
        Strand::Forward => 0,
        Strand::Reverse => 1,
    }
}

/// The strand of the lowest bit of `w`.
pub(crate) fn low_strand(w: u64) -> (s: Strand)
    ensures
        s == strand_of(w as int % 2),
{
    if w % 2 == 0 {
        Strand::Forward
    } else {
        Strand::Reverse
    }
}

/// Packs a step into its word.
pub(crate) fn pack_step(s: Step) -> (w: u64)
    requires
        step_word(s) <= u64::MAX,
    ensures
        w == step_word(s),
{
    2 * (s.node as u64) + bit_of(s.strand)
}

/// Unpacks the step of a word.
pub(crate) fn unpack_step(w: u64) -> (s: Step)
    requires
        w / 2 <= usize::MAX,
    ensures
        s == step_of(w),
{
    Step { node: (w / 2) as usize, strand: low_strand(w) }
}

/// Packs an edge into its word.
pub(crate) fn pack_edge(e: Edge) -> (w: u64)
    requires
        edge_word(e) <= u64::MAX,
    ensures
        w == edge_word(e),
{
    4 * (e.to.node as u64) + 2 * bit_of(e.to.strand) + bit_of(e.from.strand)
}

/// Unpacks the edge of a word that is filed under node `from`.
pub(crate) fn unpack_edge(from: usize, w: u64) -> (e: Edge)
    requires
        w / 4 <= usize::MAX,
    ensures
        e == edge_of(from as int, w),
{
    Edge {
        from: Endpoint { node: from, strand: low_strand(w) },
        to: Endpoint { node: (w / 4) as usize, strand: low_strand(w / 2) },
    }
}

} // verus!
