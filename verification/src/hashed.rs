//! Path summaries of a hash-based graph, `handlegraph::hashgraph::HashGraph`.
//!
//! The graph is read through declarations that are trusted, not proved: the
//! type itself, a name for the paths that a graph holds, and one wrapper for
//! each of the two lookups that a summary needs.

use crate::summary::{summarize, summary_of, PathSummary, SummaryModel};
use handlegraph::hashgraph::HashGraph;
use handlegraph::pathhandlegraph::{GraphPathNames, GraphPaths, PathId};
use vstd::prelude::*;

verus! {

/// `handlegraph::hashgraph::HashGraph`, of which nothing is known but what
/// the wrappers below say.
#[verifier::external_type_specification]
#[verifier::external_body]
pub struct ExHashGraph(HashGraph);

/// The paths that a hash-based graph holds: for each path id, the name of
/// the path and the number of its steps.
pub uninterp spec fn hash_graph_paths(graph: HashGraph) -> Map<u64, (Seq<u8>, nat)>;

/// `GraphPathNames::get_path_name_vec` on a `HashGraph`: the name of path
/// `id` where the graph holds such a path, nothing where it does not.
#[verifier::external_body]
fn hash_path_name(graph: &HashGraph, id: u64) -> (name: Option<Vec<u8>>)
    ensures
        name is Some <==> hash_graph_paths(*graph).contains_key(id),
        name matches Some(bytes) ==> bytes@ == hash_graph_paths(*graph)[id].0,
{
    graph.get_path_name_vec(PathId(id))
}

/// `GraphPaths::path_len` on a `HashGraph`: the number of steps of path `id`
/// where the graph holds such a path, nothing where it does not.
#[verifier::external_body]
fn hash_path_len(graph: &HashGraph, id: u64) -> (len: Option<usize>)
    ensures
        len is Some <==> hash_graph_paths(*graph).contains_key(id),
        len matches Some(n) ==> n == hash_graph_paths(*graph)[id].1,
{
    graph.path_len(PathId(id))
}

/// What the graph says of path `id`, summarized.
pub open spec fn hash_summary_of(graph: HashGraph, id: u64) -> SummaryModel {
    if hash_graph_paths(graph).contains_key(id) {
        summary_of(
            id as int,
            Some(hash_graph_paths(graph)[id].0),
            Some(hash_graph_paths(graph)[id].1),
        )
    } else {
        summary_of(id as int, None, None)
    }
}

/// Summarizes path `id` of a hash-based graph: its name as text and the
/// number of its steps, or an empty name and no steps where the graph holds
/// no such path.
pub fn hash_path_summary(graph: &HashGraph, id: u64) -> (s: PathSummary)
    ensures
        s@ == hash_summary_of(*graph, id),
{
    let name = hash_path_name(graph, id);
    let steps = hash_path_len(graph, id);
    match name {
        Some(bytes) => summarize(id, Some(bytes.as_slice()), steps),
        None => summarize(id, None, steps),
    }
}

} // verus!
