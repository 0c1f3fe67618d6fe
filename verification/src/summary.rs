//! What a traversal of the paths of a graph reports of each path: its name
//! as text and the number of its steps.

use crate::error::GraphError;
use crate::text::{decode_text, text_of};
use crate::view::GraphView;
use vstd::prelude::*;

verus! {

/// The name of a path as text, if it is text, and the number of its steps.
#[derive(Debug, PartialEq, Eq)]
pub struct PathSummary {
    pub name: Result<String, GraphError>,
    pub steps: usize,
}

/// A path summary as a mathematical value.
pub struct SummaryModel {
    pub name: Result<Seq<char>, GraphError>,
    pub steps: nat,
}

impl View for PathSummary {
    type V = SummaryModel;

    open spec fn view(&self) -> SummaryModel {
        SummaryModel {
            name: match self.name {
                Ok(text) => Ok(text@),
                Err(e) => Err(e),
            },
            steps: self.steps as nat,
        }
    }
}

/// The summary of path `path` from what a graph says of it: the name as
/// text, empty where the graph has no name for the path, and the number of
/// steps, zero where the graph has no steps for it.
pub open spec fn summary_of(path: int, name: Option<Seq<u8>>, steps: Option<nat>) -> SummaryModel {
    SummaryModel {
        name: match name {
            Some(bytes) => text_of(bytes, path),
            None => Ok(Seq::empty()),
        },
        steps: match steps {
            Some(n) => n,
            None => 0,
        },
    }
}

/// The bytes of a name that may be missing.
pub open spec fn name_bytes(name: Option<&[u8]>) -> Option<Seq<u8>> {
    match name {
        Some(bytes) => Some(bytes@),
        None => None,
    }
}

/// The number of steps that may be missing.
pub open spec fn step_total(steps: Option<usize>) -> Option<nat> {
    match steps {
        Some(n) => Some(n as nat),
        None => None,
    }
}

/// Summarizes path `path` from what a graph says of it: [`summary_of`].
pub fn summarize(path: u64, name: Option<&[u8]>, steps: Option<usize>) -> (s: PathSummary)
    ensures
        s@ == summary_of(path as int, name_bytes(name), step_total(steps)),
{
    let text = match name {
        Some(bytes) => match decode_text(bytes, path) {
            Ok(text) => Ok(text.to_owned()),
            Err(e) => Err(e),
        },
        None => Ok(String::new()),
    };
    let count = match steps {
        Some(n) => n,
        None => 0,
    };
    PathSummary { name: text, steps: count }
}

/// Summarizes every path of the graph, in the order of the path ids.
pub fn path_summaries(view: &GraphView) -> (all: Vec<PathSummary>)
    ensures
        all@.len() == view@.paths.len(),
        forall|p: int|
            0 <= p < all@.len() ==> (#[trigger] all@[p])@ == summary_of(
                p,
                Some(view@.paths[p].name),
                Some(view@.paths[p].steps.len()),
            ),
{
    let count = view.path_count();
    let mut all: Vec<PathSummary> = Vec::new();
    let mut p: usize = 0;
    while p < count
        invariant
            p <= count,
            count == view@.paths.len(),
            all@.len() == p,
            forall|j: int|
                0 <= j < p ==> (#[trigger] all@[j])@ == summary_of(
                    j,
                    Some(view@.paths[j].name),
                    Some(view@.paths[j].steps.len()),
                ),
        decreases count - p,
    {
        match view.path(p) {
            Ok(path) => {
                all.push(summarize(p as u64, Some(path.name()), Some(path.step_count())));
            },
            Err(_) => {
                all.push(summarize(p as u64, None, None));
            },
        }
        p += 1;
    }
    all
}

} // verus!
