//! The values a graph is made of, and the mathematical model of a whole graph.

use crate::error::GraphError;
use crate::text::text_of;
use vstd::prelude::*;

verus! {

/// The direction in which a node's sequence is read.
#[derive(Clone, Copy, Debug, PartialEq, Eq, Structural)]
pub enum Strand {
    Forward,
    Reverse,
}

/// One side of an edge: a node, entered or left on a strand.
#[derive(Clone, Copy, Debug, PartialEq, Eq, Structural)]
pub struct Endpoint {
    pub node: usize,
    pub strand: Strand,
}

/// A directed connection between two oriented nodes.
#[derive(Clone, Copy, Debug, PartialEq, Eq, Structural)]
pub struct Edge {
    pub from: Endpoint,
    pub to: Endpoint,
}

/// One visit of a path to a node.
#[derive(Clone, Copy, Debug, PartialEq, Eq, Structural)]
pub struct Step {
    pub node: usize,
    pub strand: Strand,
}

/// A node as the model sees it: its sequence and the edges that leave it, in
/// the order in which they were added.
pub struct NodeModel {
    pub sequence: Seq<u8>,
    pub edges: Seq<Edge>,
}

/// A path as the model sees it.
pub struct PathModel {
    pub name: Seq<u8>,
    pub steps: Seq<Step>,
}

impl PathModel {
    /// The name as text, or `InvalidUtf8` with the path's number `id` where
    /// the name is not UTF-8.
    pub open spec fn text(self, id: int) -> Result<Seq<char>, GraphError> {
        text_of(self.name, id)
    }
}

/// A whole graph: node `i` is `nodes[i]`, path `p` is `paths[p]`.
pub struct GraphModel {
    pub nodes: Seq<NodeModel>,
    pub paths: Seq<PathModel>,
}

/// The far ends of the edges that leave their node on strand `direction`, in
/// the order of the edges.
pub open spec fn targets(edges: Seq<Edge>, direction: Strand) -> Seq<Endpoint>
    decreases edges.len(),
{
    if edges.len() == 0 {
        Seq::empty()
    } else if edges[0].from.strand == direction {
        seq![edges[0].to] + targets(edges.drop_first(), direction)
    } else {
        targets(edges.drop_first(), direction)
    }
}

impl GraphModel {
    /// Node `id`, or `NodeOutOfRange` where there is none.
    pub open spec fn node(self, id: int) -> Result<NodeModel, GraphError> {
        if 0 <= id < self.nodes.len() {
            Ok(self.nodes[id])
        } else {
            Err(GraphError::NodeOutOfRange { id: id as u64, count: self.nodes.len() as u64 })
        }
    }

    /// Path `id`, or `PathOutOfRange` where there is none.
    pub open spec fn path(self, id: int) -> Result<PathModel, GraphError> {
        if 0 <= id < self.paths.len() {
            Ok(self.paths[id])
        } else {
            Err(GraphError::PathOutOfRange { id: id as u64, count: self.paths.len() as u64 })
        }
    }

    /// The oriented nodes that node `id` reaches when left on strand
    /// `direction`.
    pub open spec fn neighbors(self, id: int, direction: Strand) -> Result<
        Seq<Endpoint>,
        GraphError,
    > {
        match self.node(id) {
            Ok(node) => Ok(targets(node.edges, direction)),
            Err(e) => Err(e),
        }
    }

    /// The steps of path `id`.
    pub open spec fn path_steps(self, id: int) -> Result<Seq<Step>, GraphError> {
        match self.path(id) {
            Ok(path) => Ok(path.steps),
            Err(e) => Err(e),
        }
    }

    /// The name of path `id` as bytes.
    pub open spec fn path_name(self, id: int) -> Result<Seq<u8>, GraphError> {
        match self.path(id) {
            Ok(path) => Ok(path.name),
            Err(e) => Err(e),
        }
    }

    /// The name of path `id` as text, or `InvalidUtf8` where the name is
    /// not UTF-8.
    pub open spec fn path_text(self, id: int) -> Result<Seq<char>, GraphError> {
        match self.path(id) {
            Ok(path) => path.text(id),
            Err(e) => Err(e),
        }
    }

    /// Range safety: the node count is not the id of a node, and the path
    /// count is not the id of a path.
    pub proof fn lemma_count_out_of_range(self)
        ensures
            self.node(self.nodes.len() as int) == Err::<NodeModel, GraphError>(
                GraphError::NodeOutOfRange {
                    id: self.nodes.len() as u64,
                    count: self.nodes.len() as u64,
                },
            ),
            self.path(self.paths.len() as int) == Err::<PathModel, GraphError>(
                GraphError::PathOutOfRange {
                    id: self.paths.len() as u64,
                    count: self.paths.len() as u64,
                },
            ),
    {
    }

    /// Restartable: whatever was asked before, asking for the steps of a
    /// path again gives the same steps, from the first.
    pub proof fn lemma_path_steps_again(
        self,
        id: int,
        first: Result<Seq<Step>, GraphError>,
        second: Result<Seq<Step>, GraphError>,
    )
        requires
            first == self.path_steps(id),
            second == self.path_steps(id),
        ensures
            first == second,
    {
    }

    /// Every edge is filed under its source node and ends at a node of this
    /// graph, and every step visits a node of this graph.
    pub open spec fn wf(self) -> bool {
        &&& forall|i: int, k: int|
            0 <= i < self.nodes.len() && 0 <= k < self.nodes[i].edges.len() ==> {
                &&& (#[trigger] self.nodes[i].edges[k]).from.node == i
                &&& self.nodes[i].edges[k].to.node < self.nodes.len()
            }
        &&& forall|p: int, k: int|
            0 <= p < self.paths.len() && 0 <= k < self.paths[p].steps.len() ==> (
            #[trigger] self.paths[p].steps[k]).node < self.nodes.len()
    }
}

} // verus!
