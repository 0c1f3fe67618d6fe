//! The write path: collecting the parts of a graph and writing its image.

use crate::error::GraphError;
use crate::graph::{Edge, Endpoint, GraphModel, NodeModel, PathModel, Step, Strand};
use crate::image::{
    edge_words, image, joined, lemma_joined_take, lemma_round_trip, node_edge_words,
    node_sequences, offsets, path_names, path_step_words, segments_of, step_words,
};
use crate::layout::{encode, Segments};
use crate::loader::loaded;
use crate::record::{pack_edge, pack_step};
use crate::scan::{first_failure, lemma_first_failure, lemma_first_failure_is};
use crate::words::{
    lemma_word_bytes_concat, lemma_word_bytes_len, push_u64, push_words, word_bytes,
};
use vstd::prelude::*;
use vstd::slice::slice_to_vec;

verus! {

/// Those of the edges that leave node `node`, in their order.
pub open spec fn edges_from(edges: Seq<Edge>, node: int) -> Seq<Edge>
    decreases edges.len(),
{
    if edges.len() == 0 {
        Seq::empty()
    } else if edges.last().from.node == node {
        edges_from(edges.drop_last(), node).push(edges.last())
    } else {
        edges_from(edges.drop_last(), node)
    }
}

/// What a builder has collected: the sequence of each node, the edges in the
/// order in which they were added, and the paths.
pub struct BuilderModel {
    pub sequences: Seq<Seq<u8>>,
    pub edges: Seq<Edge>,
    pub paths: Seq<PathModel>,
}

impl BuilderModel {
    /// The graph of what was collected: every node with the edges that leave
    /// it.
    pub open spec fn graph(self) -> GraphModel {
        GraphModel {
            nodes: Seq::new(
                self.sequences.len(),
                |i: int| NodeModel { sequence: self.sequences[i], edges: edges_from(self.edges, i) },
            ),
            paths: self.paths,
        }
    }

    /// Both ends of edge `k` are nodes that were added.
    pub open spec fn edge_ok(self, k: int) -> bool {
        self.edges[k].from.node < self.sequences.len() && self.edges[k].to.node
            < self.sequences.len()
    }

    /// Step `k` of path `p` visits a node that was added.
    pub open spec fn step_ok(self, p: int, k: int) -> bool {
        self.paths[p].steps[k].node < self.sequences.len()
    }

    /// The number of the first step of path `p` that visits a node which was
    /// not added, or the number of its steps where there is none.
    pub open spec fn first_bad_step(self, p: int) -> int {
        first_failure(|k: int| self.step_ok(p, k), 0, self.paths[p].steps.len() as int)
    }

    /// Every step of path `p` visits a node that was added.
    pub open spec fn path_ok(self, p: int) -> bool {
        self.first_bad_step(p) == self.paths[p].steps.len()
    }

    /// The graph, or what is wrong with what was collected. Tested in this
    /// order:
    ///
    /// - `DanglingEdge`: an edge has an end at a node that was not added; the
    ///   first such edge in the order of adding is reported.
    /// - `NodeOutOfRange`: a step visits a node that was not added; the first
    ///   such step of the first such path is reported.
    pub open spec fn checked(self) -> Result<GraphModel, GraphError> {
        let d = first_failure(|k: int| self.edge_ok(k), 0, self.edges.len() as int);
        let p = first_failure(|p: int| self.path_ok(p), 0, self.paths.len() as int);
        if d < self.edges.len() {
            Err(
                GraphError::DanglingEdge {
                    from: self.edges[d].from.node as u64,
                    to: self.edges[d].to.node as u64,
                },
            )
        } else if p < self.paths.len() {
            Err(
                GraphError::NodeOutOfRange {
                    id: self.paths[p].steps[self.first_bad_step(p)].node as u64,
                    count: self.sequences.len() as u64,
                },
            )
        } else {
            Ok(self.graph())
        }
    }

    /// The image of the graph, or what is wrong with what was collected.
    pub open spec fn finished(self) -> Result<Seq<u8>, GraphError> {
        match self.checked() {
            Ok(g) => Ok(image(g)),
            Err(e) => Err(e),
        }
    }
}

/// What holds of every edge holds of every edge that leaves a given node, and
/// each of those leaves that node.
pub proof fn lemma_edges_from(edges: Seq<Edge>, node: int, holds: spec_fn(Edge) -> bool)
    requires
        forall|k: int| 0 <= k < edges.len() ==> holds(#[trigger] edges[k]),
    ensures
        forall|k: int|
            0 <= k < edges_from(edges, node).len() ==> {
                &&& holds(#[trigger] edges_from(edges, node)[k])
                &&& edges_from(edges, node)[k].from.node == node
            },
    decreases edges.len(),
{
    if edges.len() > 0 {
        let front = edges.drop_last();
        assert forall|k: int| 0 <= k < front.len() implies holds(#[trigger] front[k]) by {
            assert(front[k] == edges[k]);
        }
        lemma_edges_from(front, node, holds);
        assert(holds(edges[edges.len() - 1]));
    }
}

/// What was collected and passes the checks is a well-formed graph.
pub proof fn lemma_checked_graph(m: BuilderModel)
    requires
        m.checked() is Ok,
    ensures
        m.checked() == Ok::<GraphModel, GraphError>(m.graph()),
        m.graph().wf(),
{
    let n = m.sequences.len();
    let good = |k: int| m.edge_ok(k);
    let sound = |p: int| m.path_ok(p);
    lemma_first_failure(good, 0, m.edges.len() as int);
    lemma_first_failure(sound, 0, m.paths.len() as int);
    let lands = |e: Edge| e.from.node < n && e.to.node < n;
    assert forall|k: int| 0 <= k < m.edges.len() implies lands(#[trigger] m.edges[k]) by {
        assert(good(k));
    }
    let g = m.graph();
    assert forall|i: int, k: int|
        0 <= i < g.nodes.len() && 0 <= k < g.nodes[i].edges.len() implies {
        &&& (#[trigger] g.nodes[i].edges[k]).from.node == i
        &&& g.nodes[i].edges[k].to.node < g.nodes.len()
    } by {
        lemma_edges_from(m.edges, i, lands);
        assert(lands(edges_from(m.edges, i)[k]));
    }
    assert forall|p: int, k: int|
        0 <= p < g.paths.len() && 0 <= k < g.paths[p].steps.len() implies (
    #[trigger] g.paths[p].steps[k]).node < g.nodes.len() by {
        assert(sound(p));
        let visits = |k: int| m.step_ok(p, k);
        lemma_first_failure(visits, 0, m.paths[p].steps.len() as int);
        assert(visits(k));
    }
}

/// Round trip: where `finish` has written an image, loading the image gives
/// a graph with as many nodes as were added, each with the sequence that it
/// was added with and with the edges that were added from it, in their order,
/// and with the paths that were begun, each with its name and its steps.
pub proof fn lemma_finished_loads(m: BuilderModel)
    requires
        m.finished() is Ok,
        (m.finished()->Ok_0).len() <= usize::MAX,
    ensures
        loaded(m.finished()->Ok_0) == Ok::<GraphModel, GraphError>(m.graph()),
        m.graph().nodes.len() == m.sequences.len(),
        forall|i: int|
            0 <= i < m.sequences.len() ==> {
                &&& (#[trigger] m.graph().nodes[i]).sequence == m.sequences[i]
                &&& m.graph().nodes[i].edges == edges_from(m.edges, i)
            },
        m.graph().paths == m.paths,
{
    lemma_checked_graph(m);
    lemma_round_trip(m.graph());
}

/// The contents of each vector.
pub open spec fn views<T>(vs: Seq<Vec<T>>) -> Seq<Seq<T>> {
    Seq::new(vs.len(), |i: int| vs[i]@)
}

/// Joins chunks of bytes into one array and writes their offset index.
fn flatten_bytes(chunks: &Vec<Vec<u8>>) -> (r: (Vec<u8>, Vec<u8>))
    ensures
        r.0@ == joined(views(chunks@)),
        r.1@ == word_bytes(offsets(views(chunks@), 1)),
{
    let ghost all = views(chunks@);
    let ghost index_words = offsets(all, 1);
    let mut data: Vec<u8> = Vec::new();
    let mut index: Vec<u8> = Vec::new();
    push_u64(&mut index, 0);
    proof {
        assert(all.take(0) =~= Seq::<Seq<u8>>::empty());
        assert(index_words.take(1).drop_last() =~= Seq::<u64>::empty());
        assert(index_words.take(1).last() == 0);
        assert(word_bytes(index_words.take(1).drop_last()) =~= Seq::<u8>::empty());
        assert(index@ =~= word_bytes(index_words.take(1)));
    }
    let n = chunks.len();
    let mut i: usize = 0;
    while i < n
        invariant
            i <= n,
            n == chunks@.len(),
            all == views(chunks@),
            index_words == offsets(all, 1),
            data@ == joined(all.take(i as int)),
            index@ == word_bytes(index_words.take(i + 1)),
        decreases n - i,
    {
        data.extend_from_slice(chunks[i].as_slice());
        push_u64(&mut index, data.len() as u64);
        proof {
            lemma_joined_take(all, i as int);
            assert(index_words.take(i + 2).drop_last() =~= index_words.take(i + 1));
            assert(index_words.take(i + 2).last() == index_words[i + 1]);
        }
        i += 1;
    }
    proof {
        assert(all.take(n as int) =~= all);
        assert(index_words.take(n + 1) =~= index_words);
    }
    (data, index)
}

/// Joins chunks of words into one array of their bytes and writes their
/// offset index.
fn flatten_words(chunks: &Vec<Vec<u64>>) -> (r: (Vec<u8>, Vec<u8>))
    ensures
        r.0@ == word_bytes(joined(views(chunks@))),
        r.1@ == word_bytes(offsets(views(chunks@), 8)),
{
    let ghost all = views(chunks@);
    let ghost index_words = offsets(all, 8);
    let mut data: Vec<u8> = Vec::new();
    let mut index: Vec<u8> = Vec::new();
    push_u64(&mut index, 0);
    proof {
        assert(all.take(0) =~= Seq::<Seq<u64>>::empty());
        assert(index_words.take(1).drop_last() =~= Seq::<u64>::empty());
        assert(index_words.take(1).last() == 0);
        assert(word_bytes(index_words.take(1).drop_last()) =~= Seq::<u8>::empty());
        assert(index@ =~= word_bytes(index_words.take(1)));
    }
    let n = chunks.len();
    let mut i: usize = 0;
    while i < n
        invariant
            i <= n,
            n == chunks@.len(),
            all == views(chunks@),
            index_words == offsets(all, 8),
            data@ == word_bytes(joined(all.take(i as int))),
            index@ == word_bytes(index_words.take(i + 1)),
        decreases n - i,
    {
        push_words(&mut data, chunks[i].as_slice());
        push_u64(&mut index, data.len() as u64);
        proof {
            lemma_joined_take(all, i as int);
            lemma_word_bytes_concat(joined(all.take(i as int)), all[i as int]);
            lemma_word_bytes_len(joined(all.take(i + 1)));
            assert(index_words.take(i + 2).drop_last() =~= index_words.take(i + 1));
            assert(index_words.take(i + 2).last() == index_words[i + 1]);
        }
        i += 1;
    }
    proof {
        assert(all.take(n as int) =~= all);
        assert(index_words.take(n + 1) =~= index_words);
    }
    (data, index)
}

/// A path while it is collected.
#[derive(Debug)]
struct PathDraft {
    name: Vec<u8>,
    steps: Vec<Step>,
}

impl View for PathDraft {
    type V = PathModel;

    closed spec fn view(&self) -> PathModel {
        PathModel { name: self.name@, steps: self.steps@ }
    }
}

/// The paths that the drafts stand for.
spec fn drafted(paths: Seq<PathDraft>) -> Seq<PathModel> {
    Seq::new(paths.len(), |p: int| paths[p]@)
}

/// The name of each draft.
spec fn names_of(paths: Seq<PathDraft>) -> Seq<Seq<u8>> {
    Seq::new(paths.len(), |p: int| paths[p].name@)
}

/// Joins the names of the paths into one array and writes their offset index.
fn flatten_names(paths: &Vec<PathDraft>) -> (r: (Vec<u8>, Vec<u8>))
    ensures
        r.0@ == joined(names_of(paths@)),
        r.1@ == word_bytes(offsets(names_of(paths@), 1)),
{
    let ghost all = names_of(paths@);
    let ghost index_words = offsets(all, 1);
    let mut data: Vec<u8> = Vec::new();
    let mut index: Vec<u8> = Vec::new();
    push_u64(&mut index, 0);
    proof {
        assert(all.take(0) =~= Seq::<Seq<u8>>::empty());
        assert(index_words.take(1).drop_last() =~= Seq::<u64>::empty());
        assert(index_words.take(1).last() == 0);
        assert(word_bytes(index_words.take(1).drop_last()) =~= Seq::<u8>::empty());
        assert(index@ =~= word_bytes(index_words.take(1)));
    }
    let n = paths.len();
    let mut i: usize = 0;
    while i < n
        invariant
            i <= n,
            n == paths@.len(),
            all == names_of(paths@),
            index_words == offsets(all, 1),
            data@ == joined(all.take(i as int)),
            index@ == word_bytes(index_words.take(i + 1)),
        decreases n - i,
    {
        data.extend_from_slice(paths[i].name.as_slice());
        push_u64(&mut index, data.len() as u64);
        proof {
            lemma_joined_take(all, i as int);
            assert(index_words.take(i + 2).drop_last() =~= index_words.take(i + 1));
            assert(index_words.take(i + 2).last() == index_words[i + 1]);
        }
        i += 1;
    }
    proof {
        assert(all.take(n as int) =~= all);
        assert(index_words.take(n + 1) =~= index_words);
    }
    (data, index)
}

/// Collects nodes, edges and paths, and writes the image of their graph.
///
/// Nodes and paths get their ids in the order in which they are added, from
/// zero. Edges and steps may name nodes that are added later.
#[derive(Debug)]
pub struct Builder {
    sequences: Vec<Vec<u8>>,
    edges: Vec<Edge>,
    paths: Vec<PathDraft>,
}

impl View for Builder {
    type V = BuilderModel;

    closed spec fn view(&self) -> BuilderModel {
        BuilderModel {
            sequences: views(self.sequences@),
            edges: self.edges@,
            paths: drafted(self.paths@),
        }
    }
}

impl Builder {
    /// A builder that has collected nothing.
    pub fn new() -> (b: Builder)
        ensures
            b@.sequences.len() == 0,
            b@.edges.len() == 0,
            b@.paths.len() == 0,
    {
        Builder { sequences: Vec::new(), edges: Vec::new(), paths: Vec::new() }
    }

    /// The number of nodes that were added.
    pub fn node_count(&self) -> (n: usize)
        ensures
            n == self@.sequences.len(),
    {
        self.sequences.len()
    }

    /// The number of paths that were begun.
    pub fn path_count(&self) -> (n: usize)
        ensures
            n == self@.paths.len(),
    {
        self.paths.len()
    }

    /// Adds a node with the given sequence and returns its id.
    pub fn add_node(&mut self, sequence: &[u8]) -> (id: usize)
        ensures
            id == old(self)@.sequences.len(),
            final(self)@.sequences == old(self)@.sequences.push(sequence@),
            final(self)@.edges == old(self)@.edges,
            final(self)@.paths == old(self)@.paths,
    {
        let id = self.sequences.len();
        self.sequences.push(slice_to_vec(sequence));
        proof {
            assert(self@.sequences =~= old(self)@.sequences.push(sequence@));
            assert(self@.paths =~= old(self)@.paths);
        }
        id
    }

    /// Adds an edge from `from` to `to`.
    pub fn add_edge(&mut self, from: Endpoint, to: Endpoint)
        ensures
            final(self)@.edges == old(self)@.edges.push(Edge { from, to }),
            final(self)@.sequences == old(self)@.sequences,
            final(self)@.paths == old(self)@.paths,
    {
        self.edges.push(Edge { from, to });
        proof {
            assert(self@.paths =~= old(self)@.paths);
        }
    }

    /// Begins a path with the given name and no steps, and returns its id.
    pub fn begin_path(&mut self, name: &[u8]) -> (id: usize)
        ensures
            id == old(self)@.paths.len(),
            final(self)@.paths == old(self)@.paths.push(
                PathModel { name: name@, steps: Seq::empty() },
            ),
            final(self)@.sequences == old(self)@.sequences,
            final(self)@.edges == old(self)@.edges,
    {
        let id = self.paths.len();
        self.paths.push(PathDraft { name: slice_to_vec(name), steps: Vec::new() });
        proof {
            assert(self@.paths =~= old(self)@.paths.push(
                PathModel { name: name@, steps: Seq::empty() },
            ));
        }
        id
    }

    /// Appends a step on `node` and `strand` to path `path_id`, or reports
    /// `PathOutOfRange` where no such path was begun.
    pub fn add_step(&mut self, path_id: usize, node: usize, strand: Strand) -> (res: Result<
        (),
        GraphError,
    >)
        ensures
            final(self)@.sequences == old(self)@.sequences,
            final(self)@.edges == old(self)@.edges,
            match res {
                Ok(_) => path_id < old(self)@.paths.len() && final(self)@.paths == old(
                    self,
                )@.paths.update(
                    path_id as int,
                    PathModel {
                        name: old(self)@.paths[path_id as int].name,
                        steps: old(self)@.paths[path_id as int].steps.push(Step { node, strand }),
                    },
                ),
                Err(e) => path_id >= old(self)@.paths.len() && e == (GraphError::PathOutOfRange {
                    id: path_id as u64,
                    count: old(self)@.paths.len() as u64,
                }) && final(self)@.paths == old(self)@.paths,
            },
    {
        let count = self.paths.len();
        if path_id >= count {
            return Err(GraphError::PathOutOfRange { id: path_id as u64, count: count as u64 });
        }
        self.paths[path_id].steps.push(Step { node, strand });
        proof {
            assert(self@.paths =~= old(self)@.paths.update(
                path_id as int,
                PathModel {
                    name: old(self)@.paths[path_id as int].name,
                    steps: old(self)@.paths[path_id as int].steps.push(Step { node, strand }),
                },
            ));
        }
        Ok(())
    }

    /// Sorts the words of the edges into one array per source node.
    fn group_edges(&self) -> (buckets: Vec<Vec<u64>>)
        requires
            8 * (self@.sequences.len() + 1) <= usize::MAX,
            forall|k: int| 0 <= k < self@.edges.len() ==> self@.edge_ok(k),
        ensures
            views(buckets@) == node_edge_words(self@.graph()),
    {
        let n = self.sequences.len();
        let mut buckets: Vec<Vec<u64>> = Vec::new();
        let mut i: usize = 0;
        while i < n
            invariant
                i <= n,
                buckets@.len() == i,
                forall|j: int| 0 <= j < i ==> (#[trigger] buckets@[j])@.len() == 0,
            decreases n - i,
        {
            buckets.push(Vec::new());
            i += 1;
        }
        let count = self.edges.len();
        let mut k: usize = 0;
        while k < count
            invariant
                k <= count,
                count == self.edges@.len(),
                n == self.sequences@.len(),
                8 * (n + 1) <= usize::MAX,
                forall|k: int| 0 <= k < self@.edges.len() ==> self@.edge_ok(k),
                buckets@.len() == n,
                forall|j: int|
                    0 <= j < n ==> (#[trigger] buckets@[j])@ == edge_words(
                        edges_from(self.edges@.take(k as int), j),
                    ),
            decreases count - k,
        {
            let edge = self.edges[k];
            assert(self@.edge_ok(k as int));
            let ghost before = buckets@;
            buckets[edge.from.node].push(pack_edge(edge));
            proof {
                let now = self.edges@.take(k + 1);
                assert(now.drop_last() =~= self.edges@.take(k as int));
                assert(now.last() == edge);
                assert forall|j: int| 0 <= j < n implies (#[trigger] buckets@[j])@ == edge_words(
                    edges_from(now, j),
                ) by {
                    assert(before[j]@ == edge_words(edges_from(self.edges@.take(k as int), j)));
                    if j == edge.from.node {
                        assert(buckets@[j]@ =~= edge_words(edges_from(now, j)));
                    }
                }
            }
            k += 1;
        }
        proof {
            assert(self.edges@.take(count as int) =~= self.edges@);
            assert(views(buckets@) =~= node_edge_words(self@.graph()));
        }
        buckets
    }

    /// Checks the steps of every path and packs them into words, one array
    /// per path.
    fn pack_steps(&self) -> (res: Result<Vec<Vec<u64>>, GraphError>)
        requires
            8 * (self@.sequences.len() + 1) <= usize::MAX,
        ensures
            match res {
                Ok(packed) => {
                    &&& first_failure(|p: int| self@.path_ok(p), 0, self@.paths.len() as int)
                        == self@.paths.len()
                    &&& views(packed@) == path_step_words(self@.graph())
                },
                Err(e) => {
                    let p = first_failure(|p: int| self@.path_ok(p), 0, self@.paths.len() as int);
                    &&& p < self@.paths.len()
                    &&& e == GraphError::NodeOutOfRange {
                        id: self@.paths[p].steps[self@.first_bad_step(p)].node as u64,
                        count: self@.sequences.len() as u64,
                    }
                },
            },
    {
        let ghost m = self@;
        let ghost sound = |p: int| m.path_ok(p);
        let n = self.sequences.len();
        let paths = self.paths.len();
        let mut packed: Vec<Vec<u64>> = Vec::new();
        let mut p: usize = 0;
        while p < paths
            invariant
                p <= paths,
                paths == m.paths.len(),
                m == self@,
                n == m.sequences.len(),
                8 * (n + 1) <= usize::MAX,
                sound == (|p: int| m.path_ok(p)),
                forall|j: int| 0 <= j < p ==> #[trigger] sound(j),
                packed@.len() == p,
                forall|j: int|
                    0 <= j < p ==> (#[trigger] packed@[j])@ == step_words(m.paths[j].steps),
            decreases paths - p,
        {
            let ghost visits = |k: int| m.step_ok(p as int, k);
            let steps = &self.paths[p].steps;
            let count = steps.len();
            let mut words: Vec<u64> = Vec::new();
            let mut k: usize = 0;
            while k < count
                invariant
                    k <= count,
                    p < paths,
                    paths == m.paths.len(),
                    m == self@,
                    steps@ == m.paths[p as int].steps,
                    count == steps@.len(),
                    n == m.sequences.len(),
                    8 * (n + 1) <= usize::MAX,
                    sound == (|p: int| m.path_ok(p)),
                    forall|j: int| 0 <= j < p ==> #[trigger] sound(j),
                    visits == (|k: int| m.step_ok(p as int, k)),
                    forall|j: int| 0 <= j < k ==> #[trigger] visits(j),
                    words@ == step_words(steps@.take(k as int)),
                decreases count - k,
            {
                let step = steps[k];
                if step.node >= n {
                    proof {
                        assert(!visits(k as int));
                        lemma_first_failure_is(visits, 0, count as int, k as int);
                        assert(!sound(p as int));
                        lemma_first_failure_is(sound, 0, paths as int, p as int);
                    }
                    return Err(
                        GraphError::NodeOutOfRange { id: step.node as u64, count: n as u64 },
                    );
                }
                assert(visits(k as int));
                words.push(pack_step(step));
                proof {
                    assert(words@ =~= step_words(steps@.take(k + 1)));
                }
                k += 1;
            }
            proof {
                lemma_first_failure_is(visits, 0, count as int, count as int);
                assert(sound(p as int));
                assert(steps@.take(count as int) =~= steps@);
            }
            packed.push(words);
            p += 1;
        }
        proof {
            lemma_first_failure_is(sound, 0, paths as int, paths as int);
            assert(views(packed@) =~= path_step_words(m.graph()));
        }
        Ok(packed)
    }

    /// Writes the image of the graph of what was collected, or reports what
    /// is wrong with it: [`BuilderModel::finished`]. Loading the image gives
    /// the graph back.
    #[verifier::loop_isolation(false)]
    pub fn finish(&self) -> (res: Result<Vec<u8>, GraphError>)
        ensures
            match res {
                Ok(bytes) => {
                    &&& self@.finished() == Ok::<Seq<u8>, GraphError>(bytes@)
                    &&& loaded(bytes@) == Ok::<GraphModel, GraphError>(self@.graph())
                },
                Err(e) => self@.finished() == Err::<Seq<u8>, GraphError>(e),
            },
    {
        let ghost m = self@;
        let ghost g = m.graph();
        let n = self.sequences.len();
        let (sequences, sequence_index) = flatten_bytes(&self.sequences);
        proof {
            assert(views(self.sequences@) =~= node_sequences(g));
            lemma_word_bytes_len(offsets(node_sequences(g), 1));
            assert(sequence_index.len() == 8 * (n + 1));
        }
        let ghost good = |k: int| m.edge_ok(k);
        let count = self.edges.len();
        let mut k: usize = 0;
        while k < count
            invariant
                k <= count,
                count == m.edges.len(),
                m == self@,
                n == m.sequences.len(),
                good == (|k: int| m.edge_ok(k)),
                forall|j: int| 0 <= j < k ==> #[trigger] good(j),
            decreases count - k,
        {
            let edge = self.edges[k];
            if edge.from.node >= n || edge.to.node >= n {
                proof {
                    assert(!good(k as int));
                    lemma_first_failure_is(good, 0, count as int, k as int);
                }
                return Err(
                    GraphError::DanglingEdge {
                        from: edge.from.node as u64,
                        to: edge.to.node as u64,
                    },
                );
            }
            assert(good(k as int));
            k += 1;
        }
        proof {
            lemma_first_failure_is(good, 0, count as int, count as int);
            assert forall|k: int| 0 <= k < m.edges.len() implies m.edge_ok(k) by {
                assert(good(k));
            }
        }
        let packed = self.pack_steps()?;
        let buckets = self.group_edges();
        let (edges, edge_index) = flatten_words(&buckets);
        let (steps, step_index) = flatten_words(&packed);
        let (names, name_index) = flatten_names(&self.paths);
        proof {
            assert(names_of(self.paths@) =~= path_names(g));
        }
        let segments = Segments {
            sequences,
            sequence_index,
            edges,
            edge_index,
            steps,
            step_index,
            names,
            name_index,
        };
        assert(segments@ == segments_of(g));
        let bytes = encode(&segments);
        proof {
            assert(image(g).len() == bytes.len());
            lemma_checked_graph(m);
            lemma_round_trip(g);
        }
        Ok(bytes)
    }
}

} // verus!
