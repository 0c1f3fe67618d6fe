//! The read-only query surface over a segment store.
//!
//! A [`GraphView`] is made only from a store whose contents keep the rules
//! of the data model, so every query is a plain function of the graph that
//! the store holds.

use crate::error::GraphError;
use crate::graph::{targets, Edge, Endpoint, GraphModel, NodeModel, PathModel, Step, Strand};
use crate::index::{check_index, first_bad_entry, index_ok, lemma_index_shape, non_decreasing};
use crate::layout::{EDGES, EDGE_INDEX, NAMES, NAME_INDEX, SEQUENCES, SEQUENCE_INDEX, STEPS, STEP_INDEX};
use crate::record::{edge_of, edges_of, steps_of, unpack_edge, unpack_step};
use crate::scan::{first_failure, lemma_first_failure, lemma_first_failure_is};
use crate::store::{entity_bytes, entity_records, SegmentStore, StoreModel, WordSlice};
use crate::text::decode_text;
use vstd::prelude::*;

verus! {

/// The index arrays have an entry, and the two arrays per node, and the two
/// per path, have as many entries as each other.
pub open spec fn well_shaped(s: StoreModel) -> bool {
    &&& s.sequence_index.len() >= 1
    &&& s.edge_index.len() == s.sequence_index.len()
    &&& s.name_index.len() >= 1
    &&& s.step_index.len() == s.name_index.len()
}

/// The number of bytes that an array of words takes.
pub open spec fn byte_count(ws: Seq<u64>) -> int {
    8 * (ws.len() as int)
}

/// The number of nodes that the store holds.
pub open spec fn node_total(s: StoreModel) -> int {
    s.sequence_index.len() - 1
}

/// The number of paths that the store holds.
pub open spec fn path_total(s: StoreModel) -> int {
    s.name_index.len() - 1
}

/// Edge record `r` ends at a node of the store.
pub open spec fn edge_lands(s: StoreModel, r: int) -> bool {
    s.edges[r] as int / 4 < node_total(s)
}

/// Step record `r` visits a node of the store.
pub open spec fn step_lands(s: StoreModel, r: int) -> bool {
    s.steps[r] as int / 2 < node_total(s)
}

/// The entity whose records include record `r`: the first whose range ends
/// after the record starts.
pub open spec fn owner(index: Seq<u64>, r: int) -> int {
    first_failure(|i: int| index[i + 1] <= 8 * r, 0, index.len() - 1)
}

/// Node `i` as the store holds it.
pub open spec fn node_at(s: StoreModel, i: int) -> NodeModel {
    NodeModel {
        sequence: s.sequences.subrange(s.sequence_index[i] as int, s.sequence_index[i + 1] as int),
        edges: edges_of(
            i,
            s.edges.subrange(s.edge_index[i] as int / 8, s.edge_index[i + 1] as int / 8),
        ),
    }
}

/// Path `p` as the store holds it.
pub open spec fn path_at(s: StoreModel, p: int) -> PathModel {
    PathModel {
        name: s.names.subrange(s.name_index[p] as int, s.name_index[p + 1] as int),
        steps: steps_of(
            s.steps.subrange(s.step_index[p] as int / 8, s.step_index[p + 1] as int / 8),
        ),
    }
}

/// The graph that the store holds.
pub open spec fn graph_at(s: StoreModel) -> GraphModel {
    GraphModel {
        nodes: Seq::new(node_total(s) as nat, |i: int| node_at(s, i)),
        paths: Seq::new(path_total(s) as nat, |p: int| path_at(s, p)),
    }
}

/// What reading a store as a graph gives: the graph, or the first of these
/// failures, tested in this order.
///
/// - `MalformedHeader`: the store is not [`well_shaped`].
/// - `CorruptIndex`: an offset index breaks the rules of
///   [`crate::index::entry_ok`]; the indexes are tested in the order of their
///   segments, and the first entry that breaks a rule is reported.
/// - `DanglingEdge`: an edge record ends at a node that the store does not
///   hold; the first such record is reported, with the node that owns it.
/// - `NodeOutOfRange`: a step record visits a node that the store does not
///   hold; the first such record is reported.
pub open spec fn graph_of(s: StoreModel) -> Result<GraphModel, GraphError> {
    let b1 = first_bad_entry(s.sequence_index, 1, s.sequences.len() as int);
    let b3 = first_bad_entry(s.edge_index, 8, byte_count(s.edges));
    let b5 = first_bad_entry(s.step_index, 8, byte_count(s.steps));
    let b7 = first_bad_entry(s.name_index, 1, s.names.len() as int);
    let e = first_failure(|r: int| edge_lands(s, r), 0, s.edges.len() as int);
    let t = first_failure(|r: int| step_lands(s, r), 0, s.steps.len() as int);
    if !well_shaped(s) {
        Err(GraphError::MalformedHeader)
    } else if b1 < s.sequence_index.len() {
        Err(GraphError::CorruptIndex { segment: 1, entry: b1 as u64 })
    } else if b3 < s.edge_index.len() {
        Err(GraphError::CorruptIndex { segment: 3, entry: b3 as u64 })
    } else if b5 < s.step_index.len() {
        Err(GraphError::CorruptIndex { segment: 5, entry: b5 as u64 })
    } else if b7 < s.name_index.len() {
        Err(GraphError::CorruptIndex { segment: 7, entry: b7 as u64 })
    } else if e < s.edges.len() {
        Err(GraphError::DanglingEdge { from: owner(s.edge_index, e) as u64, to: s.edges[e] / 4 })
    } else if t < s.steps.len() {
        Err(GraphError::NodeOutOfRange { id: s.steps[t] / 2, count: node_total(s) as u64 })
    } else {
        Ok(graph_at(s))
    }
}

/// The store keeps every rule of the data model.
pub open spec fn valid_store(s: StoreModel) -> bool {
    &&& well_shaped(s)
    &&& index_ok(s.sequence_index, 1, s.sequences.len() as int)
    &&& index_ok(s.edge_index, 8, byte_count(s.edges))
    &&& index_ok(s.step_index, 8, byte_count(s.steps))
    &&& index_ok(s.name_index, 1, s.names.len() as int)
    &&& forall|r: int| 0 <= r < s.edges.len() ==> edge_lands(s, r)
    &&& forall|r: int| 0 <= r < s.steps.len() ==> step_lands(s, r)
}

/// A store reads as a graph exactly when it keeps every rule, and then it
/// reads as the graph that it holds.
pub proof fn lemma_graph_of_valid(s: StoreModel)
    ensures
        graph_of(s) is Ok <==> valid_store(s),
        graph_of(s) is Ok ==> graph_of(s) == Ok::<GraphModel, GraphError>(graph_at(s)),
{
    let lands = |r: int| edge_lands(s, r);
    let visits = |r: int| step_lands(s, r);
    lemma_first_failure(lands, 0, s.edges.len() as int);
    lemma_first_failure(visits, 0, s.steps.len() as int);
    lemma_first_failure(
        |i: int| crate::index::entry_ok(s.sequence_index, 1, s.sequences.len() as int, i),
        0,
        s.sequence_index.len() as int,
    );
    lemma_first_failure(
        |i: int| crate::index::entry_ok(s.edge_index, 8, byte_count(s.edges), i),
        0,
        s.edge_index.len() as int,
    );
    lemma_first_failure(
        |i: int| crate::index::entry_ok(s.step_index, 8, byte_count(s.steps), i),
        0,
        s.step_index.len() as int,
    );
    lemma_first_failure(
        |i: int| crate::index::entry_ok(s.name_index, 1, s.names.len() as int, i),
        0,
        s.name_index.len() as int,
    );
    if graph_of(s) is Ok {
        assert forall|r: int| 0 <= r < s.edges.len() implies edge_lands(s, r) by {
            assert(lands(r));
        }
        assert forall|r: int| 0 <= r < s.steps.len() implies step_lands(s, r) by {
            assert(visits(r));
        }
    }
    if valid_store(s) {
        assert forall|r: int| 0 <= r < s.edges.len() implies #[trigger] lands(r) by {
            assert(edge_lands(s, r));
        }
        assert forall|r: int| 0 <= r < s.steps.len() implies #[trigger] visits(r) by {
            assert(step_lands(s, r));
        }
        lemma_first_failure_is(lands, 0, s.edges.len() as int, s.edges.len() as int);
        lemma_first_failure_is(visits, 0, s.steps.len() as int, s.steps.len() as int);
    }
}

/// In a store that keeps the rules, the entries that bound a node or a path
/// lie in order within the data arrays, at whole records.
pub proof fn lemma_valid_bounds(s: StoreModel)
    requires
        valid_store(s),
    ensures
        forall|i: int|
            0 <= i < node_total(s) ==> {
                &&& #[trigger] s.sequence_index[i] <= s.sequence_index[i + 1] <= s.sequences.len()
                &&& #[trigger] s.edge_index[i] <= s.edge_index[i + 1] <= 8 * s.edges.len()
                &&& s.edge_index[i] % 8 == 0
                &&& s.edge_index[i + 1] % 8 == 0
            },
        forall|p: int|
            0 <= p < path_total(s) ==> {
                &&& #[trigger] s.name_index[p] <= s.name_index[p + 1] <= s.names.len()
                &&& #[trigger] s.step_index[p] <= s.step_index[p + 1] <= 8 * s.steps.len()
                &&& s.step_index[p] % 8 == 0
                &&& s.step_index[p + 1] % 8 == 0
            },
{
    lemma_index_shape(s.sequence_index, 1, s.sequences.len() as int);
    lemma_index_shape(s.edge_index, 8, byte_count(s.edges));
    lemma_index_shape(s.step_index, 8, byte_count(s.steps));
    lemma_index_shape(s.name_index, 1, s.names.len() as int);
    assert forall|i: int| 0 <= i < node_total(s) implies {
        &&& #[trigger] s.sequence_index[i] <= s.sequence_index[i + 1] <= s.sequences.len()
        &&& #[trigger] s.edge_index[i] <= s.edge_index[i + 1] <= 8 * s.edges.len()
        &&& s.edge_index[i] % 8 == 0
        &&& s.edge_index[i + 1] % 8 == 0
    } by {
        assert(s.sequence_index[i + 1] <= s.sequences.len());
        assert(s.edge_index[i + 1] <= byte_count(s.edges));
    }
    assert forall|p: int| 0 <= p < path_total(s) implies {
        &&& #[trigger] s.name_index[p] <= s.name_index[p + 1] <= s.names.len()
        &&& #[trigger] s.step_index[p] <= s.step_index[p + 1] <= 8 * s.steps.len()
        &&& s.step_index[p] % 8 == 0
        &&& s.step_index[p + 1] % 8 == 0
    } by {
        assert(s.name_index[p + 1] <= s.names.len());
        assert(s.step_index[p + 1] <= byte_count(s.steps));
    }
}

/// The graph that a store holds which keeps the rules is well formed.
pub proof fn lemma_valid_graph(s: StoreModel)
    requires
        valid_store(s),
        node_total(s) <= usize::MAX,
    ensures
        graph_at(s).wf(),
{
    lemma_valid_bounds(s);
    let g = graph_at(s);
    assert forall|i: int, k: int|
        0 <= i < g.nodes.len() && 0 <= k < g.nodes[i].edges.len() implies {
        &&& (#[trigger] g.nodes[i].edges[k]).from.node == i
        &&& g.nodes[i].edges[k].to.node < g.nodes.len()
    } by {
        assert(s.sequence_index[i] <= s.sequence_index[i + 1]);
        assert(s.edge_index[i] <= s.edge_index[i + 1]);
        assert(edge_lands(s, s.edge_index[i] as int / 8 + k));
    }
    assert forall|p: int, k: int|
        0 <= p < g.paths.len() && 0 <= k < g.paths[p].steps.len() implies (
    #[trigger] g.paths[p].steps[k]).node < g.nodes.len() by {
        assert(s.name_index[p] <= s.name_index[p + 1]);
        assert(s.step_index[p] <= s.step_index[p + 1]);
        assert(step_lands(s, s.step_index[p] as int / 8 + k));
    }
}

/// Finds the entity whose records include record `r`.
fn find_owner(index: &WordSlice, r: usize) -> (i: usize)
    requires
        index@.len() >= 1,
        8 * r <= usize::MAX,
    ensures
        i == owner(index@, r as int),
{
    let last = index.len() - 1;
    let ghost ends = |i: int| index@[i + 1] <= 8 * r;
    let mut i: usize = 0;
    while i < last && index.word(i + 1) <= 8 * (r as u64)
        invariant
            i <= last,
            last == index@.len() - 1,
            8 * r <= usize::MAX,
            ends == (|i: int| index@[i + 1] <= 8 * r),
            forall|j: int| 0 <= j < i ==> #[trigger] ends(j),
        decreases last - i,
    {
        assert(ends(i as int));
        i += 1;
    }
    proof {
        if i < last {
            assert(!ends(i as int));
        }
        lemma_first_failure_is(ends, 0, last as int, i as int);
    }
    i
}

/// Offset monotonicity: in a store that reads as a graph, every offset index
/// never decreases, and its last entry is the length in bytes of its data
/// array.
pub proof fn lemma_offsets_in_order(s: StoreModel)
    requires
        graph_of(s) is Ok,
    ensures
        non_decreasing(s.sequence_index),
        s.sequence_index.last() == s.sequences.len(),
        non_decreasing(s.edge_index),
        s.edge_index.last() == byte_count(s.edges),
        non_decreasing(s.step_index),
        s.step_index.last() == byte_count(s.steps),
        non_decreasing(s.name_index),
        s.name_index.last() == s.names.len(),
{
    lemma_graph_of_valid(s);
    lemma_index_shape(s.sequence_index, 1, s.sequences.len() as int);
    lemma_index_shape(s.edge_index, 8, byte_count(s.edges));
    lemma_index_shape(s.step_index, 8, byte_count(s.steps));
    lemma_index_shape(s.name_index, 1, s.names.len() as int);
}

/// A read-only graph over a segment store.
#[derive(Clone, Copy, Debug)]
pub struct GraphView<'a> {
    store: SegmentStore<'a>,
}

impl<'a> View for GraphView<'a> {
    type V = GraphModel;

    closed spec fn view(&self) -> GraphModel {
        graph_at(self.store@)
    }
}

impl<'a> GraphView<'a> {
    /// The store keeps every rule of the data model, and its node count is
    /// a count that a machine can hold.
    #[verifier::type_invariant]
    spec fn valid(self) -> bool {
        valid_store(self.store@) && node_total(self.store@) <= usize::MAX
    }

    /// The contents of the store that this view reads.
    pub closed spec fn contents(self) -> StoreModel {
        self.store@
    }

    /// Reads a store as a graph: [`graph_of`].
    #[verifier::loop_isolation(false)]
    pub fn new(store: SegmentStore<'a>) -> (res: Result<GraphView<'a>, GraphError>)
        ensures
            match res {
                Ok(view) => graph_of(store@) == Ok::<GraphModel, GraphError>(view@)
                    && view.contents() == store@ && view@.wf(),
                Err(e) => graph_of(store@) == Err::<GraphModel, GraphError>(e),
            },
    {
        let ghost s = store@;
        let sequence_index = store.sequence_index();
        let edge_index = store.edge_index();
        let step_index = store.step_index();
        let name_index = store.name_index();
        let edges = store.edges();
        let steps = store.steps();
        if sequence_index.len() < 1 || edge_index.len() != sequence_index.len() || name_index.len()
            < 1 || step_index.len() != name_index.len() {
            return Err(GraphError::MalformedHeader);
        }
        let nodes = sequence_index.len() - 1;
        let edge_bytes = edges.byte_len();
        let step_bytes = steps.byte_len();
        check_index(&sequence_index, SEQUENCES, store.sequences().len(), SEQUENCE_INDEX)?;
        check_index(&edge_index, EDGES, edge_bytes, EDGE_INDEX)?;
        check_index(&step_index, STEPS, step_bytes, STEP_INDEX)?;
        check_index(&name_index, NAMES, store.names().len(), NAME_INDEX)?;
        let ghost lands = |r: int| edge_lands(s, r);
        let edge_count = edges.len();
        let mut r: usize = 0;
        while r < edge_count
            invariant
                r <= edge_count,
                edge_count == s.edges.len(),
                8 * edge_count <= usize::MAX,
                edges@ == s.edges,
                edge_index@ == s.edge_index,
                nodes == node_total(s),
                s.edge_index.len() >= 1,
                lands == (|r: int| edge_lands(s, r)),
                forall|j: int| 0 <= j < r ==> #[trigger] lands(j),
            decreases edge_count - r,
        {
            let word = edges.word(r);
            if word / 4 >= nodes as u64 {
                let from = find_owner(&edge_index, r);
                proof {
                    assert(!lands(r as int));
                    lemma_first_failure_is(lands, 0, edge_count as int, r as int);
                }
                return Err(GraphError::DanglingEdge { from: from as u64, to: word / 4 });
            }
            assert(lands(r as int));
            r += 1;
        }
        proof {
            lemma_first_failure_is(lands, 0, edge_count as int, edge_count as int);
        }
        let ghost visits = |r: int| step_lands(s, r);
        let step_count = steps.len();
        let mut r: usize = 0;
        while r < step_count
            invariant
                r <= step_count,
                step_count == s.steps.len(),
                steps@ == s.steps,
                nodes == node_total(s),
                visits == (|r: int| step_lands(s, r)),
                forall|j: int| 0 <= j < r ==> #[trigger] visits(j),
            decreases step_count - r,
        {
            let word = steps.word(r);
            if word / 2 >= nodes as u64 {
                proof {
                    assert(!visits(r as int));
                    lemma_first_failure_is(visits, 0, step_count as int, r as int);
                }
                return Err(GraphError::NodeOutOfRange { id: word / 2, count: nodes as u64 });
            }
            assert(visits(r as int));
            r += 1;
        }
        proof {
            lemma_first_failure_is(visits, 0, step_count as int, step_count as int);
            lemma_graph_of_valid(s);
            lemma_valid_graph(s);
        }
        Ok(GraphView { store })
    }

    /// The number of nodes.
    pub fn node_count(&self) -> (n: usize)
        ensures
            n == self@.nodes.len(),
    {
        proof {
            use_type_invariant(self);
        }
        self.store.sequence_index().len() - 1
    }

    /// The number of paths.
    pub fn path_count(&self) -> (n: usize)
        ensures
            n == self@.paths.len(),
    {
        proof {
            use_type_invariant(self);
        }
        self.store.name_index().len() - 1
    }

    /// Node `id`: its sequence and the edges that leave it.
    pub fn node(&self, id: usize) -> (res: Result<Node<'a>, GraphError>)
        ensures
            match res {
                Ok(node) => self@.node(id as int) == Ok::<NodeModel, GraphError>(node@)
                    && node.number() == id,
                Err(e) => self@.node(id as int) == Err::<NodeModel, GraphError>(e),
            },
    {
        let count = self.node_count();
        if id >= count {
            return Err(GraphError::NodeOutOfRange { id: id as u64, count: count as u64 });
        }
        proof {
            use_type_invariant(self);
            lemma_valid_bounds(self.store@);
            assert(self.store@.sequence_index[id as int] <= self.store@.sequence_index[id + 1]);
            assert(self.store@.edge_index[id as int] <= self.store@.edge_index[id + 1]);
        }
        let sequence = entity_bytes(id, &self.store.sequence_index(), self.store.sequences());
        let edges = entity_records(id, &self.store.edge_index(), &self.store.edges());
        proof {
            assert forall|k: int| 0 <= k < edges@.len() implies #[trigger] edges@[k] / 4
                <= usize::MAX by {
                assert(edge_lands(self.store@, self.store@.edge_index[id as int] as int / 8 + k));
            }
        }
        Ok(Node { id, sequence, edges })
    }

    /// Path `id`: its name and its steps.
    pub fn path(&self, id: usize) -> (res: Result<Path<'a>, GraphError>)
        ensures
            match res {
                Ok(path) => self@.path(id as int) == Ok::<PathModel, GraphError>(path@)
                    && path.number() == id,
                Err(e) => self@.path(id as int) == Err::<PathModel, GraphError>(e),
            },
    {
        let count = self.path_count();
        if id >= count {
            return Err(GraphError::PathOutOfRange { id: id as u64, count: count as u64 });
        }
        proof {
            use_type_invariant(self);
            lemma_valid_bounds(self.store@);
            assert(self.store@.name_index[id as int] <= self.store@.name_index[id + 1]);
            assert(self.store@.step_index[id as int] <= self.store@.step_index[id + 1]);
        }
        let name = entity_bytes(id, &self.store.name_index(), self.store.names());
        let steps = entity_records(id, &self.store.step_index(), &self.store.steps());
        proof {
            assert forall|k: int| 0 <= k < steps@.len() implies #[trigger] steps@[k] / 2
                <= usize::MAX by {
                assert(step_lands(self.store@, self.store@.step_index[id as int] as int / 8 + k));
            }
        }
        Ok(Path { id, name, steps })
    }

    /// A cursor over the oriented nodes that node `id` reaches when left on
    /// strand `direction`. Every call starts a cursor of its own at the first
    /// of them.
    pub fn neighbors(&self, id: usize, direction: Strand) -> (res: Result<
        Neighbors<'a>,
        GraphError,
    >)
        ensures
            match res {
                Ok(cursor) => self@.neighbors(id as int, direction) == Ok::<
                    Seq<Endpoint>,
                    GraphError,
                >(cursor@),
                Err(e) => self@.neighbors(id as int, direction) == Err::<
                    Seq<Endpoint>,
                    GraphError,
                >(e),
            },
    {
        match self.node(id) {
            Ok(node) => Ok(node.neighbors(direction)),
            Err(e) => Err(e),
        }
    }

    /// A cursor over the steps of path `id`. Every call starts a cursor of
    /// its own at the first step.
    pub fn path_steps(&self, id: usize) -> (res: Result<Steps<'a>, GraphError>)
        ensures
            match res {
                Ok(cursor) => self@.path_steps(id as int) == Ok::<Seq<Step>, GraphError>(cursor@),
                Err(e) => self@.path_steps(id as int) == Err::<Seq<Step>, GraphError>(e),
            },
    {
        match self.path(id) {
            Ok(path) => Ok(path.steps()),
            Err(e) => Err(e),
        }
    }

    /// The name of path `id` as the bytes that the image holds.
    pub fn path_name(&self, id: usize) -> (res: Result<&'a [u8], GraphError>)
        ensures
            match res {
                Ok(name) => self@.path_name(id as int) == Ok::<Seq<u8>, GraphError>(name@),
                Err(e) => self@.path_name(id as int) == Err::<Seq<u8>, GraphError>(e),
            },
    {
        match self.path(id) {
            Ok(path) => Ok(path.name()),
            Err(e) => Err(e),
        }
    }

    /// The name of path `id` as text.
    pub fn path_name_str(&self, id: usize) -> (res: Result<&'a str, GraphError>)
        ensures
            match res {
                Ok(text) => self@.path_text(id as int) == Ok::<Seq<char>, GraphError>(text@),
                Err(e) => self@.path_text(id as int) == Err::<Seq<char>, GraphError>(e),
            },
    {
        match self.path(id) {
            Ok(path) => path.text(),
            Err(e) => Err(e),
        }
    }
}

/// A node of a graph view.
#[derive(Clone, Copy, Debug)]
pub struct Node<'a> {
    id: usize,
    sequence: &'a [u8],
    edges: WordSlice<'a>,
}

impl<'a> View for Node<'a> {
    type V = NodeModel;

    closed spec fn view(&self) -> NodeModel {
        NodeModel { sequence: self.sequence@, edges: edges_of(self.id as int, self.edges@) }
    }
}

impl<'a> Node<'a> {
    /// Every edge record ends at a node whose id a machine can hold.
    #[verifier::type_invariant]
    spec fn unpackable(self) -> bool {
        forall|k: int| 0 <= k < self.edges@.len() ==> #[trigger] self.edges@[k] / 4 <= usize::MAX
    }

    /// The node's id.
    pub closed spec fn number(self) -> usize {
        self.id
    }

    /// The node's id.
    pub fn id(&self) -> (id: usize)
        ensures
            id == self.number(),
    {
        self.id
    }

    /// The node's sequence.
    pub fn sequence(&self) -> (s: &'a [u8])
        ensures
            s@ == self@.sequence,
    {
        self.sequence
    }

    /// The number of edges that leave the node.
    pub fn edge_count(&self) -> (n: usize)
        ensures
            n == self@.edges.len(),
    {
        self.edges.len()
    }

    /// Edge number `k` of those that leave the node, if there is one.
    pub fn edge(&self, k: usize) -> (e: Option<Edge>)
        ensures
            e == if k < self@.edges.len() {
                Some(self@.edges[k as int])
            } else {
                None
            },
    {
        if k < self.edges.len() {
            proof {
                use_type_invariant(self);
            }
            Some(unpack_edge(self.id, self.edges.word(k)))
        } else {
            None
        }
    }

    /// A cursor over the oriented nodes that this node reaches when left on
    /// strand `direction`.
    pub fn neighbors(&self, direction: Strand) -> (cursor: Neighbors<'a>)
        ensures
            cursor@ == targets(self@.edges, direction),
    {
        proof {
            use_type_invariant(self);
            assert(self.edges@.subrange(0, self.edges@.len() as int) =~= self.edges@);
        }
        Neighbors { from: self.id, records: self.edges, at: 0, direction }
    }
}

/// A path of a graph view.
#[derive(Clone, Copy, Debug)]
pub struct Path<'a> {
    id: usize,
    name: &'a [u8],
    steps: WordSlice<'a>,
}

impl<'a> View for Path<'a> {
    type V = PathModel;

    closed spec fn view(&self) -> PathModel {
        PathModel { name: self.name@, steps: steps_of(self.steps@) }
    }
}

impl<'a> Path<'a> {
    /// Every step record visits a node whose id a machine can hold.
    #[verifier::type_invariant]
    spec fn unpackable(self) -> bool {
        forall|k: int| 0 <= k < self.steps@.len() ==> #[trigger] self.steps@[k] / 2 <= usize::MAX
    }

    /// The path's id.
    pub closed spec fn number(self) -> usize {
        self.id
    }

    /// The path's id.
    pub fn id(&self) -> (id: usize)
        ensures
            id == self.number(),
    {
        self.id
    }

    /// The path's name as the bytes that the image holds.
    pub fn name(&self) -> (name: &'a [u8])
        ensures
            name@ == self@.name,
    {
        self.name
    }

    /// The path's name as text, or `InvalidUtf8` where it is not UTF-8.
    pub fn text(&self) -> (res: Result<&'a str, GraphError>)
        ensures
            match res {
                Ok(text) => self@.text(self.number() as int) == Ok::<Seq<char>, GraphError>(text@),
                Err(e) => self@.text(self.number() as int) == Err::<Seq<char>, GraphError>(e),
            },
    {
        decode_text(self.name, self.id as u64)
    }

    /// The number of steps.
    pub fn step_count(&self) -> (n: usize)
        ensures
            n == self@.steps.len(),
    {
        self.steps.len()
    }

    /// Step number `k`, if there is one.
    pub fn step(&self, k: usize) -> (s: Option<Step>)
        ensures
            s == if k < self@.steps.len() {
                Some(self@.steps[k as int])
            } else {
                None
            },
    {
        if k < self.steps.len() {
            proof {
                use_type_invariant(self);
            }
            Some(unpack_step(self.steps.word(k)))
        } else {
            None
        }
    }

    /// A cursor over the steps, at the first step.
    pub fn steps(&self) -> (cursor: Steps<'a>)
        ensures
            cursor@ == self@.steps,
    {
        proof {
            use_type_invariant(self);
            assert(self.steps@.subrange(0, self.steps@.len() as int) =~= self.steps@);
        }
        Steps { records: self.steps, at: 0 }
    }
}

/// A cursor over the steps of a path. Its view is the steps that are still
/// to come.
#[derive(Clone, Copy, Debug)]
pub struct Steps<'a> {
    records: WordSlice<'a>,
    at: usize,
}

impl<'a> View for Steps<'a> {
    type V = Seq<Step>;

    closed spec fn view(&self) -> Seq<Step> {
        steps_of(self.records@.subrange(self.at as int, self.records@.len() as int))
    }
}

impl<'a> Steps<'a> {
    /// The cursor stands within the records, and every record visits a node
    /// whose id a machine can hold.
    #[verifier::type_invariant]
    spec fn unpackable(self) -> bool {
        &&& self.at <= self.records@.len()
        &&& forall|k: int|
            0 <= k < self.records@.len() ==> #[trigger] self.records@[k] / 2 <= usize::MAX
    }

    /// The number of steps that are still to come.
    pub fn len(&self) -> (n: usize)
        ensures
            n == self@.len(),
    {
        proof {
            use_type_invariant(self);
        }
        self.records.len() - self.at
    }

    /// The next step, if one is left; the cursor moves past it.
    pub fn next(&mut self) -> (s: Option<Step>)
        ensures
            match s {
                Some(step) => old(self)@.len() > 0 && step == old(self)@[0] && final(self)@ == old(
                    self,
                )@.drop_first(),
                None => old(self)@.len() == 0 && final(self)@ == old(self)@,
            },
    {
        proof {
            use_type_invariant(&*self);
        }
        if self.at < self.records.len() {
            let step = unpack_step(self.records.word(self.at));
            self.at = self.at + 1;
            assert(self@ =~= old(self)@.drop_first());
            Some(step)
        } else {
            None
        }
    }

    /// All the steps that are still to come.
    pub fn to_vec(&self) -> (v: Vec<Step>)
        ensures
            v@ == self@,
    {
        proof {
            use_type_invariant(self);
        }
        let mut v: Vec<Step> = Vec::new();
        let n = self.records.len();
        let mut k = self.at;
        while k < n
            invariant
                self.at <= k <= n,
                n == self.records@.len(),
                forall|j: int|
                    0 <= j < self.records@.len() ==> #[trigger] self.records@[j] / 2 <= usize::MAX,
                v@.len() == k - self.at,
                forall|j: int| 0 <= j < v@.len() ==> v@[j] == self@[j],
            decreases n - k,
        {
            v.push(unpack_step(self.records.word(k)));
            k += 1;
        }
        assert(v@ =~= self@);
        v
    }
}

/// A cursor over the oriented nodes that a node reaches when left on one
/// strand. Its view is those that are still to come.
#[derive(Clone, Copy, Debug)]
pub struct Neighbors<'a> {
    from: usize,
    records: WordSlice<'a>,
    at: usize,
    direction: Strand,
}

impl<'a> View for Neighbors<'a> {
    type V = Seq<Endpoint>;

    closed spec fn view(&self) -> Seq<Endpoint> {
        targets(
            edges_of(
                self.from as int,
                self.records@.subrange(self.at as int, self.records@.len() as int),
            ),
            self.direction,
        )
    }
}

/// Dropping the first of the edges of an array of words is dropping the
/// first word.
proof fn lemma_edges_drop_first(from: int, ws: Seq<u64>, at: int)
    requires
        0 <= at < ws.len(),
    ensures
        edges_of(from, ws.subrange(at, ws.len() as int)).drop_first() == edges_of(
            from,
            ws.subrange(at + 1, ws.len() as int),
        ),
        edges_of(from, ws.subrange(at, ws.len() as int)).len() > 0,
        edges_of(from, ws.subrange(at, ws.len() as int))[0] == edge_of(from, ws[at]),
{
    assert(edges_of(from, ws.subrange(at, ws.len() as int)).drop_first() =~= edges_of(
        from,
        ws.subrange(at + 1, ws.len() as int),
    ));
}

impl<'a> Neighbors<'a> {
    /// The cursor stands within the records, and every record ends at a
    /// node whose id a machine can hold.
    #[verifier::type_invariant]
    spec fn unpackable(self) -> bool {
        &&& self.at <= self.records@.len()
        &&& forall|k: int|
            0 <= k < self.records@.len() ==> #[trigger] self.records@[k] / 4 <= usize::MAX
    }

    /// The next of the oriented nodes, if one is left; the cursor moves past
    /// it.
    pub fn next(&mut self) -> (e: Option<Endpoint>)
        ensures
            match e {
                Some(end) => old(self)@.len() > 0 && end == old(self)@[0] && final(self)@ == old(
                    self,
                )@.drop_first(),
                None => old(self)@.len() == 0 && final(self)@ == old(self)@,
            },
    {
        proof {
            use_type_invariant(&*self);
        }
        let n = self.records.len();
        while self.at < n
            invariant
                n == self.records@.len(),
                self.at <= n,
                self.records == old(self).records,
                self.from == old(self).from,
                self.direction == old(self).direction,
                forall|k: int|
                    0 <= k < self.records@.len() ==> #[trigger] self.records@[k] / 4 <= usize::MAX,
                self@ == old(self)@,
            decreases n - self.at,
        {
            let edge = unpack_edge(self.from, self.records.word(self.at));
            proof {
                lemma_edges_drop_first(self.from as int, self.records@, self.at as int);
            }
            let ghost before = self@;
            self.at = self.at + 1;
            if edge.from.strand == self.direction {
                assert(self@ =~= before.drop_first());
                return Some(edge.to);
            }
        }
        None
    }

    /// All the oriented nodes that are still to come.
    pub fn to_vec(&self) -> (v: Vec<Endpoint>)
        ensures
            v@ == self@,
    {
        let mut cursor = *self;
        let mut v: Vec<Endpoint> = Vec::new();
        loop
            invariant
                v@ + cursor@ == self@,
            decreases cursor@.len(),
        {
            let ghost before = cursor@;
            match cursor.next() {
                Some(end) => {
                    v.push(end);
                    assert(v@ + cursor@ =~= self@) by {
                        assert(before =~= seq![end] + cursor@);
                    }
                },
                None => {
                    assert(v@ =~= self@);
                    return v;
                },
            }
        }
    }
}

} // verus!
