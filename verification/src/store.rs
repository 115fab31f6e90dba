//! The graph store: an undirected `petgraph` graph whose nodes carry labels.
//!
//! `petgraph` keeps the nodes and the edges. What this library knows of such a
//! graph is stated over two sequences, [`graph_labels`] and [`graph_edges`];
//! the functions of this file that call `petgraph` say what each call does to
//! them, and Verus takes their word for it.

use crate::hops::ints;
use crate::hops::linked;
use petgraph::graph::NodeIndex;
use petgraph::graph::UnGraph;
use vstd::prelude::*;

verus! {

/// `petgraph::Undirected`, the mark of a graph whose edges have no
/// direction. Verus sees nothing inside it.
#[verifier::external_type_specification]
#[verifier::external_body]
pub struct ExUndirected(petgraph::Undirected);

/// `petgraph::graph::Graph`, the graph itself. Verus sees nothing inside
/// it: what a graph holds is named by [`graph_labels`] and [`graph_edges`].
#[verifier::external_type_specification]
#[verifier::external_body]
#[verifier::reject_recursive_types(N)]
#[verifier::reject_recursive_types(E)]
#[verifier::reject_recursive_types(Ty)]
#[verifier::reject_recursive_types(Ix)]
pub struct ExGraph<N, E, Ty, Ix>(petgraph::graph::Graph<N, E, Ty, Ix>);

/// The labels that the nodes of `graph` carry, by node index.
pub uninterp spec fn graph_labels(graph: UnGraph<String, ()>) -> Seq<Seq<char>>;

/// The two ends of each edge that `graph` holds, as node indices, the edges
/// in the order in which they were added.
pub uninterp spec fn graph_edges(graph: UnGraph<String, ()>) -> Seq<(int, int)>;

/// The most nodes, and the most edges, that a graph with 32-bit indices holds.
pub const GRAPH_LIMIT: usize = 0xffff_ffff;

/// The far ends of the edges that leave `node`, the edge added last first.
pub open spec fn outgoing(edges: Seq<(int, int)>, node: int) -> Seq<int>
    decreases edges.len(),
{
    if edges.len() == 0 {
        Seq::empty()
    } else if edges.last().0 == node {
        seq![edges.last().1] + outgoing(edges.drop_last(), node)
    } else {
        outgoing(edges.drop_last(), node)
    }
}

/// The near ends of the edges that arrive at `node` from another node, the
/// edge added last first.
pub open spec fn incoming(edges: Seq<(int, int)>, node: int) -> Seq<int>
    decreases edges.len(),
{
    if edges.len() == 0 {
        Seq::empty()
    } else if edges.last().1 == node && edges.last().0 != node {
        seq![edges.last().0] + incoming(edges.drop_last(), node)
    } else {
        incoming(edges.drop_last(), node)
    }
}

/// The neighbours of `node` in the order in which `petgraph` lists them: one
/// entry for each edge at `node`, a loop counted once.
pub open spec fn neighbour_list(edges: Seq<(int, int)>, node: int) -> Seq<int> {
    outgoing(edges, node) + incoming(edges, node)
}

/// `Graph::new_undirected`: a graph without nodes and without edges.
#[verifier::external_body]
pub(crate) fn empty_graph() -> (graph: UnGraph<String, ()>)
    ensures
        graph_labels(graph) == Seq::<Seq<char>>::empty(),
        graph_edges(graph) == Seq::<(int, int)>::empty(),
{
    UnGraph::<String, ()>::new_undirected()
}

/// `Graph::add_node`: puts a node that carries `label` behind the others and
/// returns its index. `petgraph` panics where the graph is full, which
/// `requires` leaves out.
#[verifier::external_body]
pub(crate) fn push_node(graph: &mut UnGraph<String, ()>, label: String) -> (index: usize)
    requires
        graph_labels(*old(graph)).len() < GRAPH_LIMIT,
    ensures
        graph_labels(*final(graph)) == graph_labels(*old(graph)).push(label@),
        graph_edges(*final(graph)) == graph_edges(*old(graph)),
        index == graph_labels(*old(graph)).len(),
{
    graph.add_node(label).index()
}

/// `Graph::add_edge`: puts an edge between the nodes `a` and `b` behind the
/// others. `petgraph` panics where one of the two is no node of the graph or
/// the graph is full, which `requires` leaves out.
#[verifier::external_body]
pub(crate) fn push_edge(graph: &mut UnGraph<String, ()>, a: usize, b: usize)
    requires
        a < graph_labels(*old(graph)).len(),
        b < graph_labels(*old(graph)).len(),
        graph_edges(*old(graph)).len() < GRAPH_LIMIT,
    ensures
        graph_labels(*final(graph)) == graph_labels(*old(graph)),
        graph_edges(*final(graph)) == graph_edges(*old(graph)).push((a as int, b as int)),
{
    graph.add_edge(NodeIndex::new(a), NodeIndex::new(b), ());
}

/// `Graph::node_indices`: the indices of the nodes, which are 0, 1, 2 and so
/// on, one for each label.
#[verifier::external_body]
pub(crate) fn node_indices(graph: &UnGraph<String, ()>) -> (indices: Vec<usize>)
    ensures
        indices@.len() == graph_labels(*graph).len(),
        forall|i: int| 0 <= i < indices@.len() ==> indices@[i] == i,
{
    graph.node_indices().map(|node| node.index()).collect()
}

/// `Graph::neighbors` on an undirected graph: the other end of each edge at
/// `node`, first of the edges that were added with `node` as their first end,
/// the latest first, next of the others in the same manner. Every entry is a
/// node of the graph, since `petgraph` admits no edge to anything else.
#[verifier::external_body]
pub(crate) fn neighbors(graph: &UnGraph<String, ()>, node: usize) -> (list: Vec<usize>)
    requires
        node < graph_labels(*graph).len(),
    ensures
        ints(list@) == neighbour_list(graph_edges(*graph), node as int),
        forall|i: int| 0 <= i < list@.len() ==> list@[i] < graph_labels(*graph).len(),
{
    graph.neighbors(NodeIndex::new(node)).map(|other| other.index()).collect()
}

/// `list` with `label` behind it, unless `list` holds `label`.
pub open spec fn with_label(list: Seq<Seq<char>>, label: Seq<char>) -> Seq<Seq<char>> {
    if list.contains(label) {
        list
    } else {
        list.push(label)
    }
}

/// The texts of `names`.
pub open spec fn texts(names: Seq<String>) -> Seq<Seq<char>> {
    names.map_values(|name: String| name@)
}

/// A graph under construction, in which no two nodes carry the same label.
pub struct GraphStore {
    graph: UnGraph<String, ()>,
    names: Vec<String>,
}

impl GraphStore {
    /// The labels of the nodes, by node index.
    pub closed spec fn labels(&self) -> Seq<Seq<char>> {
        graph_labels(self.graph)
    }

    /// The two ends of each edge, the edges in the order in which they were added.
    pub closed spec fn edges(&self) -> Seq<(int, int)> {
        graph_edges(self.graph)
    }

    /// No label occurs twice, and the store knows the label of every node.
    pub closed spec fn wf(&self) -> bool {
        &&& texts(self.names@) == graph_labels(self.graph)
        &&& graph_labels(self.graph).no_duplicates()
    }

    /// In a well-formed store no two nodes carry the same label.
    pub proof fn lemma_labels_differ(&self)
        requires
            self.wf(),
        ensures
            self.labels().no_duplicates(),
    {
    }

    /// A store without nodes and without edges.
    pub fn new() -> (store: GraphStore)
        ensures
            store.wf(),
            store.labels() == Seq::<Seq<char>>::empty(),
            store.edges() == Seq::<(int, int)>::empty(),
    {
        let store = GraphStore { graph: empty_graph(), names: Vec::new() };
        assert(texts(store.names@) =~= graph_labels(store.graph));
        store
    }

    /// The number of nodes.
    pub fn node_count(&self) -> (count: usize)
        requires
            self.wf(),
        ensures
            count == self.labels().len(),
    {
        assert(texts(self.names@).len() == self.names@.len());
        self.names.len()
    }

    /// The index of the node that carries `label`. Where no node carries it
    /// yet, a node is added for it behind the others; else nothing changes.
    /// A full store takes no label that it does not hold.
    pub fn add_node(&mut self, label: String) -> (index: usize)
        requires
            old(self).wf(),
            old(self).labels().contains(label@) || old(self).labels().len() < GRAPH_LIMIT,
        ensures
            final(self).wf(),
            final(self).labels() == with_label(old(self).labels(), label@),
            final(self).edges() == old(self).edges(),
            index < final(self).labels().len(),
            final(self).labels()[index as int] == label@,
    {
        let mut i: usize = 0;
        while i < self.names.len()
            invariant
                self.wf(),
                *self == *old(self),
                0 <= i <= self.names@.len(),
                forall|j: int| 0 <= j < i ==> self.labels()[j] != label@,
            decreases self.names@.len() - i,
        {
            assert(texts(self.names@)[i as int] == self.names@[i as int]@);
            if self.names[i] == label {
                return i;
            }
            i += 1;
        }
        let ghost before = self.labels();
        let index = push_node(&mut self.graph, label.clone());
        self.names.push(label);
        proof {
            assert(texts(self.names@) =~= before.push(label@));
            assert(!before.contains(label@));
        }
        index
    }

    /// Adds an edge between the nodes `a` and `b` behind the others. The two
    /// may be one node, and the same pair may be joined again. A full store
    /// takes no edge.
    pub fn add_edge(&mut self, a: usize, b: usize)
        requires
            old(self).wf(),
            a < old(self).labels().len(),
            b < old(self).labels().len(),
            old(self).edges().len() < GRAPH_LIMIT,
        ensures
            final(self).wf(),
            final(self).labels() == old(self).labels(),
            final(self).edges() == old(self).edges().push((a as int, b as int)),
    {
        push_edge(&mut self.graph, a, b);
    }

    /// The graph that was built.
    pub fn into_graph(self) -> (graph: UnGraph<String, ()>)
        ensures
            graph_labels(graph) == self.labels(),
            graph_edges(graph) == self.edges(),
    {
        self.graph
    }
}

/// Some edge leads from `from` to `to`, in this direction.
pub open spec fn leads(edges: Seq<(int, int)>, from: int, to: int) -> bool {
    exists|i: int| 0 <= i < edges.len() && #[trigger] edges[i] == (from, to)
}

/// [`outgoing`] holds just the nodes to which an edge leads from `node`.
pub proof fn lemma_outgoing_holds(edges: Seq<(int, int)>, node: int, other: int)
    ensures
        outgoing(edges, node).contains(other) <==> leads(edges, node, other),
    decreases edges.len(),
{
    if edges.len() > 0 {
        let rest = edges.drop_last();
        let last = edges.last();
        lemma_outgoing_holds(rest, node, other);
        let head = if last.0 == node {
            seq![last.1]
        } else {
            Seq::<int>::empty()
        };
        assert(outgoing(edges, node) =~= head + outgoing(rest, node));
        vstd::seq_lib::lemma_seq_concat_contains_all_elements(head, outgoing(rest, node), other);
        if head.contains(other) {
            assert(edges[edges.len() - 1] == (node, other));
        }
        if leads(rest, node, other) {
            let i = choose|i: int| 0 <= i < rest.len() && #[trigger] rest[i] == (node, other);
            assert(edges[i] == rest[i]);
        }
        if leads(edges, node, other) {
            let i = choose|i: int| 0 <= i < edges.len() && #[trigger] edges[i] == (node, other);
            if i < rest.len() {
                assert(rest[i] == edges[i]);
            } else {
                assert(head[0] == other);
            }
        }
    }
}

/// [`incoming`] holds just the other nodes from which an edge leads to `node`.
pub proof fn lemma_incoming_holds(edges: Seq<(int, int)>, node: int, other: int)
    ensures
        incoming(edges, node).contains(other) <==> other != node && leads(edges, other, node),
    decreases edges.len(),
{
    if edges.len() > 0 {
        let rest = edges.drop_last();
        let last = edges.last();
        lemma_incoming_holds(rest, node, other);
        let head = if last.1 == node && last.0 != node {
            seq![last.0]
        } else {
            Seq::<int>::empty()
        };
        assert(incoming(edges, node) =~= head + incoming(rest, node));
        vstd::seq_lib::lemma_seq_concat_contains_all_elements(head, incoming(rest, node), other);
        if head.contains(other) {
            assert(edges[edges.len() - 1] == (other, node));
        }
        if leads(rest, other, node) {
            let i = choose|i: int| 0 <= i < rest.len() && #[trigger] rest[i] == (other, node);
            assert(edges[i] == rest[i]);
        }
        if other != node && leads(edges, other, node) {
            let i = choose|i: int| 0 <= i < edges.len() && #[trigger] edges[i] == (other, node);
            if i < rest.len() {
                assert(rest[i] == edges[i]);
            } else {
                assert(head[0] == other);
            }
        }
    }
}

/// An edge joins `node` to exactly the nodes that [`neighbour_list`] holds.
pub proof fn lemma_neighbour_list_is_linked(edges: Seq<(int, int)>, node: int, other: int)
    ensures
        neighbour_list(edges, node).contains(other) <==> linked(edges, node, other),
{
    lemma_outgoing_holds(edges, node, other);
    lemma_incoming_holds(edges, node, other);
    vstd::seq_lib::lemma_seq_concat_contains_all_elements(
        outgoing(edges, node),
        incoming(edges, node),
        other,
    );
    if leads(edges, node, other) {
        let i = choose|i: int| 0 <= i < edges.len() && #[trigger] edges[i] == (node, other);
        assert(edges[i] == (node, other) || edges[i] == (other, node));
    }
    if leads(edges, other, node) {
        let i = choose|i: int| 0 <= i < edges.len() && #[trigger] edges[i] == (other, node);
        assert(edges[i] == (node, other) || edges[i] == (other, node));
    }
    if linked(edges, node, other) {
        let i = choose|i: int|
            0 <= i < edges.len() && (#[trigger] edges[i] == (node, other) || edges[i] == (
                other,
                node,
            ));
        assert(leads(edges, node, other) || leads(edges, other, node));
    }
}

} // verus!
