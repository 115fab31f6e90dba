//! The aggregator: the hop distances of all pairs of nodes and their
//! statistics.
//!
//! A scan from every node gives, for every ordered pair of two nodes that a
//! walk joins, one hop distance. Two nodes that a walk joins give two
//! entries, one from either side; two nodes that no walk joins give none.

use crate::error::GraphError;
use crate::hops::distances_from;
use crate::hops::ints;
use crate::scan::compute_distances;
use crate::stats::average_of;
use crate::stats::is_largest;
use crate::stats::is_mode;
use crate::stats::maximum_of;
use crate::stats::mean;
use crate::stats::median;
use crate::stats::median_of;
use crate::stats::mode_of;
use crate::stats::Fraction;
use crate::store::graph_edges;
use crate::store::graph_labels;
use crate::store::node_indices;
use petgraph::graph::UnGraph;
use vstd::prelude::*;

verus! {

/// The hop distances that the scans from the first `sources` nodes list, the
/// scans in the order of the nodes.
pub open spec fn distances_of_first(nodes: int, edges: Seq<(int, int)>, sources: int) -> Seq<int>
    decreases sources,
{
    if sources <= 0 {
        Seq::empty()
    } else {
        distances_of_first(nodes, edges, sources - 1) + distances_from(nodes, edges, sources - 1)
    }
}

/// The hop distances of all ordered pairs of distinct nodes that a walk joins.
pub open spec fn all_distances(nodes: int, edges: Seq<(int, int)>) -> Seq<int> {
    distances_of_first(nodes, edges, nodes)
}

/// The hop distances of all ordered pairs of distinct nodes of `graph` that a
/// walk joins.
pub open spec fn graph_distances(graph: UnGraph<String, ()>) -> Seq<int> {
    all_distances(graph_labels(graph).len() as int, graph_edges(graph))
}

/// A graph and the statistics of its hop distances.
#[derive(Debug)]
pub struct GraphDistances {
    pub graph: UnGraph<String, ()>,
    pub avg_distance: Fraction,
    pub maximum_distance: usize,
    pub median_distance: Fraction,
    pub mode_distance: usize,
}

impl GraphDistances {
    /// The four statistics are those of the hop distances of the graph.
    pub open spec fn wf(&self) -> bool {
        &&& self.avg_distance@ == mean(graph_distances(self.graph))
        &&& is_largest(graph_distances(self.graph), self.maximum_distance as int)
        &&& self.median_distance@ == median(graph_distances(self.graph))
        &&& is_mode(graph_distances(self.graph), self.mode_distance as int)
    }

    /// Scans `graph` once from every node and keeps the graph with the mean,
    /// the maximum, the median and the mode of what the scans list. No graph
    /// makes this fail; the result has the shape of what `file_graph` gives,
    /// so that the two chain.
    pub fn new(graph: UnGraph<String, ()>) -> (result: Result<GraphDistances, GraphError>)
        ensures
            result matches Ok(bundle) && bundle.graph == graph && bundle.wf(),
    {
        let all = collect_distances(&graph);
        let avg_distance = average_of(&all);
        let maximum_distance = maximum_of(&all);
        let mode_distance = mode_of(&all);
        let median_distance = median_of(all);
        Ok(GraphDistances { graph, avg_distance, maximum_distance, median_distance, mode_distance })
    }
}

/// Scans `graph` from every node, in the order of the nodes, and lists what
/// the scans list, one after the other.
pub fn collect_distances(graph: &UnGraph<String, ()>) -> (all: Vec<usize>)
    ensures
        ints(all@) == graph_distances(*graph),
{
    let ghost nodes = graph_labels(*graph).len() as int;
    let ghost edges = graph_edges(*graph);
    let indices = node_indices(graph);
    let mut all: Vec<usize> = Vec::new();
    let mut i: usize = 0;
    proof {
        assert(ints(all@) =~= distances_of_first(nodes, edges, 0));
    }
    while i < indices.len()
        invariant
            nodes == graph_labels(*graph).len(),
            edges == graph_edges(*graph),
            indices@.len() == nodes,
            forall|k: int| 0 <= k < indices@.len() ==> indices@[k] == k,
            0 <= i <= indices@.len(),
            ints(all@) == distances_of_first(nodes, edges, i as int),
        decreases indices@.len() - i,
    {
        let ghost before = all@;
        let mut found = compute_distances(graph, indices[i]);
        proof {
            assert(ints(before + found@) =~= ints(before) + ints(found@));
        }
        all.append(&mut found);
        i += 1;
    }
    all
}

/// The mean of the hop distances of `graph`: their sum over their number,
/// and 0 / 1 where no walk joins two nodes.
pub fn compute_average(graph: &UnGraph<String, ()>) -> (average: Fraction)
    ensures
        average@ == mean(graph_distances(*graph)),
{
    let all = collect_distances(graph);
    average_of(&all)
}

/// The largest hop distance of `graph`, and 0 where no walk joins two nodes.
pub fn compute_maximum(graph: &UnGraph<String, ()>) -> (top: usize)
    ensures
        is_largest(graph_distances(*graph), top as int),
{
    let all = collect_distances(graph);
    maximum_of(&all)
}

/// The median of the hop distances of `graph`, and 0 / 1 where no walk joins
/// two nodes. No graph makes this fail.
pub fn compute_median(graph: &UnGraph<String, ()>) -> (result: Result<Fraction, GraphError>)
    ensures
        result matches Ok(center) && center@ == median(graph_distances(*graph)),
{
    let all = collect_distances(graph);
    Ok(median_of(all))
}

/// The hop distance that occurs most often in `graph`, the smallest of them
/// where several occur equally often, and 0 where no walk joins two nodes.
/// No graph makes this fail.
pub fn compute_mode(graph: &UnGraph<String, ()>) -> (result: Result<usize, GraphError>)
    ensures
        result matches Ok(mode) && is_mode(graph_distances(*graph), mode as int),
{
    let all = collect_distances(graph);
    Ok(mode_of(&all))
}

} // verus!
