//! What holds of the statistics of every graph.

use crate::builder::edges_read;
use crate::builder::node_labels;
use crate::census::lemma_distance_occurs;
use crate::distances::all_distances;
use crate::distances::distances_of_first;
use crate::distances::graph_distances;
use crate::distances::GraphDistances;
use crate::hops::at_distance;
use crate::hops::distances_from;
use crate::hops::lemma_no_further_runs;
use crate::hops::lemma_reach_unstep;
use crate::hops::level;
use crate::order::lemma_line_order_is_irrelevant;
use crate::path::is_path_graph;
use crate::path::lemma_path_maximum;
use crate::stats::is_largest;
use crate::stats::is_mode;
use crate::stats::lemma_largest_unique;
use crate::stats::lemma_mode_unique;
use crate::stats::lemma_order_of_entries_is_irrelevant;
use crate::stats::median;
use crate::store::graph_edges;
use crate::store::graph_labels;
use petgraph::graph::UnGraph;
use vstd::prelude::*;

verus! {

/// Where a graph has no edge, no node is at a hop distance of one or more
/// from any node, so there are no hop distances at all.
pub proof fn lemma_no_edge_no_distance(nodes: int, edges: Seq<(int, int)>)
    requires
        0 <= nodes,
        edges.len() == 0,
    ensures
        all_distances(nodes, edges) == Seq::<int>::empty(),
{
    assert forall|source: int| #[trigger]
        distances_from(nodes, edges, source) == Seq::<int>::empty() by {
        assert forall|hops: int| 0 < hops implies level(nodes, edges, source, hops)
            =~= Set::<int>::empty() by {
            assert forall|node: int| !at_distance(nodes, edges, source, node, hops) by {
                if at_distance(nodes, edges, source, node, hops) {
                    let via = lemma_reach_unstep(nodes, edges, source, node, hops);
                }
            }
        }
        lemma_no_further_runs(nodes, edges, source, 0, nodes);
    }
    lemma_no_distance_from_any(nodes, edges, nodes);
}

/// Where every scan lists nothing, the scans together list nothing.
proof fn lemma_no_distance_from_any(nodes: int, edges: Seq<(int, int)>, sources: int)
    requires
        forall|source: int| #[trigger]
            distances_from(nodes, edges, source) == Seq::<int>::empty(),
    ensures
        distances_of_first(nodes, edges, sources) == Seq::<int>::empty(),
    decreases sources,
{
    if sources > 0 {
        lemma_no_distance_from_any(nodes, edges, sources - 1);
        assert(distances_from(nodes, edges, sources - 1) == Seq::<int>::empty());
        assert(distances_of_first(nodes, edges, sources) =~= Seq::<int>::empty());
    }
}

/// The statistics of a graph without edges are all zero, whatever the
/// number of its nodes: zero, one or more.
pub proof fn lemma_edgeless_statistics(bundle: GraphDistances)
    requires
        bundle.wf(),
        graph_edges(bundle.graph).len() == 0,
    ensures
        bundle.avg_distance@ == (0int, 1int),
        bundle.maximum_distance == 0,
        bundle.median_distance@ == (0int, 1int),
        bundle.mode_distance == 0,
{
    let all = graph_distances(bundle.graph);
    lemma_no_edge_no_distance(graph_labels(bundle.graph).len() as int, graph_edges(bundle.graph));
    assert(all.len() == 0);
    all.lemma_sort_ensures();
    vstd::seq_lib::to_multiset_len(all);
    vstd::seq_lib::to_multiset_len(all.sort());
}

/// Two results for one graph are the same result: the statistics depend on
/// the graph and on nothing else.
pub proof fn lemma_statistics_determined(first: GraphDistances, second: GraphDistances)
    requires
        first.wf(),
        second.wf(),
        first.graph == second.graph,
    ensures
        first == second,
{
    let all = graph_distances(first.graph);
    lemma_largest_unique(all, first.maximum_distance as int, second.maximum_distance as int);
    lemma_mode_unique(all, first.mode_distance as int, second.mode_distance as int);
    assert(first.avg_distance@ == second.avg_distance@);
    assert(first.median_distance@ == second.median_distance@);
}

/// The maximum is the hop distance of the two nodes that are farthest apart
/// among those that a walk joins: no two nodes are more hops apart, and
/// unless it is 0 two nodes are that many hops apart.
pub proof fn lemma_maximum_is_farthest(graph: UnGraph<String, ()>, top: int)
    requires
        is_largest(graph_distances(graph), top),
    ensures
        forall|from: int, to: int, hops: int| #[trigger]
            at_distance(graph_labels(graph).len() as int, graph_edges(graph), from, to, hops)
                ==> hops <= top,
        top == 0 || exists|from: int, to: int|
            at_distance(graph_labels(graph).len() as int, graph_edges(graph), from, to, top),
{
    let nodes = graph_labels(graph).len() as int;
    let edges = graph_edges(graph);
    let all = graph_distances(graph);
    if all.len() > 0 {
        assert(all.contains(all[0]));
        lemma_distance_occurs(nodes, edges, all[0]);
        lemma_distance_occurs(nodes, edges, top);
    }
    assert forall|from: int, to: int, hops: int| #[trigger]
        at_distance(nodes, edges, from, to, hops) implies hops <= top by {
        if hops >= 1 {
            lemma_distance_occurs(nodes, edges, hops);
            let at = choose|at: int| 0 <= at < all.len() && all[at] == hops;
            assert(all[at] <= top);
        }
    }
}

/// The largest hop distance of a path graph is the number of its edges, one
/// fewer than it has nodes, and only the two ends of the line are that far
/// apart.
pub proof fn lemma_path_graph_maximum(graph: UnGraph<String, ()>, line: Seq<int>)
    requires
        graph_labels(graph).len() >= 1,
        is_path_graph(graph_labels(graph).len() as int, graph_edges(graph), line),
    ensures
        is_largest(graph_distances(graph), graph_labels(graph).len() - 1),
        forall|from: int, to: int| #[trigger]
            at_distance(
                graph_labels(graph).len() as int,
                graph_edges(graph),
                from,
                to,
                graph_labels(graph).len() - 1,
            ) ==> (from == line[0] && to == line[graph_labels(graph).len() - 1]) || (from
                == line[graph_labels(graph).len() - 1] && to == line[0]),
{
    lemma_path_maximum(graph_labels(graph).len() as int, graph_edges(graph), line);
}

/// The graphs of the same lines in two orders have the same median of hop
/// distances.
pub proof fn lemma_median_ignores_line_order(
    first: Seq<Seq<char>>,
    second: Seq<Seq<char>>,
    one: UnGraph<String, ()>,
    other: UnGraph<String, ()>,
)
    requires
        first.to_multiset() == second.to_multiset(),
        graph_labels(one) == node_labels(first),
        graph_edges(one) == edges_read(first),
        graph_labels(other) == node_labels(second),
        graph_edges(other) == edges_read(second),
    ensures
        median(graph_distances(one)) == median(graph_distances(other)),
{
    lemma_line_order_is_irrelevant(first, second);
    lemma_order_of_entries_is_irrelevant(graph_distances(one), graph_distances(other));
}

/// The graphs of the same lines in two orders have the same statistics: the
/// mean, the maximum and the mode do not depend on the order of the lines
/// any more than the median does.
pub proof fn lemma_statistics_ignore_line_order(
    first: Seq<Seq<char>>,
    second: Seq<Seq<char>>,
    one: GraphDistances,
    other: GraphDistances,
)
    requires
        first.to_multiset() == second.to_multiset(),
        one.wf(),
        other.wf(),
        graph_labels(one.graph) == node_labels(first),
        graph_edges(one.graph) == edges_read(first),
        graph_labels(other.graph) == node_labels(second),
        graph_edges(other.graph) == edges_read(second),
    ensures
        one.avg_distance == other.avg_distance,
        one.maximum_distance == other.maximum_distance,
        one.median_distance == other.median_distance,
        one.mode_distance == other.mode_distance,
{
    let here = graph_distances(one.graph);
    let there = graph_distances(other.graph);
    lemma_line_order_is_irrelevant(first, second);
    lemma_order_of_entries_is_irrelevant(here, there);
    assert(is_largest(there, one.maximum_distance as int));
    assert(is_mode(there, one.mode_distance as int));
    lemma_largest_unique(there, one.maximum_distance as int, other.maximum_distance as int);
    lemma_mode_unique(there, one.mode_distance as int, other.mode_distance as int);
    assert(one.avg_distance@ == other.avg_distance@);
    assert(one.median_distance@ == other.median_distance@);
}

} // verus!
