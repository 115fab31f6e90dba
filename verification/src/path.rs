//! Path graphs: graphs whose nodes stand in a line, each joined to the next
//! and to nothing else.

use crate::census::lemma_distance_occurs;
use crate::distances::all_distances;
use crate::hops::at_distance;
use crate::hops::lemma_reach_in_zero;
use crate::hops::lemma_reach_is_natural;
use crate::hops::lemma_reach_step;
use crate::hops::lemma_reach_unstep;
use crate::hops::linked;
use crate::hops::reaches_in;
use crate::stats::is_largest;
use vstd::prelude::*;

verus! {

/// `line` lists the nodes of the graph, each once, and an edge joins two
/// nodes just when they are next to each other in `line`.
pub open spec fn is_path_graph(nodes: int, edges: Seq<(int, int)>, line: Seq<int>) -> bool {
    &&& line.len() == nodes
    &&& line.no_duplicates()
    &&& forall|node: int| 0 <= node < nodes <==> line.contains(node)
    &&& forall|i: int, j: int|
        0 <= i < line.len() && 0 <= j < line.len() ==> (linked(edges, line[i], line[j]) <==> i - j
            == 1 || j - i == 1)
}

/// How far apart `i` and `j` are.
pub open spec fn gap(i: int, j: int) -> int {
    if i <= j {
        j - i
    } else {
        i - j
    }
}

/// A walk of `hops` edges between two nodes of a path graph gets no farther
/// along the line than `hops` places.
pub proof fn lemma_walk_covers_gap(
    nodes: int,
    edges: Seq<(int, int)>,
    line: Seq<int>,
    i: int,
    j: int,
    hops: int,
)
    requires
        is_path_graph(nodes, edges, line),
        0 <= i < nodes,
        0 <= j < nodes,
        reaches_in(nodes, edges, line[i], line[j], hops),
    ensures
        gap(i, j) <= hops,
    decreases hops,
{
    lemma_reach_is_natural(nodes, edges, line[i], line[j], hops);
    if hops == 0 {
        lemma_reach_in_zero(nodes, edges, line[i], line[j]);
    } else {
        let via = lemma_reach_unstep(nodes, edges, line[i], line[j], hops);
        assert(line.contains(via));
        let k = choose|k: int| 0 <= k < line.len() && line[k] == via;
        lemma_walk_covers_gap(nodes, edges, line, i, k, hops - 1);
        assert(linked(edges, line[k], line[j]));
    }
}

/// A walk along the line joins two nodes of a path graph with as many edges
/// as they are places apart.
pub proof fn lemma_walk_along_line(
    nodes: int,
    edges: Seq<(int, int)>,
    line: Seq<int>,
    i: int,
    j: int,
)
    requires
        is_path_graph(nodes, edges, line),
        0 <= i < nodes,
        0 <= j < nodes,
    ensures
        reaches_in(nodes, edges, line[i], line[j], gap(i, j)),
    decreases gap(i, j),
{
    assert(line.contains(line[i]));
    assert(line.contains(line[j]));
    if i == j {
        lemma_reach_in_zero(nodes, edges, line[i], line[j]);
    } else {
        let before = if i < j {
            j - 1
        } else {
            j + 1
        };
        lemma_walk_along_line(nodes, edges, line, i, before);
        assert(linked(edges, line[before], line[j]));
        lemma_reach_step(nodes, edges, line[i], line[before], line[j], gap(i, before));
    }
}

/// The hop distance of two nodes of a path graph is the number of places
/// that they are apart in the line.
pub proof fn lemma_path_distance(
    nodes: int,
    edges: Seq<(int, int)>,
    line: Seq<int>,
    i: int,
    j: int,
)
    requires
        is_path_graph(nodes, edges, line),
        0 <= i < nodes,
        0 <= j < nodes,
    ensures
        at_distance(nodes, edges, line[i], line[j], gap(i, j)),
{
    lemma_walk_along_line(nodes, edges, line, i, j);
    assert forall|fewer: int| fewer < gap(i, j) implies !reaches_in(
        nodes,
        edges,
        line[i],
        line[j],
        fewer,
    ) by {
        if reaches_in(nodes, edges, line[i], line[j], fewer) {
            lemma_walk_covers_gap(nodes, edges, line, i, j, fewer);
        }
    }
}

/// In a path graph of `nodes` nodes, and so of `nodes - 1` edges in a line,
/// the largest hop distance is `nodes - 1`, and only the two ends of the
/// line are that far apart.
pub proof fn lemma_path_maximum(nodes: int, edges: Seq<(int, int)>, line: Seq<int>)
    requires
        is_path_graph(nodes, edges, line),
        1 <= nodes,
    ensures
        is_largest(all_distances(nodes, edges), nodes - 1),
        forall|from: int, to: int| #[trigger]
            at_distance(nodes, edges, from, to, nodes - 1) ==> (from == line[0] && to
                == line[nodes - 1]) || (from == line[nodes - 1] && to == line[0]),
{
    let all = all_distances(nodes, edges);
    let most = nodes - 1;
    // Two nodes are as far apart as their places in the line, which is
    // never more than from one end to the other.
    assert forall|from: int, to: int, hops: int| #[trigger]
        at_distance(nodes, edges, from, to, hops) implies hops <= most && (hops == most ==> (from
        == line[0] && to == line[most]) || (from == line[most] && to == line[0])) by {
        lemma_reach_is_natural(nodes, edges, from, to, hops);
        assert(line.contains(from));
        assert(line.contains(to));
        let i = choose|i: int| 0 <= i < line.len() && line[i] == from;
        let j = choose|j: int| 0 <= j < line.len() && line[j] == to;
        lemma_path_distance(nodes, edges, line, i, j);
    }
    assert forall|k: int| 0 <= k < all.len() implies all[k] <= most by {
        assert(all.contains(all[k]));
        lemma_distance_occurs(nodes, edges, all[k]);
    }
    if most >= 1 {
        lemma_path_distance(nodes, edges, line, 0, most);
        lemma_distance_occurs(nodes, edges, most);
    } else if all.len() > 0 {
        assert(all.contains(all[0]));
        lemma_distance_occurs(nodes, edges, all[0]);
    }
}

} // verus!
