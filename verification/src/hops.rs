//! Hop distances between the nodes of an undirected graph.
//!
//! A graph is given here by plain values: the number of its nodes, which are
//! numbered from zero, and the list of its edges as pairs of node numbers.
//! An edge joins its two ends in both directions, and the same pair may occur
//! more than once.

use vstd::prelude::*;

verus! {

/// The entries of `list` as mathematical integers.
pub open spec fn ints(list: Seq<usize>) -> Seq<int> {
    list.map_values(|entry: usize| entry as int)
}

/// Some edge joins `u` and `v`.
pub open spec fn linked(edges: Seq<(int, int)>, u: int, v: int) -> bool {
    exists|i: int| 0 <= i < edges.len() && (#[trigger] edges[i] == (u, v) || edges[i] == (v, u))
}

/// The node at position `i` of `path` is joined to the next one.
pub open spec fn step(edges: Seq<(int, int)>, path: Seq<int>, i: int) -> bool {
    linked(edges, path[i], path[i + 1])
}

/// `path` is a walk: one node or more, all of the graph, each joined to the
/// next by an edge.
pub open spec fn is_walk(nodes: int, edges: Seq<(int, int)>, path: Seq<int>) -> bool {
    &&& path.len() > 0
    &&& forall|i: int| 0 <= i < path.len() ==> 0 <= #[trigger] path[i] < nodes
    &&& forall|i: int| 0 <= i < path.len() - 1 ==> #[trigger] step(edges, path, i)
}

/// `path` is a walk that starts at `from` and ends at `to`.
pub open spec fn walk_between(
    nodes: int,
    edges: Seq<(int, int)>,
    path: Seq<int>,
    from: int,
    to: int,
) -> bool {
    is_walk(nodes, edges, path) && path[0] == from && path[path.len() - 1] == to
}

/// A walk of exactly `hops` edges leads from `from` to `to`.
pub open spec fn reaches_in(
    nodes: int,
    edges: Seq<(int, int)>,
    from: int,
    to: int,
    hops: int,
) -> bool {
    exists|path: Seq<int>| #[trigger]
        walk_between(nodes, edges, path, from, to) && path.len() == hops + 1
}

/// Some walk leads from `from` to `to`.
pub open spec fn connected(nodes: int, edges: Seq<(int, int)>, from: int, to: int) -> bool {
    exists|hops: int| reaches_in(nodes, edges, from, to, hops)
}

/// The hop distance from `from` to `to` is `hops`: a walk of `hops` edges joins
/// them and no walk of fewer edges does.
pub open spec fn at_distance(
    nodes: int,
    edges: Seq<(int, int)>,
    from: int,
    to: int,
    hops: int,
) -> bool {
    &&& reaches_in(nodes, edges, from, to, hops)
    &&& forall|fewer: int| fewer < hops ==> !reaches_in(nodes, edges, from, to, fewer)
}

/// The nodes whose hop distance from `source` is `hops`.
pub open spec fn level(nodes: int, edges: Seq<(int, int)>, source: int, hops: int) -> Set<int> {
    Set::new(|node: int| at_distance(nodes, edges, source, node, hops))
}

/// The value `hops`, once for each node at that hop distance from `source`.
pub open spec fn level_run(nodes: int, edges: Seq<(int, int)>, source: int, hops: int) -> Seq<
    int,
> {
    Seq::new(level(nodes, edges, source, hops).len(), |i: int| hops)
}

/// The runs of the hop distances 1, 2, ..., `limit` from `source`, one after
/// the other.
pub open spec fn distances_up_to(
    nodes: int,
    edges: Seq<(int, int)>,
    source: int,
    limit: int,
) -> Seq<int>
    decreases limit,
{
    if limit <= 0 {
        Seq::empty()
    } else {
        distances_up_to(nodes, edges, source, limit - 1) + level_run(nodes, edges, source, limit)
    }
}

/// The hop distances from `source` to every other node that a walk reaches from
/// it, in ascending order. A node that no walk reaches contributes nothing.
pub open spec fn distances_from(nodes: int, edges: Seq<(int, int)>, source: int) -> Seq<int> {
    distances_up_to(nodes, edges, source, nodes)
}

/// A walk has a node, so it has no negative number of edges.
pub proof fn lemma_reach_is_natural(
    nodes: int,
    edges: Seq<(int, int)>,
    from: int,
    to: int,
    hops: int,
)
    requires
        reaches_in(nodes, edges, from, to, hops),
    ensures
        hops >= 0,
        0 <= from < nodes,
        0 <= to < nodes,
{
    let path = choose|path: Seq<int>| #[trigger]
        walk_between(nodes, edges, path, from, to) && path.len() == hops + 1;
    assert(0 <= path[0] < nodes);
    assert(0 <= path[path.len() - 1] < nodes);
}

/// A walk of no edge stays where it starts.
pub proof fn lemma_reach_in_zero(nodes: int, edges: Seq<(int, int)>, from: int, to: int)
    ensures
        reaches_in(nodes, edges, from, to, 0) <==> (from == to && 0 <= from < nodes),
{
    if from == to && 0 <= from < nodes {
        let path = seq![from];
        assert(walk_between(nodes, edges, path, from, to));
    }
    if reaches_in(nodes, edges, from, to, 0) {
        lemma_reach_is_natural(nodes, edges, from, to, 0);
    }
}

/// Every node of the graph is at hop distance zero from itself, and from no
/// other node.
pub proof fn lemma_distance_zero(nodes: int, edges: Seq<(int, int)>, from: int, to: int)
    ensures
        at_distance(nodes, edges, from, to, 0) <==> (from == to && 0 <= from < nodes),
{
    lemma_reach_in_zero(nodes, edges, from, to);
    assert forall|fewer: int| fewer < 0 implies !reaches_in(nodes, edges, from, to, fewer) by {
        if reaches_in(nodes, edges, from, to, fewer) {
            lemma_reach_is_natural(nodes, edges, from, to, fewer);
        }
    }
}

/// A walk that is lengthened by one edge at its end is a walk.
pub proof fn lemma_reach_step(
    nodes: int,
    edges: Seq<(int, int)>,
    from: int,
    via: int,
    to: int,
    hops: int,
)
    requires
        reaches_in(nodes, edges, from, via, hops),
        linked(edges, via, to),
        0 <= to < nodes,
    ensures
        reaches_in(nodes, edges, from, to, hops + 1),
{
    let path = choose|path: Seq<int>| #[trigger]
        walk_between(nodes, edges, path, from, via) && path.len() == hops + 1;
    let longer = path.push(to);
    assert forall|i: int| 0 <= i < longer.len() - 1 implies #[trigger] step(edges, longer, i) by {
        if i < path.len() - 1 {
            assert(step(edges, path, i));
        }
    }
    assert(walk_between(nodes, edges, longer, from, to));
}

/// A walk of one edge or more passes, one edge before its end, through a node
/// that is joined to its end.
pub proof fn lemma_reach_unstep(
    nodes: int,
    edges: Seq<(int, int)>,
    from: int,
    to: int,
    hops: int,
) -> (via: int)
    requires
        reaches_in(nodes, edges, from, to, hops),
        hops >= 1,
    ensures
        reaches_in(nodes, edges, from, via, hops - 1),
        linked(edges, via, to),
        0 <= via < nodes,
{
    let path = choose|path: Seq<int>| #[trigger]
        walk_between(nodes, edges, path, from, to) && path.len() == hops + 1;
    let shorter = path.drop_last();
    let via = path[hops - 1];
    assert(step(edges, path, hops - 1));
    assert forall|i: int| 0 <= i < shorter.len() - 1 implies #[trigger] step(edges, shorter, i) by {
        assert(step(edges, path, i));
    }
    assert forall|i: int| 0 <= i < shorter.len() implies 0 <= #[trigger] shorter[i] < nodes by {
        assert(0 <= path[i] < nodes);
    }
    assert(walk_between(nodes, edges, shorter, from, via));
    via
}

/// Among the walks between two nodes one has the fewest edges.
pub proof fn lemma_least_hops(
    nodes: int,
    edges: Seq<(int, int)>,
    from: int,
    to: int,
    hops: int,
) -> (least: int)
    requires
        reaches_in(nodes, edges, from, to, hops),
    ensures
        0 <= least <= hops,
        at_distance(nodes, edges, from, to, least),
    decreases hops,
{
    lemma_reach_is_natural(nodes, edges, from, to, hops);
    if at_distance(nodes, edges, from, to, hops) {
        hops
    } else {
        let fewer = choose|fewer: int| fewer < hops && reaches_in(nodes, edges, from, to, fewer);
        lemma_reach_is_natural(nodes, edges, from, to, fewer);
        lemma_least_hops(nodes, edges, from, to, fewer)
    }
}

/// A node at hop distance `hops` of one or more has a neighbour at hop
/// distance `hops - 1`.
pub proof fn lemma_predecessor(
    nodes: int,
    edges: Seq<(int, int)>,
    from: int,
    to: int,
    hops: int,
) -> (via: int)
    requires
        at_distance(nodes, edges, from, to, hops),
        hops >= 1,
    ensures
        at_distance(nodes, edges, from, via, hops - 1),
        linked(edges, via, to),
        0 <= via < nodes,
{
    let via = lemma_reach_unstep(nodes, edges, from, to, hops);
    lemma_reach_is_natural(nodes, edges, from, to, hops);
    assert forall|fewer: int| fewer < hops - 1 implies !reaches_in(
        nodes,
        edges,
        from,
        via,
        fewer,
    ) by {
        if reaches_in(nodes, edges, from, via, fewer) {
            lemma_reach_step(nodes, edges, from, via, to, fewer);
        }
    }
    via
}

/// A node that an edge joins to a node at hop distance `hops` is at hop
/// distance `hops + 1` at most.
pub proof fn lemma_neighbour_distance(
    nodes: int,
    edges: Seq<(int, int)>,
    from: int,
    via: int,
    to: int,
    hops: int,
) -> (next: int)
    requires
        at_distance(nodes, edges, from, via, hops),
        linked(edges, via, to),
        0 <= to < nodes,
    ensures
        0 <= next <= hops + 1,
        at_distance(nodes, edges, from, to, next),
{
    lemma_reach_step(nodes, edges, from, via, to, hops);
    lemma_least_hops(nodes, edges, from, to, hops + 1)
}

/// A level holds nodes of the graph only, so it is finite.
pub proof fn lemma_level_bounded(nodes: int, edges: Seq<(int, int)>, source: int, hops: int)
    requires
        0 <= nodes,
    ensures
        level(nodes, edges, source, hops).finite(),
        level(nodes, edges, source, hops).len() <= nodes,
{
    let all = vstd::set_lib::set_int_range(0, nodes);
    vstd::set_lib::lemma_int_range(0, nodes);
    assert forall|node: int| level(nodes, edges, source, hops).contains(node) implies all.contains(
        node,
    ) by {
        lemma_reach_is_natural(nodes, edges, source, node, hops);
    }
    vstd::set_lib::lemma_len_subset(level(nodes, edges, source, hops), all);
}

/// A set of nodes that holds `source` and, with each node, all that an edge
/// joins to it, holds every node that a walk reaches from `source`.
pub proof fn lemma_closed_set_holds_reach(
    nodes: int,
    edges: Seq<(int, int)>,
    source: int,
    closed: Set<int>,
    to: int,
    hops: int,
)
    requires
        closed.contains(source),
        forall|u: int, v: int|
            closed.contains(u) && linked(edges, u, v) && 0 <= v < nodes ==> closed.contains(v),
        reaches_in(nodes, edges, source, to, hops),
    ensures
        closed.contains(to),
    decreases hops,
{
    lemma_reach_is_natural(nodes, edges, source, to, hops);
    if hops == 0 {
        lemma_reach_in_zero(nodes, edges, source, to);
    } else {
        let via = lemma_reach_unstep(nodes, edges, source, to, hops);
        lemma_closed_set_holds_reach(nodes, edges, source, closed, via, hops - 1);
    }
}

/// From some depth on all levels are empty, so the runs up to any later limit
/// are those up to that depth.
pub proof fn lemma_no_further_runs(
    nodes: int,
    edges: Seq<(int, int)>,
    source: int,
    depth: int,
    limit: int,
)
    requires
        0 <= depth <= limit,
        forall|hops: int|
            depth < hops ==> level(nodes, edges, source, hops) =~= Set::<int>::empty(),
    ensures
        distances_up_to(nodes, edges, source, limit) == distances_up_to(
            nodes,
            edges,
            source,
            depth,
        ),
    decreases limit,
{
    if depth < limit {
        lemma_no_further_runs(nodes, edges, source, depth, limit - 1);
        assert(level(nodes, edges, source, limit) =~= Set::<int>::empty());
        assert(level_run(nodes, edges, source, limit) =~= Seq::<int>::empty());
        assert(distances_up_to(nodes, edges, source, limit) =~= distances_up_to(
            nodes,
            edges,
            source,
            limit - 1,
        ));
    }
}

/// A walk that meets one node twice stays a walk between the same two nodes
/// where the part between the two meetings is cut out.
pub proof fn lemma_walk_cut(
    nodes: int,
    edges: Seq<(int, int)>,
    path: Seq<int>,
    from: int,
    to: int,
    i: int,
    j: int,
)
    requires
        walk_between(nodes, edges, path, from, to),
        0 <= i < j < path.len(),
        path[i] == path[j],
    ensures
        reaches_in(nodes, edges, from, to, path.len() - 1 - (j - i)),
{
    let shorter = path.take(i + 1) + path.skip(j + 1);
    assert forall|k: int| 0 <= k < shorter.len() implies 0 <= #[trigger] shorter[k] < nodes by {
        if k <= i {
            assert(shorter[k] == path[k]);
        } else {
            assert(shorter[k] == path[k + (j - i)]);
        }
    }
    assert forall|k: int| 0 <= k < shorter.len() - 1 implies #[trigger] step(
        edges,
        shorter,
        k,
    ) by {
        if k < i {
            assert(step(edges, path, k));
        } else {
            assert(step(edges, path, k + (j - i)));
        }
    }
    assert(walk_between(nodes, edges, shorter, from, to));
}

/// A shortest walk meets no node twice, so the hop distance of two nodes is
/// less than the number of nodes.
pub proof fn lemma_distance_below_nodes(
    nodes: int,
    edges: Seq<(int, int)>,
    from: int,
    to: int,
    hops: int,
)
    requires
        at_distance(nodes, edges, from, to, hops),
    ensures
        0 <= hops < nodes,
{
    lemma_reach_is_natural(nodes, edges, from, to, hops);
    let path = choose|path: Seq<int>| #[trigger]
        walk_between(nodes, edges, path, from, to) && path.len() == hops + 1;
    assert forall|i: int, j: int| 0 <= i < j < path.len() implies path[i] != path[j] by {
        if path[i] == path[j] {
            lemma_walk_cut(nodes, edges, path, from, to, i, j);
        }
    }
    assert(path.no_duplicates());
    path.unique_seq_to_set();
    let all = vstd::set_lib::set_int_range(0, nodes);
    vstd::set_lib::lemma_int_range(0, nodes);
    assert forall|node: int| path.to_set().contains(node) implies all.contains(node) by {
        let i = choose|i: int| 0 <= i < path.len() && path[i] == node;
        assert(0 <= path[i] < nodes);
    }
    vstd::set_lib::lemma_len_subset(path.to_set(), all);
}

/// A walk read from its end is a walk back, of as many edges.
pub proof fn lemma_reach_back(nodes: int, edges: Seq<(int, int)>, from: int, to: int, hops: int)
    requires
        reaches_in(nodes, edges, from, to, hops),
    ensures
        reaches_in(nodes, edges, to, from, hops),
{
    let path = choose|path: Seq<int>| #[trigger]
        walk_between(nodes, edges, path, from, to) && path.len() == hops + 1;
    let back = path.reverse();
    assert forall|k: int| 0 <= k < back.len() - 1 implies #[trigger] step(edges, back, k) by {
        let at = path.len() - 2 - k;
        assert(step(edges, path, at));
        let i = choose|i: int|
            0 <= i < edges.len() && (#[trigger] edges[i] == (path[at], path[at + 1]) || edges[i]
                == (path[at + 1], path[at]));
        assert(edges[i] == (back[k], back[k + 1]) || edges[i] == (back[k + 1], back[k]));
    }
    assert(walk_between(nodes, edges, back, to, from));
}

/// The hop distance from one node to another is the hop distance back.
pub proof fn lemma_distance_symmetric(
    nodes: int,
    edges: Seq<(int, int)>,
    from: int,
    to: int,
    hops: int,
)
    requires
        at_distance(nodes, edges, from, to, hops),
    ensures
        at_distance(nodes, edges, to, from, hops),
{
    lemma_reach_back(nodes, edges, from, to, hops);
    assert forall|fewer: int| fewer < hops implies !reaches_in(nodes, edges, to, from, fewer) by {
        if reaches_in(nodes, edges, to, from, fewer) {
            lemma_reach_back(nodes, edges, to, from, fewer);
        }
    }
}

} // verus!
