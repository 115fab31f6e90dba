//! The single-source scan: a breadth-first traversal that lists the hop
//! distance of every node it reaches.
//!
//! The scan marks the nodes it has met in the visit map that `petgraph`
//! makes for a graph, a `fixedbitset::FixedBitSet`. What such a map holds is
//! named by [`marked`], and the three functions that call it say what each
//! call does to that.

use crate::hops::at_distance;
use crate::hops::distances_from;
use crate::hops::distances_up_to;
use crate::hops::ints;
use crate::hops::lemma_closed_set_holds_reach;
use crate::hops::lemma_distance_zero;
use crate::hops::lemma_neighbour_distance;
use crate::hops::lemma_no_further_runs;
use crate::hops::lemma_predecessor;
use crate::hops::lemma_reach_is_natural;
use crate::hops::level;
use crate::hops::linked;
use crate::store::graph_edges;
use crate::store::graph_labels;
use crate::store::lemma_neighbour_list_is_linked;
use crate::store::neighbors;
use crate::store::node_indices;
use crate::store::neighbour_list;
use crate::store::GRAPH_LIMIT;
use fixedbitset::FixedBitSet;
use petgraph::graph::NodeIndex;
use petgraph::graph::UnGraph;
use petgraph::visit::VisitMap;
use petgraph::visit::Visitable;
use std::collections::VecDeque;
use vstd::prelude::*;

verus! {

/// `fixedbitset::FixedBitSet`, the visit map of a `petgraph` graph. Verus
/// sees nothing inside it.
#[verifier::external_type_specification]
#[verifier::external_body]
pub struct ExFixedBitSet(FixedBitSet);

/// The nodes that are marked in the visit map `map`.
pub uninterp spec fn marked(map: FixedBitSet) -> Set<int>;

/// The number of nodes that the visit map `map` was made for.
pub uninterp spec fn map_span(map: FixedBitSet) -> int;

/// `Visitable::visit_map` of a graph: a map for as many nodes as the graph
/// has, none of them marked. A graph with 32-bit indices has no more nodes
/// than [`GRAPH_LIMIT`].
#[verifier::external_body]
fn visit_map(graph: &UnGraph<String, ()>) -> (map: FixedBitSet)
    ensures
        marked(map) == Set::<int>::empty(),
        map_span(map) == graph_labels(*graph).len(),
        map_span(map) <= GRAPH_LIMIT,
{
    graph.visit_map()
}

/// `VisitMap::visit`: marks `node` and says whether it was unmarked before.
/// The map panics on a node beyond its span, which `requires` leaves out.
#[verifier::external_body]
fn visit(map: &mut FixedBitSet, node: usize) -> (first: bool)
    requires
        node < map_span(*old(map)),
        node <= GRAPH_LIMIT,
    ensures
        marked(*final(map)) == marked(*old(map)).insert(node as int),
        map_span(*final(map)) == map_span(*old(map)),
        first == !marked(*old(map)).contains(node as int),
{
    map.visit(NodeIndex::<u32>::new(node))
}

/// `VisitMap::is_visited`: whether `node` is marked.
#[verifier::external_body]
fn is_visited(map: &FixedBitSet, node: usize) -> (seen: bool)
    requires
        node <= GRAPH_LIMIT,
    ensures
        seen == marked(*map).contains(node as int),
{
    map.is_visited(&NodeIndex::<u32>::new(node))
}

/// What a scan holds between two of its steps, as plain values.
struct Scan {
    /// The nodes marked so far.
    seen: Set<int>,
    /// The nodes that wait for their turn, each with its hop distance.
    queue: Seq<(usize, usize)>,
    /// The hop distances listed so far.
    found: Seq<usize>,
    /// The hop distance of the node whose turn came last.
    depth: int,
    /// The number of nodes whose turn has come.
    turns: int,
}

/// `node` waits in `queue`.
spec fn waits(queue: Seq<(usize, usize)>, node: int) -> bool {
    exists|i: int| 0 <= i < queue.len() && (#[trigger] queue[i]).0 == node
}

/// Every node that an edge joins to `node` is in `seen`.
spec fn settled(nodes: int, edges: Seq<(int, int)>, seen: Set<int>, node: int) -> bool {
    forall|other: int| #[trigger]
        linked(edges, node, other) && 0 <= other < nodes ==> seen.contains(other)
}

/// The hop distance of `node` from `source` is `bound` at most.
spec fn within(
    nodes: int,
    edges: Seq<(int, int)>,
    source: int,
    node: int,
    bound: int,
) -> bool {
    exists|hops: int| hops <= bound && #[trigger] at_distance(nodes, edges, source, node, hops)
}

/// The invariant of a scan from `source`. While the neighbours of a node are
/// being looked at, that node is `busy`; between two nodes `busy` is -1.
spec fn scanning(
    nodes: int,
    edges: Seq<(int, int)>,
    source: int,
    scan: Scan,
    busy: int,
) -> bool {
    &&& scan.seen.finite()
    &&& scan.seen.contains(source)
    &&& forall|node: int| #[trigger] scan.seen.contains(node) ==> 0 <= node < nodes
    &&& forall|i: int|
        0 <= i < scan.queue.len() ==> {
            &&& scan.seen.contains((#[trigger] scan.queue[i]).0 as int)
            &&& at_distance(nodes, edges, source, scan.queue[i].0 as int, scan.queue[i].1 as int)
            &&& scan.depth <= scan.queue[i].1 <= scan.depth + 1
        }
    &&& forall|i: int, j: int|
        0 <= i <= j < scan.queue.len() ==> (#[trigger] scan.queue[i]).1 <= (
        #[trigger] scan.queue[j]).1
    &&& forall|node: int| #[trigger]
        scan.seen.contains(node) ==> node == busy || waits(scan.queue, node) || settled(
            nodes,
            edges,
            scan.seen,
            node,
        )
    &&& forall|node: int, hops: int| #[trigger]
        at_distance(nodes, edges, source, node, hops) && hops <= scan.depth
            ==> scan.seen.contains(node)
    &&& forall|node: int| #[trigger]
        scan.seen.contains(node) ==> within(nodes, edges, source, node, scan.depth + 1)
    &&& forall|node: int|
        scan.seen.contains(node) && #[trigger] at_distance(
            nodes,
            edges,
            source,
            node,
            scan.depth + 1,
        ) ==> waits(scan.queue, node)
    &&& ints(scan.found) == distances_up_to(nodes, edges, source, scan.depth) + Seq::new(
        scan.seen.intersect(level(nodes, edges, source, scan.depth + 1)).len(),
        |i: int| scan.depth + 1,
    )
    &&& 0 <= scan.depth <= scan.turns
    &&& scan.turns + scan.queue.len() == scan.seen.len()
}

/// A set of nodes of the graph has no more elements than the graph has nodes.
proof fn lemma_seen_bounded(nodes: int, seen: Set<int>)
    requires
        0 <= nodes,
        forall|node: int| #[trigger] seen.contains(node) ==> 0 <= node < nodes,
    ensures
        seen.finite(),
        seen.len() <= nodes,
{
    let all = vstd::set_lib::set_int_range(0, nodes);
    vstd::set_lib::lemma_int_range(0, nodes);
    vstd::set_lib::lemma_len_subset(seen, all);
}

/// A scan starts with its source marked and waiting, at hop distance zero.
proof fn lemma_scan_starts(nodes: int, edges: Seq<(int, int)>, source: usize)
    requires
        0 <= source < nodes,
    ensures
        scanning(
            nodes,
            edges,
            source as int,
            Scan {
                seen: Set::<int>::empty().insert(source as int),
                queue: Seq::<(usize, usize)>::empty().push((source, 0usize)),
                found: Seq::<usize>::empty(),
                depth: 0,
                turns: 0,
            },
            -1,
        ),
{
    let from = source as int;
    let scan = Scan {
        seen: Set::<int>::empty().insert(from),
        queue: Seq::<(usize, usize)>::empty().push((source, 0usize)),
        found: Seq::<usize>::empty(),
        depth: 0,
        turns: 0,
    };
    lemma_distance_zero(nodes, edges, from, from);
    assert(scan.queue[0].0 == from);
    assert forall|node: int, hops: int| #[trigger]
        at_distance(nodes, edges, from, node, hops) && hops <= 0 implies scan.seen.contains(
        node,
    ) by {
        lemma_reach_is_natural(nodes, edges, from, node, hops);
        lemma_distance_zero(nodes, edges, from, node);
    }
    assert(within(nodes, edges, from, from, 1));
    assert(scan.seen.intersect(level(nodes, edges, from, 1)) =~= Set::<int>::empty());
    assert(ints(scan.found) =~= distances_up_to(nodes, edges, from, 0) + Seq::new(
        0,
        |i: int| 1int,
    ));
}

/// The turn of the first node in the queue comes: it leaves the queue and is
/// busy, and its hop distance is the depth from here on.
proof fn lemma_scan_takes(nodes: int, edges: Seq<(int, int)>, source: int, scan: Scan)
    requires
        scanning(nodes, edges, source, scan, -1),
        scan.queue.len() > 0,
    ensures
        scanning(
            nodes,
            edges,
            source,
            Scan {
                seen: scan.seen,
                queue: scan.queue.subrange(1, scan.queue.len() as int),
                found: scan.found,
                depth: scan.queue[0].1 as int,
                turns: scan.turns + 1,
            },
            scan.queue[0].0 as int,
        ),
        at_distance(nodes, edges, source, scan.queue[0].0 as int, scan.queue[0].1 as int),
        scan.seen.contains(scan.queue[0].0 as int),
{
    let node = scan.queue[0].0 as int;
    let hops = scan.queue[0].1 as int;
    let rest = scan.queue.subrange(1, scan.queue.len() as int);
    let next = Scan {
        seen: scan.seen,
        queue: rest,
        found: scan.found,
        depth: hops,
        turns: scan.turns + 1,
    };
    assert forall|i: int| 0 <= i < rest.len() implies {
        &&& next.seen.contains((#[trigger] rest[i]).0 as int)
        &&& at_distance(nodes, edges, source, rest[i].0 as int, rest[i].1 as int)
        &&& hops <= rest[i].1 <= hops + 1
    } by {
        assert(rest[i] == scan.queue[i + 1]);
    }
    assert forall|i: int, j: int| 0 <= i <= j < rest.len() implies (#[trigger] rest[i]).1 <= (
    #[trigger] rest[j]).1 by {
        assert(rest[i] == scan.queue[i + 1]);
        assert(rest[j] == scan.queue[j + 1]);
    }
    // A node that waited behind the first one still waits.
    assert forall|other: int| other != node && waits(scan.queue, other) implies waits(
        rest,
        other,
    ) by {
        let i = choose|i: int| 0 <= i < scan.queue.len() && (#[trigger] scan.queue[i]).0 == other;
        assert(rest[i - 1] == scan.queue[i]);
    }
    if hops == scan.depth + 1 {
        // The depth grows by one: every node one level down is marked by now,
        // since the nodes of this level are all settled.
        assert forall|far: int, d: int| #[trigger]
            at_distance(nodes, edges, source, far, d) && d <= hops implies scan.seen.contains(
            far,
        ) by {
            if d == hops {
                let via = lemma_predecessor(nodes, edges, source, far, d);
                assert(scan.seen.contains(via));
                if waits(scan.queue, via) {
                    let i = choose|i: int|
                        0 <= i < scan.queue.len() && (#[trigger] scan.queue[i]).0 == via;
                    assert(scan.queue[0].1 <= scan.queue[i].1);
                }
                assert(settled(nodes, edges, scan.seen, via));
                lemma_reach_is_natural(nodes, edges, source, far, d);
            }
        }
        assert(scan.seen.intersect(level(nodes, edges, source, hops)) =~= level(
            nodes,
            edges,
            source,
            hops,
        ));
        assert forall|other: int| scan.seen.contains(other) implies !at_distance(
            nodes,
            edges,
            source,
            other,
            hops + 1,
        ) by {
            assert(within(nodes, edges, source, other, hops));
        }
        assert(scan.seen.intersect(level(nodes, edges, source, hops + 1)) =~= Set::<int>::empty());
        assert(ints(next.found) =~= distances_up_to(nodes, edges, source, hops) + Seq::new(
            0,
            |i: int| hops + 1,
        ));
        assert forall|other: int| #[trigger] next.seen.contains(other) implies within(
            nodes,
            edges,
            source,
            other,
            hops + 1,
        ) by {
            assert(within(nodes, edges, source, other, hops));
            let d = choose|d: int|
                d <= hops && #[trigger] at_distance(nodes, edges, source, other, d);
            assert(at_distance(nodes, edges, source, other, d));
        }
    } else {
        assert(hops == scan.depth);
    }
    assert(scanning(nodes, edges, source, next, node));
}

/// While `busy` has its turn, an unmarked neighbour `fresh` of it is marked,
/// queued and listed, one level below `busy`.
proof fn lemma_scan_marks(
    nodes: int,
    edges: Seq<(int, int)>,
    source: int,
    scan: Scan,
    busy: int,
    fresh: usize,
)
    requires
        scanning(nodes, edges, source, scan, busy),
        at_distance(nodes, edges, source, busy, scan.depth),
        linked(edges, busy, fresh as int),
        0 <= fresh < nodes,
        !scan.seen.contains(fresh as int),
        nodes <= usize::MAX,
    ensures
        scan.depth + 1 <= usize::MAX,
        scan.depth + 1 <= nodes,
        scanning(
            nodes,
            edges,
            source,
            Scan {
                seen: scan.seen.insert(fresh as int),
                queue: scan.queue.push((fresh, (scan.depth + 1) as usize)),
                found: scan.found.push((scan.depth + 1) as usize),
                depth: scan.depth,
                turns: scan.turns,
            },
            busy,
        ),
{
    let below = scan.depth + 1;
    let seen = scan.seen.insert(fresh as int);
    lemma_seen_bounded(nodes, seen);
    let queue = scan.queue.push((fresh, below as usize));
    let found = scan.found.push(below as usize);
    let next = Scan { seen, queue, found, depth: scan.depth, turns: scan.turns };
    let hops = lemma_neighbour_distance(nodes, edges, source, busy, fresh as int, scan.depth);
    assert(hops == below);
    assert(queue[queue.len() - 1].0 == fresh);
    assert forall|i: int| 0 <= i < queue.len() implies {
        &&& seen.contains((#[trigger] queue[i]).0 as int)
        &&& at_distance(nodes, edges, source, queue[i].0 as int, queue[i].1 as int)
        &&& scan.depth <= queue[i].1 <= scan.depth + 1
    } by {
        if i < scan.queue.len() {
            assert(queue[i] == scan.queue[i]);
        }
    }
    assert forall|i: int, j: int| 0 <= i <= j < queue.len() implies (#[trigger] queue[i]).1 <= (
    #[trigger] queue[j]).1 by {
        if j < scan.queue.len() {
            assert(queue[i] == scan.queue[i]);
            assert(queue[j] == scan.queue[j]);
        } else if i < scan.queue.len() {
            assert(queue[i] == scan.queue[i]);
        }
    }
    assert forall|other: int| waits(scan.queue, other) implies waits(queue, other) by {
        let i = choose|i: int| 0 <= i < scan.queue.len() && (#[trigger] scan.queue[i]).0 == other;
        assert(queue[i] == scan.queue[i]);
    }
    assert(waits(queue, fresh as int));
    assert forall|other: int| #[trigger] seen.contains(other) implies within(
        nodes,
        edges,
        source,
        other,
        below,
    ) by {
        if other != fresh {
            assert(scan.seen.contains(other));
        }
    }
    assert forall|other: int| #[trigger] seen.contains(other) implies other == busy || waits(
        queue,
        other,
    ) || settled(nodes, edges, seen, other) by {
        if other != fresh {
            assert(scan.seen.contains(other));
        }
    }
    let level_below = level(nodes, edges, source, below);
    let met = scan.seen.intersect(level_below);
    assert(seen.intersect(level_below) =~= met.insert(fresh as int));
    assert(seen.len() == scan.seen.len() + 1);
    assert(below <= nodes);
    assert(seen.intersect(level_below).len() == met.len() + 1);
    assert(ints(found) =~= ints(scan.found).push(below));
    assert(ints(found) =~= distances_up_to(nodes, edges, source, scan.depth) + Seq::new(
        seen.intersect(level_below).len(),
        |i: int| below,
    ));
    assert(scanning(nodes, edges, source, next, busy));
}

/// Once every neighbour of the busy node is marked, its turn is over.
proof fn lemma_scan_settles(
    nodes: int,
    edges: Seq<(int, int)>,
    source: int,
    scan: Scan,
    busy: int,
    list: Seq<usize>,
)
    requires
        scanning(nodes, edges, source, scan, busy),
        ints(list) == neighbour_list(edges, busy),
        forall|i: int| 0 <= i < list.len() ==> scan.seen.contains(#[trigger] list[i] as int),
    ensures
        scanning(nodes, edges, source, scan, -1),
{
    assert forall|other: int| #[trigger]
        linked(edges, busy, other) && 0 <= other < nodes implies scan.seen.contains(other) by {
        lemma_neighbour_list_is_linked(edges, busy, other);
        let i = choose|i: int| 0 <= i < ints(list).len() && ints(list)[i] == other;
        assert(list[i] as int == other);
    }
    assert(settled(nodes, edges, scan.seen, busy));
}

/// When no node waits any more, the scan has listed the hop distance of
/// every node that a walk reaches.
proof fn lemma_scan_ends(nodes: int, edges: Seq<(int, int)>, source: int, scan: Scan)
    requires
        scanning(nodes, edges, source, scan, -1),
        scan.queue.len() == 0,
    ensures
        ints(scan.found) == distances_from(nodes, edges, source),
{
    lemma_seen_bounded(nodes, scan.seen);
    assert forall|u: int, v: int|
        scan.seen.contains(u) && linked(edges, u, v) && 0 <= v < nodes implies scan.seen.contains(
        v,
    ) by {
        assert(!waits(scan.queue, u));
        assert(settled(nodes, edges, scan.seen, u));
    }
    assert forall|hops: int| scan.depth < hops implies level(nodes, edges, source, hops)
        =~= Set::<int>::empty() by {
        assert forall|node: int| !level(nodes, edges, source, hops).contains(node) by {
            if at_distance(nodes, edges, source, node, hops) {
                lemma_closed_set_holds_reach(nodes, edges, source, scan.seen, node, hops);
                assert(within(nodes, edges, source, node, scan.depth + 1));
                assert(waits(scan.queue, node));
            }
        }
    }
    let below = level(nodes, edges, source, scan.depth + 1);
    assert(scan.seen.intersect(below) =~= Set::<int>::empty());
    assert(ints(scan.found) =~= distances_up_to(nodes, edges, source, scan.depth));
    lemma_no_further_runs(nodes, edges, source, scan.depth, nodes);
}

/// Lists the hop distance from `start` to every other node that a walk from
/// `start` reaches: a breadth-first traversal, which marks each node when it
/// first meets it and lists one more hop than the node it came from has.
///
/// The list is ascending, one entry for each node reached; a node of another
/// component does not occur. `start` is a node of the graph.
pub fn compute_distances(graph: &UnGraph<String, ()>, start: usize) -> (distances: Vec<usize>)
    requires
        start < graph_labels(*graph).len(),
    ensures
        ints(distances@) == distances_from(
            graph_labels(*graph).len() as int,
            graph_edges(*graph),
            start as int,
        ),
{
    let ghost nodes = graph_labels(*graph).len() as int;
    let ghost edges = graph_edges(*graph);
    let ghost source = start as int;
    let mut visited = visit_map(graph);
    let mut queue: VecDeque<(usize, usize)> = VecDeque::new();
    visit(&mut visited, start);
    queue.push_back((start, 0));
    let mut distances: Vec<usize> = Vec::new();
    let ghost mut depth: int = 0;
    let ghost mut turns: int = 0;
    proof {
        lemma_scan_starts(nodes, edges, start);
    }
    while queue.len() > 0
        invariant
            nodes == graph_labels(*graph).len(),
            edges == graph_edges(*graph),
            source == start,
            map_span(visited) == nodes,
            nodes <= GRAPH_LIMIT,
            scanning(
                nodes,
                edges,
                source,
                Scan { seen: marked(visited), queue: queue@, found: distances@, depth, turns },
                -1,
            ),
        decreases nodes - turns,
    {
        proof {
            let scan = Scan {
                seen: marked(visited),
                queue: queue@,
                found: distances@,
                depth,
                turns,
            };
            lemma_scan_takes(nodes, edges, source, scan);
            lemma_seen_bounded(nodes, scan.seen);
            depth = queue@[0].1 as int;
            turns = turns + 1;
        }
        let (node, dist) = queue.pop_front().unwrap();
        let list = neighbors(graph, node);
        let mut k: usize = 0;
        while k < list.len()
            invariant
                nodes == graph_labels(*graph).len(),
                edges == graph_edges(*graph),
                source == start,
                map_span(visited) == nodes,
                nodes <= GRAPH_LIMIT,
                depth == dist,
                turns <= nodes,
                at_distance(nodes, edges, source, node as int, depth),
                ints(list@) == neighbour_list(edges, node as int),
                forall|i: int| 0 <= i < list@.len() ==> list@[i] < nodes,
                0 <= k <= list.len(),
                forall|i: int| 0 <= i < k ==> marked(visited).contains(#[trigger] list@[i] as int),
                scanning(
                    nodes,
                    edges,
                    source,
                    Scan { seen: marked(visited), queue: queue@, found: distances@, depth, turns },
                    node as int,
                ),
            decreases list.len() - k,
        {
            let other = list[k];
            if !is_visited(&visited, other) {
                proof {
                    let scan = Scan {
                        seen: marked(visited),
                        queue: queue@,
                        found: distances@,
                        depth,
                        turns,
                    };
                    assert(ints(list@)[k as int] == other);
                    lemma_neighbour_list_is_linked(edges, node as int, other as int);
                    lemma_scan_marks(nodes, edges, source, scan, node as int, other);
                }
                visit(&mut visited, other);
                queue.push_back((other, dist + 1));
                distances.push(dist + 1);
            }
            k += 1;
        }
        proof {
            let scan = Scan {
                seen: marked(visited),
                queue: queue@,
                found: distances@,
                depth,
                turns,
            };
            lemma_scan_settles(nodes, edges, source, scan, node as int, list@);
        }
    }
    proof {
        let scan = Scan { seen: marked(visited), queue: queue@, found: distances@, depth, turns };
        lemma_scan_ends(nodes, edges, source, scan);
    }
    distances
}

/// What [`compute_distances`] lists from `start`, or nothing where `start`
/// is no node of `graph`.
pub fn try_compute_distances(graph: &UnGraph<String, ()>, start: usize) -> (distances: Option<
    Vec<usize>,
>)
    ensures
        distances is Some <==> start < graph_labels(*graph).len(),
        distances matches Some(found) ==> ints(found@) == distances_from(
            graph_labels(*graph).len() as int,
            graph_edges(*graph),
            start as int,
        ),
{
    if start < node_indices(graph).len() {
        Some(compute_distances(graph, start))
    } else {
        None
    }
}

} // verus!
