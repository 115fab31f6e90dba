//! How often each hop distance occurs among the hop distances of a graph.

use crate::distances::all_distances;
use crate::distances::distances_of_first;
use crate::hops::at_distance;
use crate::hops::connected;
use crate::hops::distances_from;
use crate::hops::distances_up_to;
use crate::hops::lemma_distance_below_nodes;
use crate::hops::lemma_distance_symmetric;
use crate::hops::lemma_distance_zero;
use crate::hops::lemma_least_hops;
use crate::hops::lemma_level_bounded;
use crate::hops::lemma_reach_is_natural;
use crate::hops::level;
use crate::hops::level_run;
use crate::hops::reaches_in;
use crate::stats::ascending;
use crate::stats::lemma_occurrences_bounds;
use crate::stats::lemma_occurrences_push;
use crate::stats::occurrences;
use vstd::prelude::*;

verus! {

/// The ordered pairs of nodes at hop distance `hops` whose first node is
/// one of the first `sources` nodes.
pub open spec fn pairs_at(nodes: int, edges: Seq<(int, int)>, hops: int, sources: int) -> Set<
    (int, int),
> {
    Set::new(
        |pair: (int, int)| pair.0 < sources && at_distance(nodes, edges, pair.0, pair.1, hops),
    )
}

/// A value occurs in two lists in a row as often as in the one and in the
/// other together.
pub proof fn lemma_occurrences_concat(first: Seq<int>, second: Seq<int>, value: int)
    ensures
        occurrences(first + second, value) == occurrences(first, value) + occurrences(
            second,
            value,
        ),
{
    vstd::seq_lib::lemma_multiset_commutative(first, second);
}

/// In a list that repeats one value, that value occurs as often as the list
/// is long, and no other value occurs.
pub proof fn lemma_occurrences_repeat(count: nat, repeated: int, value: int)
    ensures
        occurrences(Seq::new(count, |i: int| repeated), value) == if value == repeated {
            count
        } else {
            0
        },
    decreases count,
{
    let list = Seq::new(count, |i: int| repeated);
    if count == 0 {
        lemma_occurrences_bounds(list, value);
    } else {
        let shorter = Seq::new((count - 1) as nat, |i: int| repeated);
        lemma_occurrences_repeat((count - 1) as nat, repeated, value);
        assert(list =~= shorter.push(repeated));
        lemma_occurrences_push(shorter, repeated, value);
    }
}

/// Among the runs up to `limit`, a hop distance from 1 to `limit` occurs
/// once for each node of its level, and nothing else occurs.
pub proof fn lemma_occurrences_up_to(
    nodes: int,
    edges: Seq<(int, int)>,
    source: int,
    limit: int,
    hops: int,
)
    requires
        0 <= limit,
    ensures
        occurrences(distances_up_to(nodes, edges, source, limit), hops) == if 1 <= hops <= limit {
            level(nodes, edges, source, hops).len()
        } else {
            0
        },
    decreases limit,
{
    if limit == 0 {
        lemma_occurrences_bounds(distances_up_to(nodes, edges, source, limit), hops);
    } else {
        lemma_occurrences_up_to(nodes, edges, source, limit - 1, hops);
        lemma_occurrences_concat(
            distances_up_to(nodes, edges, source, limit - 1),
            level_run(nodes, edges, source, limit),
            hops,
        );
        lemma_occurrences_repeat(level(nodes, edges, source, limit).len(), limit, hops);
    }
}

/// The pairs at one hop distance are finitely many.
pub proof fn lemma_pairs_finite(nodes: int, edges: Seq<(int, int)>, hops: int, sources: int)
    requires
        0 <= nodes,
    ensures
        pairs_at(nodes, edges, hops, sources).finite(),
    decreases sources, 1int,
{
    let pairs = pairs_at(nodes, edges, hops, sources);
    if sources <= 0 {
        assert forall|pair: (int, int)| !pairs.contains(pair) by {
            if pairs.contains(pair) {
                lemma_reach_is_natural(nodes, edges, pair.0, pair.1, hops);
            }
        }
        assert(pairs =~= Set::<(int, int)>::empty());
    } else {
        lemma_pairs_grow(nodes, edges, hops, sources - 1);
    }
}

/// The pairs from one more source are the pairs so far and, apart from
/// them, one pair for each node of the level of that source.
pub proof fn lemma_pairs_grow(nodes: int, edges: Seq<(int, int)>, hops: int, sources: int)
    requires
        0 <= nodes,
        0 <= sources,
    ensures
        pairs_at(nodes, edges, hops, sources).finite(),
        pairs_at(nodes, edges, hops, sources + 1).finite(),
        pairs_at(nodes, edges, hops, sources + 1).len() == pairs_at(
            nodes,
            edges,
            hops,
            sources,
        ).len() + level(nodes, edges, sources, hops).len(),
    decreases sources, 2int,
{
    let before = pairs_at(nodes, edges, hops, sources);
    let after = pairs_at(nodes, edges, hops, sources + 1);
    let reached = level(nodes, edges, sources, hops);
    let pairing = |node: int| (sources, node);
    let added = reached.map(pairing);
    lemma_pairs_finite(nodes, edges, hops, sources);
    lemma_level_bounded(nodes, edges, sources, hops);
    assert(vstd::relations::injective_on(pairing, reached));
    vstd::set_lib::lemma_map_size(reached, added, pairing);
    assert forall|pair: (int, int)| after.contains(pair) <==> before.contains(pair)
        || added.contains(pair) by {
        if added.contains(pair) {
            let node = choose|node: int| reached.contains(node) && pairing(node) == pair;
            assert(pair == (sources, node));
        }
        if after.contains(pair) && !before.contains(pair) {
            assert(pair.0 == sources);
            assert(reached.contains(pair.1));
            assert(pairing(pair.1) == pair);
        }
    }
    assert(after =~= before.union(added));
    assert forall|pair: (int, int)| !(before.contains(pair) && added.contains(pair)) by {
        if added.contains(pair) {
            let node = choose|node: int| reached.contains(node) && pairing(node) == pair;
            assert(pair.0 == sources);
        }
    }
    assert(before.disjoint(added));
    vstd::set_lib::lemma_set_disjoint_lens(before, added);
}

/// Among what the scans from the first `sources` nodes list, a hop distance
/// of one or more occurs once for each pair at that distance, and nothing
/// else occurs.
pub proof fn lemma_occurrences_of_first(
    nodes: int,
    edges: Seq<(int, int)>,
    sources: int,
    hops: int,
)
    requires
        0 <= nodes,
        0 <= sources,
    ensures
        occurrences(distances_of_first(nodes, edges, sources), hops) == if 1 <= hops {
            pairs_at(nodes, edges, hops, sources).len()
        } else {
            0
        },
    decreases sources,
{
    let pairs = pairs_at(nodes, edges, hops, sources);
    lemma_pairs_finite(nodes, edges, hops, sources);
    if sources == 0 {
        lemma_occurrences_bounds(distances_of_first(nodes, edges, sources), hops);
        assert forall|pair: (int, int)| !pairs.contains(pair) by {
            if pairs.contains(pair) {
                lemma_reach_is_natural(nodes, edges, pair.0, pair.1, hops);
            }
        }
        assert(pairs =~= Set::<(int, int)>::empty());
    } else {
        lemma_occurrences_of_first(nodes, edges, sources - 1, hops);
        lemma_occurrences_concat(
            distances_of_first(nodes, edges, sources - 1),
            distances_from(nodes, edges, sources - 1),
            hops,
        );
        lemma_occurrences_up_to(nodes, edges, sources - 1, nodes, hops);
        lemma_pairs_grow(nodes, edges, hops, sources - 1);
        if hops > nodes {
            // No two nodes are that far apart.
            let source = sources - 1;
            assert forall|node: int| !at_distance(nodes, edges, source, node, hops) by {
                if at_distance(nodes, edges, source, node, hops) {
                    lemma_distance_below_nodes(nodes, edges, source, node, hops);
                }
            }
            assert(level(nodes, edges, source, hops) =~= Set::<int>::empty());
        }
    }
}

/// The pairs at one hop distance come in twos: with every pair the pair the
/// other way round, since the scans from both nodes list their distance.
pub proof fn lemma_pairs_symmetric(
    nodes: int,
    edges: Seq<(int, int)>,
    hops: int,
    from: int,
    to: int,
)
    requires
        pairs_at(nodes, edges, hops, nodes).contains((from, to)),
    ensures
        pairs_at(nodes, edges, hops, nodes).contains((to, from)),
{
    lemma_distance_symmetric(nodes, edges, from, to, hops);
    lemma_reach_is_natural(nodes, edges, from, to, hops);
}

/// A hop distance occurs among the hop distances of a graph just when it is
/// the hop distance of two distinct nodes.
pub proof fn lemma_distance_occurs(nodes: int, edges: Seq<(int, int)>, hops: int)
    requires
        0 <= nodes,
    ensures
        all_distances(nodes, edges).contains(hops) <==> 1 <= hops && exists|from: int, to: int|
            at_distance(nodes, edges, from, to, hops),
{
    let all = all_distances(nodes, edges);
    let pairs = pairs_at(nodes, edges, hops, nodes);
    lemma_occurrences_of_first(nodes, edges, nodes, hops);
    lemma_occurrences_bounds(all, hops);
    lemma_pairs_finite(nodes, edges, hops, nodes);
    if 1 <= hops {
        if pairs.len() > 0 {
            let pair = pairs.choose();
            assert(pairs.contains(pair));
            assert(at_distance(nodes, edges, pair.0, pair.1, hops));
        }
        if exists|from: int, to: int| at_distance(nodes, edges, from, to, hops) {
            let (from, to) = choose|from: int, to: int|
                at_distance(nodes, edges, from, to, hops);
            lemma_reach_is_natural(nodes, edges, from, to, hops);
            assert(pairs.contains((from, to)));
        }
    }
}

/// The runs up to `limit` are ascending, and their entries are from 1 to
/// `limit`.
pub proof fn lemma_runs_ascending(nodes: int, edges: Seq<(int, int)>, source: int, limit: int)
    requires
        0 <= limit,
    ensures
        ascending(distances_up_to(nodes, edges, source, limit)),
        forall|i: int|
            0 <= i < distances_up_to(nodes, edges, source, limit).len() ==> 1
                <= #[trigger] distances_up_to(nodes, edges, source, limit)[i] <= limit,
    decreases limit,
{
    if limit > 0 {
        lemma_runs_ascending(nodes, edges, source, limit - 1);
        let before = distances_up_to(nodes, edges, source, limit - 1);
        let after = distances_up_to(nodes, edges, source, limit);
        assert forall|i: int| 0 <= i < after.len() implies 1 <= #[trigger] after[i] <= limit by {
            if i < before.len() {
                assert(after[i] == before[i]);
            }
        }
        assert forall|i: int, j: int| 0 <= i <= j < after.len() implies after[i] <= after[j] by {
            if j < before.len() {
                assert(after[i] == before[i] && after[j] == before[j]);
            } else if i < before.len() {
                assert(after[i] == before[i]);
            }
        }
    }
}

/// What a scan lists is ascending, and every entry is one hop or more and
/// fewer hops than the graph has nodes.
pub proof fn lemma_scan_ascending(nodes: int, edges: Seq<(int, int)>, source: int)
    requires
        0 <= nodes,
    ensures
        ascending(distances_from(nodes, edges, source)),
        forall|i: int|
            0 <= i < distances_from(nodes, edges, source).len() ==> 1 <= #[trigger] distances_from(
                nodes,
                edges,
                source,
            )[i] < nodes,
{
    let found = distances_from(nodes, edges, source);
    lemma_runs_ascending(nodes, edges, source, nodes);
    assert forall|i: int| 0 <= i < found.len() implies #[trigger] found[i] < nodes by {
        if found[i] == nodes {
            // Some node would be as many hops away as there are nodes.
            assert(found.contains(found[i]));
            lemma_occurrences_bounds(found, nodes);
            lemma_occurrences_up_to(nodes, edges, source, nodes, nodes);
            lemma_level_bounded(nodes, edges, source, nodes);
            let far = level(nodes, edges, source, nodes).choose();
            assert(level(nodes, edges, source, nodes).contains(far));
            lemma_distance_below_nodes(nodes, edges, source, far, nodes);
        }
    }
}

/// The nodes other than `source` that a walk reaches from `source`.
pub open spec fn reached(nodes: int, edges: Seq<(int, int)>, source: int) -> Set<int> {
    Set::new(|node: int| node != source && connected(nodes, edges, source, node))
}

/// The nodes whose hop distance from `source` is from 1 to `limit`.
pub open spec fn near(nodes: int, edges: Seq<(int, int)>, source: int, limit: int) -> Set<int> {
    Set::new(
        |node: int|
            exists|hops: int|
                1 <= hops <= limit && #[trigger] at_distance(nodes, edges, source, node, hops),
    )
}

/// The runs up to `limit` have one entry for each node that is `limit` hops
/// or less away.
pub proof fn lemma_runs_count_near(nodes: int, edges: Seq<(int, int)>, source: int, limit: int)
    requires
        0 <= nodes,
        0 <= limit,
    ensures
        near(nodes, edges, source, limit).finite(),
        distances_up_to(nodes, edges, source, limit).len() == near(
            nodes,
            edges,
            source,
            limit,
        ).len(),
    decreases limit,
{
    let after = near(nodes, edges, source, limit);
    if limit == 0 {
        assert(after =~= Set::<int>::empty());
    } else {
        let before = near(nodes, edges, source, limit - 1);
        let added = level(nodes, edges, source, limit);
        lemma_runs_count_near(nodes, edges, source, limit - 1);
        lemma_level_bounded(nodes, edges, source, limit);
        assert forall|node: int| after.contains(node) <==> before.contains(node)
            || added.contains(node) by {
            if before.contains(node) {
                let hops = choose|hops: int|
                    1 <= hops <= limit - 1 && #[trigger] at_distance(
                        nodes,
                        edges,
                        source,
                        node,
                        hops,
                    );
                assert(at_distance(nodes, edges, source, node, hops));
            }
            if added.contains(node) {
                assert(at_distance(nodes, edges, source, node, limit));
            }
        }
        assert(after =~= before.union(added));
        assert(before.disjoint(added));
        vstd::set_lib::lemma_set_disjoint_lens(before, added);
    }
}

/// A scan lists one hop distance for each node, other than its source, that
/// a walk reaches from its source.
pub proof fn lemma_scan_counts_reached(nodes: int, edges: Seq<(int, int)>, source: int)
    requires
        0 <= nodes,
    ensures
        reached(nodes, edges, source).finite(),
        distances_from(nodes, edges, source).len() == reached(nodes, edges, source).len(),
{
    lemma_runs_count_near(nodes, edges, source, nodes);
    let close = near(nodes, edges, source, nodes);
    let all = reached(nodes, edges, source);
    assert forall|node: int| close.contains(node) <==> all.contains(node) by {
        if close.contains(node) {
            let hops = choose|hops: int|
                1 <= hops <= nodes && #[trigger] at_distance(nodes, edges, source, node, hops);
            lemma_distance_zero(nodes, edges, source, node);
        }
        if all.contains(node) {
            let far = choose|far: int| reaches_in(nodes, edges, source, node, far);
            let hops = lemma_least_hops(nodes, edges, source, node, far);
            lemma_distance_zero(nodes, edges, source, node);
            lemma_distance_below_nodes(nodes, edges, source, node, hops);
            assert(at_distance(nodes, edges, source, node, hops));
        }
    }
    assert(close =~= all);
}

/// In a graph in which a walk joins every two nodes, the scans list one hop
/// distance for every ordered pair of distinct nodes.
pub proof fn lemma_connected_graph_count(nodes: int, edges: Seq<(int, int)>)
    requires
        0 <= nodes,
        forall|from: int, to: int|
            0 <= from < nodes && 0 <= to < nodes ==> connected(nodes, edges, from, to),
    ensures
        all_distances(nodes, edges).len() == nodes * (nodes - 1),
{
    lemma_connected_count_of_first(nodes, edges, nodes);
}

/// What the scans from the first `sources` nodes of such a graph list.
proof fn lemma_connected_count_of_first(nodes: int, edges: Seq<(int, int)>, sources: int)
    requires
        0 <= sources <= nodes,
        forall|from: int, to: int|
            0 <= from < nodes && 0 <= to < nodes ==> connected(nodes, edges, from, to),
    ensures
        distances_of_first(nodes, edges, sources).len() == sources * (nodes - 1),
    decreases sources,
{
    if sources > 0 {
        let source = sources - 1;
        lemma_connected_count_of_first(nodes, edges, source);
        lemma_scan_counts_reached(nodes, edges, source);
        let others = reached(nodes, edges, source);
        let all = vstd::set_lib::set_int_range(0, nodes);
        vstd::set_lib::lemma_int_range(0, nodes);
        assert forall|node: int| others.contains(node) <==> all.remove(source).contains(node) by {
            if others.contains(node) {
                let hops = choose|hops: int| reaches_in(nodes, edges, source, node, hops);
                lemma_reach_is_natural(nodes, edges, source, node, hops);
            }
        }
        assert(others =~= all.remove(source));
        assert(sources * (nodes - 1) == source * (nodes - 1) + (nodes - 1)) by (nonlinear_arith)
            requires
                sources == source + 1,
        ;
    }
}

} // verus!
