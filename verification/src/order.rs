//! The order of the lines does not matter: two lists of the same lines give
//! graphs of one shape, and so the same hop distances.

use crate::builder::edges_read;
use crate::builder::labels_read;
use crate::builder::lemma_distinct_differ;
use crate::builder::lemma_distinct_holds;
use crate::builder::node_labels;
use crate::census::lemma_occurrences_of_first;
use crate::census::lemma_pairs_finite;
use crate::census::pairs_at;
use crate::distances::all_distances;
use crate::hops::at_distance;
use crate::hops::lemma_reach_in_zero;
use crate::hops::lemma_reach_is_natural;
use crate::hops::lemma_reach_step;
use crate::hops::lemma_reach_unstep;
use crate::hops::linked;
use crate::hops::reaches_in;
use crate::record::first_field;
use crate::record::second_field;
use vstd::prelude::*;

verus! {

/// `label` is one of the first two fields of `line`.
pub open spec fn names(line: Seq<char>, label: Seq<char>) -> bool {
    first_field(line) == label || second_field(line) == label
}

/// The node of the label that `node` carries in `from`, in a graph whose
/// nodes carry the labels `to`.
pub open spec fn renamed(from: Seq<Seq<char>>, to: Seq<Seq<char>>, node: int) -> int {
    to.index_of(from[node])
}

/// The labels that are read are those that some line names.
pub proof fn lemma_labels_read_holds(lines: Seq<Seq<char>>, label: Seq<char>)
    ensures
        labels_read(lines).contains(label) <==> exists|i: int|
            0 <= i < lines.len() && names(#[trigger] lines[i], label),
    decreases lines.len(),
{
    let read = labels_read(lines);
    if lines.len() > 0 {
        let rest = lines.drop_last();
        let before = labels_read(rest);
        lemma_labels_read_holds(rest, label);
        if read.contains(label) {
            let at = choose|at: int| 0 <= at < read.len() && read[at] == label;
            if at < before.len() {
                assert(before[at] == label);
                let i = choose|i: int| 0 <= i < rest.len() && names(#[trigger] rest[i], label);
                assert(names(lines[i], label));
            } else {
                assert(names(lines[lines.len() - 1], label));
            }
        }
        if exists|i: int| 0 <= i < lines.len() && names(#[trigger] lines[i], label) {
            let i = choose|i: int| 0 <= i < lines.len() && names(#[trigger] lines[i], label);
            if i < rest.len() {
                assert(names(rest[i], label));
                let at = choose|at: int| 0 <= at < before.len() && before[at] == label;
                assert(read[at] == label);
            } else if first_field(lines[i]) == label {
                assert(read[before.len() as int] == label);
            } else {
                assert(read[before.len() as int + 1] == label);
            }
        }
    }
}

/// Two lists of the same lines hold the same lines.
pub proof fn lemma_same_lines(first: Seq<Seq<char>>, second: Seq<Seq<char>>, line: Seq<char>)
    requires
        first.to_multiset() == second.to_multiset(),
    ensures
        first.contains(line) <==> second.contains(line),
{
    vstd::seq_lib::to_multiset_contains(first, line);
    vstd::seq_lib::to_multiset_contains(second, line);
}

/// Two lists of the same lines give the same node labels, in whatever order.
pub proof fn lemma_same_labels(first: Seq<Seq<char>>, second: Seq<Seq<char>>, label: Seq<char>)
    requires
        first.to_multiset() == second.to_multiset(),
    ensures
        node_labels(first).contains(label) <==> node_labels(second).contains(label),
{
    lemma_distinct_holds(labels_read(first), label);
    lemma_distinct_holds(labels_read(second), label);
    lemma_labels_read_holds(first, label);
    lemma_labels_read_holds(second, label);
    if exists|i: int| 0 <= i < first.len() && names(#[trigger] first[i], label) {
        let i = choose|i: int| 0 <= i < first.len() && names(#[trigger] first[i], label);
        lemma_same_lines(first, second, first[i]);
        let j = choose|j: int| 0 <= j < second.len() && second[j] == first[i];
        assert(names(second[j], label));
    }
    if exists|j: int| 0 <= j < second.len() && names(#[trigger] second[j], label) {
        let j = choose|j: int| 0 <= j < second.len() && names(#[trigger] second[j], label);
        lemma_same_lines(first, second, second[j]);
        let i = choose|i: int| 0 <= i < first.len() && first[i] == second[j];
        assert(names(first[i], label));
    }
}

/// Two lists of the same lines give graphs of equally many nodes.
pub proof fn lemma_same_node_count(first: Seq<Seq<char>>, second: Seq<Seq<char>>)
    requires
        first.to_multiset() == second.to_multiset(),
    ensures
        node_labels(first).len() == node_labels(second).len(),
{
    let one = node_labels(first);
    let other = node_labels(second);
    lemma_distinct_differ(labels_read(first));
    lemma_distinct_differ(labels_read(second));
    one.unique_seq_to_set();
    other.unique_seq_to_set();
    assert forall|label: Seq<char>| one.to_set().contains(label) <==> other.to_set().contains(
        label,
    ) by {
        lemma_same_labels(first, second, label);
    }
    assert(one.to_set() =~= other.to_set());
}

/// Renaming a node gives the node that carries the same label, and renaming
/// that node back gives the node itself.
pub proof fn lemma_renamed(first: Seq<Seq<char>>, second: Seq<Seq<char>>, node: int)
    requires
        first.to_multiset() == second.to_multiset(),
        0 <= node < node_labels(first).len(),
    ensures
        0 <= renamed(node_labels(first), node_labels(second), node) < node_labels(second).len(),
        node_labels(second)[renamed(node_labels(first), node_labels(second), node)] == node_labels(
            first,
        )[node],
        renamed(
            node_labels(second),
            node_labels(first),
            renamed(node_labels(first), node_labels(second), node),
        ) == node,
{
    let one = node_labels(first);
    let other = node_labels(second);
    assert(one.contains(one[node]));
    lemma_same_labels(first, second, one[node]);
    let there = renamed(one, other, node);
    assert(0 <= there < other.len() && other[there] == one[node]);
    lemma_distinct_differ(labels_read(first));
    let back = renamed(other, one, there);
    assert(0 <= back < one.len() && one[back] == other[there]);
}

/// Where an edge joins two nodes of the graph of the one list, an edge joins
/// the nodes of the same labels in the graph of the other list.
pub proof fn lemma_link_renamed(
    first: Seq<Seq<char>>,
    second: Seq<Seq<char>>,
    u: int,
    v: int,
)
    requires
        first.to_multiset() == second.to_multiset(),
        0 <= u < node_labels(first).len(),
        0 <= v < node_labels(first).len(),
        linked(edges_read(first), u, v),
    ensures
        linked(
            edges_read(second),
            renamed(node_labels(first), node_labels(second), u),
            renamed(node_labels(first), node_labels(second), v),
        ),
{
    let one = node_labels(first);
    let other = node_labels(second);
    let i = choose|i: int|
        0 <= i < edges_read(first).len() && (#[trigger] edges_read(first)[i] == (u, v)
            || edges_read(first)[i] == (v, u));
    let head = first_field(first[i]);
    let tail = second_field(first[i]);
    // Both labels of the line are node labels, so each stands where the
    // edge says.
    assert(names(first[i], head) && names(first[i], tail));
    lemma_labels_read_holds(first, head);
    lemma_labels_read_holds(first, tail);
    lemma_distinct_holds(labels_read(first), head);
    lemma_distinct_holds(labels_read(first), tail);
    lemma_distinct_differ(labels_read(first));
    assert(one[one.index_of(head)] == head);
    assert(one[one.index_of(tail)] == tail);
    // The same line stands in the other list and gives an edge there.
    lemma_same_lines(first, second, first[i]);
    let j = choose|j: int| 0 <= j < second.len() && second[j] == first[i];
    assert(edges_read(second)[j] == (other.index_of(head), other.index_of(tail)));
}

/// Where a walk joins two nodes of the graph of the one list, a walk of as
/// many edges joins the nodes of the same labels in the graph of the other.
pub proof fn lemma_reach_renamed(
    first: Seq<Seq<char>>,
    second: Seq<Seq<char>>,
    from: int,
    to: int,
    hops: int,
)
    requires
        first.to_multiset() == second.to_multiset(),
        reaches_in(node_labels(first).len() as int, edges_read(first), from, to, hops),
    ensures
        reaches_in(
            node_labels(second).len() as int,
            edges_read(second),
            renamed(node_labels(first), node_labels(second), from),
            renamed(node_labels(first), node_labels(second), to),
            hops,
        ),
    decreases hops,
{
    let one = node_labels(first);
    let other = node_labels(second);
    let nodes = one.len() as int;
    lemma_same_node_count(first, second);
    lemma_reach_is_natural(nodes, edges_read(first), from, to, hops);
    lemma_renamed(first, second, from);
    lemma_renamed(first, second, to);
    if hops == 0 {
        lemma_reach_in_zero(nodes, edges_read(first), from, to);
        lemma_reach_in_zero(
            nodes,
            edges_read(second),
            renamed(one, other, from),
            renamed(one, other, to),
        );
    } else {
        let via = lemma_reach_unstep(nodes, edges_read(first), from, to, hops);
        lemma_reach_renamed(first, second, from, via, hops - 1);
        lemma_link_renamed(first, second, via, to);
        lemma_reach_step(
            nodes,
            edges_read(second),
            renamed(one, other, from),
            renamed(one, other, via),
            renamed(one, other, to),
            hops - 1,
        );
    }
}

/// Two nodes of the graph of the one list are as many hops apart as the
/// nodes of the same labels in the graph of the other list.
pub proof fn lemma_distance_renamed(
    first: Seq<Seq<char>>,
    second: Seq<Seq<char>>,
    from: int,
    to: int,
    hops: int,
)
    requires
        first.to_multiset() == second.to_multiset(),
        at_distance(node_labels(first).len() as int, edges_read(first), from, to, hops),
    ensures
        at_distance(
            node_labels(second).len() as int,
            edges_read(second),
            renamed(node_labels(first), node_labels(second), from),
            renamed(node_labels(first), node_labels(second), to),
            hops,
        ),
{
    let one = node_labels(first);
    let other = node_labels(second);
    let nodes = one.len() as int;
    let there_from = renamed(one, other, from);
    let there_to = renamed(one, other, to);
    lemma_same_node_count(first, second);
    lemma_reach_is_natural(nodes, edges_read(first), from, to, hops);
    lemma_renamed(first, second, from);
    lemma_renamed(first, second, to);
    lemma_reach_renamed(first, second, from, to, hops);
    assert forall|fewer: int| fewer < hops implies !reaches_in(
        nodes,
        edges_read(second),
        there_from,
        there_to,
        fewer,
    ) by {
        if reaches_in(nodes, edges_read(second), there_from, there_to, fewer) {
            lemma_reach_renamed(second, first, there_from, there_to, fewer);
        }
    }
}

/// Two lists of the same lines give graphs with equally many pairs of nodes
/// at each hop distance.
pub proof fn lemma_same_pairs(first: Seq<Seq<char>>, second: Seq<Seq<char>>, hops: int)
    requires
        first.to_multiset() == second.to_multiset(),
    ensures
        pairs_at(
            node_labels(first).len() as int,
            edges_read(first),
            hops,
            node_labels(first).len() as int,
        ).len() == pairs_at(
            node_labels(second).len() as int,
            edges_read(second),
            hops,
            node_labels(second).len() as int,
        ).len(),
{
    let one = node_labels(first);
    let other = node_labels(second);
    let nodes = one.len() as int;
    lemma_same_node_count(first, second);
    let here = pairs_at(nodes, edges_read(first), hops, nodes);
    let there = pairs_at(nodes, edges_read(second), hops, nodes);
    let rename = |pair: (int, int)| (renamed(one, other, pair.0), renamed(one, other, pair.1));
    lemma_pairs_finite(nodes, edges_read(first), hops, nodes);
    assert forall|a: (int, int), b: (int, int)|
        here.contains(a) && here.contains(b) && #[trigger] rename(a) == #[trigger] rename(
            b,
        ) implies a == b by {
        lemma_reach_is_natural(nodes, edges_read(first), a.0, a.1, hops);
        lemma_reach_is_natural(nodes, edges_read(first), b.0, b.1, hops);
        lemma_renamed(first, second, a.0);
        lemma_renamed(first, second, a.1);
        lemma_renamed(first, second, b.0);
        lemma_renamed(first, second, b.1);
    }
    assert(vstd::relations::injective_on(rename, here));
    assert forall|pair: (int, int)| here.map(rename).contains(pair) <==> there.contains(pair) by {
        if here.map(rename).contains(pair) {
            let source = choose|source: (int, int)| here.contains(source) && rename(source) == pair;
            lemma_reach_is_natural(nodes, edges_read(first), source.0, source.1, hops);
            lemma_distance_renamed(first, second, source.0, source.1, hops);
            lemma_renamed(first, second, source.0);
        }
        if there.contains(pair) {
            lemma_reach_is_natural(nodes, edges_read(second), pair.0, pair.1, hops);
            lemma_distance_renamed(second, first, pair.0, pair.1, hops);
            lemma_renamed(second, first, pair.0);
            lemma_renamed(second, first, pair.1);
            let source = (renamed(other, one, pair.0), renamed(other, one, pair.1));
            assert(here.contains(source));
            assert(rename(source) == pair);
        }
    }
    assert(here.map(rename) =~= there);
    vstd::set_lib::lemma_map_size(here, there, rename);
}

/// The hop distances of the graph of a list of lines are, but for their
/// order, those of the graph of the same lines in any other order.
pub proof fn lemma_line_order_is_irrelevant(first: Seq<Seq<char>>, second: Seq<Seq<char>>)
    requires
        first.to_multiset() == second.to_multiset(),
    ensures
        node_labels(first).len() == node_labels(second).len(),
        all_distances(node_labels(first).len() as int, edges_read(first)).to_multiset()
            == all_distances(node_labels(second).len() as int, edges_read(second)).to_multiset(),
{
    let nodes = node_labels(first).len() as int;
    lemma_same_node_count(first, second);
    let here = all_distances(nodes, edges_read(first));
    let there = all_distances(nodes, edges_read(second));
    assert forall|hops: int| here.to_multiset().count(hops) == there.to_multiset().count(hops) by {
        lemma_occurrences_of_first(nodes, edges_read(first), nodes, hops);
        lemma_occurrences_of_first(nodes, edges_read(second), nodes, hops);
        lemma_same_pairs(first, second, hops);
    }
    assert(here.to_multiset() =~= there.to_multiset());
}

} // verus!
