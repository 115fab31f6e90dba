//! The graph builder: from a list of lines to the graph of their records.
//!
//! Each line gives one record, and each record one edge between the nodes of
//! its two labels. A label gets its node where it is first read.

use crate::error::GraphError;
use crate::record::first_field;
use crate::record::has_two_fields;
use crate::record::parse_record;
use crate::record::second_field;
use crate::store::graph_edges;
use crate::store::graph_labels;
use crate::store::texts;
use crate::store::with_label;
use crate::store::GraphStore;
use crate::store::GRAPH_LIMIT;
use petgraph::graph::UnGraph;
use vstd::prelude::*;

verus! {

/// The position of the first malformed line of `lines` at or after `from`,
/// or the length of `lines` where none follows.
pub open spec fn malformed_from(lines: Seq<Seq<char>>, from: int) -> int
    decreases lines.len() - from,
{
    if from >= lines.len() {
        lines.len() as int
    } else if !has_two_fields(lines[from]) {
        from
    } else {
        malformed_from(lines, from + 1)
    }
}

/// The labels of `lines` in the order in which they are read: of each line
/// its first field and its second field.
pub open spec fn labels_read(lines: Seq<Seq<char>>) -> Seq<Seq<char>>
    decreases lines.len(),
{
    if lines.len() == 0 {
        Seq::empty()
    } else {
        labels_read(lines.drop_last()).push(first_field(lines.last())).push(
            second_field(lines.last()),
        )
    }
}

/// `list` without its repetitions: each label once, where it first occurs.
pub open spec fn distinct(list: Seq<Seq<char>>) -> Seq<Seq<char>>
    decreases list.len(),
{
    if list.len() == 0 {
        Seq::empty()
    } else {
        with_label(distinct(list.drop_last()), list.last())
    }
}

/// The labels of the nodes of the graph of `lines`, by node index.
pub open spec fn node_labels(lines: Seq<Seq<char>>) -> Seq<Seq<char>> {
    distinct(labels_read(lines))
}

/// For each line of `lines` the positions of its two labels in `labels`.
pub open spec fn edges_between(labels: Seq<Seq<char>>, lines: Seq<Seq<char>>) -> Seq<(int, int)> {
    Seq::new(
        lines.len(),
        |i: int| (labels.index_of(first_field(lines[i])), labels.index_of(second_field(lines[i]))),
    )
}

/// The edges of the graph of `lines`: one for each line, between the nodes
/// of its two labels.
pub open spec fn edges_read(lines: Seq<Seq<char>>) -> Seq<(int, int)> {
    edges_between(node_labels(lines), lines)
}

/// The lines before the first malformed one give a graph that `petgraph`
/// has room for.
pub open spec fn fits(lines: Seq<Seq<char>>) -> bool {
    let good = lines.take(malformed_from(lines, 0));
    good.len() <= GRAPH_LIMIT && node_labels(good).len() <= GRAPH_LIMIT
}

/// `short` is the beginning of `long`.
pub open spec fn begins(short: Seq<Seq<char>>, long: Seq<Seq<char>>) -> bool {
    short.len() <= long.len() && forall|i: int| 0 <= i < short.len() ==> short[i] == long[i]
}

/// Where all lines from `from` up to `at` are well-formed, and the line at
/// `at` is malformed or `at` is the end, the first malformed line at or after
/// `from` is at `at`.
pub proof fn lemma_malformed_found(lines: Seq<Seq<char>>, from: int, at: int)
    requires
        0 <= from <= at <= lines.len(),
        forall|i: int| from <= i < at ==> has_two_fields(lines[i]),
        at == lines.len() || !has_two_fields(lines[at]),
    ensures
        malformed_from(lines, from) == at,
    decreases at - from,
{
    if from < at {
        lemma_malformed_found(lines, from + 1, at);
    }
}

/// One more line gives the node labels two more labels to take up.
pub proof fn lemma_node_labels_grow(lines: Seq<Seq<char>>, count: int)
    requires
        0 <= count < lines.len(),
    ensures
        node_labels(lines.take(count + 1)) == with_label(
            with_label(node_labels(lines.take(count)), first_field(lines[count])),
            second_field(lines[count]),
        ),
{
    let more = lines.take(count + 1);
    assert(more.drop_last() =~= lines.take(count));
    let read = labels_read(lines.take(count));
    let one = read.push(first_field(lines[count]));
    let two = one.push(second_field(lines[count]));
    assert(more.last() == lines[count]);
    assert(labels_read(more) == two);
    assert(two.drop_last() =~= one);
    assert(one.drop_last() =~= read);
    assert(distinct(one) == with_label(distinct(read), first_field(lines[count])));
    assert(distinct(two) == with_label(distinct(one), second_field(lines[count])));
}

/// The node labels of the first lines are the beginning of the node labels
/// of more lines.
pub proof fn lemma_node_labels_begin(lines: Seq<Seq<char>>, fewer: int, more: int)
    requires
        0 <= fewer <= more <= lines.len(),
    ensures
        begins(node_labels(lines.take(fewer)), node_labels(lines.take(more))),
    decreases more - fewer,
{
    if fewer < more {
        lemma_node_labels_begin(lines, fewer, more - 1);
        lemma_node_labels_grow(lines, more - 1);
    }
}

/// The first malformed line at or after `from` is malformed unless it is the
/// end, and the lines before it are well-formed.
pub proof fn lemma_malformed_from(lines: Seq<Seq<char>>, from: int)
    requires
        0 <= from <= lines.len(),
    ensures
        from <= malformed_from(lines, from) <= lines.len(),
        malformed_from(lines, from) < lines.len() ==> !has_two_fields(
            lines[malformed_from(lines, from)],
        ),
        forall|i: int| from <= i < malformed_from(lines, from) ==> has_two_fields(lines[i]),
    decreases lines.len() - from,
{
    if from < lines.len() && has_two_fields(lines[from]) {
        lemma_malformed_from(lines, from + 1);
    }
}

/// A list without its repetitions holds just the labels that the list holds.
pub proof fn lemma_distinct_holds(list: Seq<Seq<char>>, label: Seq<char>)
    ensures
        distinct(list).contains(label) <==> list.contains(label),
    decreases list.len(),
{
    if list.len() > 0 {
        let rest = list.drop_last();
        lemma_distinct_holds(rest, label);
        let before = distinct(rest);
        let after = distinct(list);
        assert(begins(before, after));
        if list.contains(label) {
            let i = choose|i: int| 0 <= i < list.len() && list[i] == label;
            if i < rest.len() {
                assert(rest[i] == label);
                let j = choose|j: int| 0 <= j < before.len() && before[j] == label;
                assert(after[j] == label);
            } else if !before.contains(label) {
                assert(after[before.len() as int] == label);
            } else {
                let j = choose|j: int| 0 <= j < before.len() && before[j] == label;
                assert(after[j] == label);
            }
        }
        if after.contains(label) {
            let j = choose|j: int| 0 <= j < after.len() && after[j] == label;
            if j < before.len() {
                assert(before[j] == label);
                let i = choose|i: int| 0 <= i < rest.len() && rest[i] == label;
                assert(list[i] == label);
            } else {
                assert(list[list.len() - 1] == label);
            }
        }
    }
}

/// A list without its repetitions holds no label twice.
pub proof fn lemma_distinct_differ(list: Seq<Seq<char>>)
    ensures
        distinct(list).no_duplicates(),
    decreases list.len(),
{
    if list.len() > 0 {
        lemma_distinct_differ(list.drop_last());
    }
}

/// A label keeps its position where a list without repetitions goes on.
pub proof fn lemma_position_stays(short: Seq<Seq<char>>, long: Seq<Seq<char>>, at: int)
    requires
        begins(short, long),
        long.no_duplicates(),
        0 <= at < short.len(),
    ensures
        long.index_of(short[at]) == at,
        short.index_of(short[at]) == at,
{
    assert(long[at] == short[at]);
    let found = long.index_of(short[at]);
    assert(0 <= found < long.len() && long[found] == short[at]);
    let here = short.index_of(short[at]);
    assert(0 <= here < short.len() && short[here] == short[at]);
    assert(long[here] == short[here]);
}

/// Every edge of the graph of `lines` joins two of its nodes, and these
/// carry the two labels of the line of the edge.
pub proof fn lemma_edges_join_nodes(lines: Seq<Seq<char>>, at: int)
    requires
        0 <= at < lines.len(),
    ensures
        0 <= edges_read(lines)[at].0 < node_labels(lines).len(),
        0 <= edges_read(lines)[at].1 < node_labels(lines).len(),
        node_labels(lines)[edges_read(lines)[at].0] == first_field(lines[at]),
        node_labels(lines)[edges_read(lines)[at].1] == second_field(lines[at]),
{
    assert(lines.take(at + 1).drop_last() =~= lines.take(at));
    let some = labels_read(lines.take(at + 1));
    assert(some[some.len() - 2] == first_field(lines[at]));
    assert(some[some.len() - 1] == second_field(lines[at]));
    lemma_distinct_holds(some, first_field(lines[at]));
    lemma_distinct_holds(some, second_field(lines[at]));
    assert(lines.take(lines.len() as int) =~= lines);
    lemma_node_labels_begin(lines, at + 1, lines.len() as int);
    let few = node_labels(lines.take(at + 1));
    let head = choose|head: int| 0 <= head < few.len() && few[head] == first_field(lines[at]);
    let tail = choose|tail: int| 0 <= tail < few.len() && few[tail] == second_field(lines[at]);
    assert(node_labels(lines)[head] == first_field(lines[at]));
    assert(node_labels(lines)[tail] == second_field(lines[at]));
}

/// One more line gives one more edge, between the nodes of its two labels,
/// and leaves the edges of the lines before it as they are.
pub proof fn lemma_edges_grow(lines: Seq<Seq<char>>, count: int)
    requires
        0 <= count < lines.len(),
    ensures
        edges_read(lines.take(count + 1)) == edges_read(lines.take(count)).push(
            (
                node_labels(lines.take(count + 1)).index_of(first_field(lines[count])),
                node_labels(lines.take(count + 1)).index_of(second_field(lines[count])),
            ),
        ),
{
    let fewer = lines.take(count);
    let more = lines.take(count + 1);
    assert(more.take(count) =~= fewer);
    assert(more.take(count + 1) =~= more);
    assert(fewer.take(count) =~= fewer);
    lemma_node_labels_begin(more, count, count + 1);
    lemma_distinct_differ(labels_read(more));
    let grown = edges_read(fewer).push(
        (
            node_labels(more).index_of(first_field(lines[count])),
            node_labels(more).index_of(second_field(lines[count])),
        ),
    );
    assert forall|k: int| 0 <= k < more.len() implies edges_read(more)[k] == grown[k] by {
        if k < count {
            assert(more[k] == fewer[k]);
            lemma_edges_join_nodes(fewer, k);
            lemma_position_stays(node_labels(fewer), node_labels(more), edges_read(fewer)[k].0);
            lemma_position_stays(node_labels(fewer), node_labels(more), edges_read(fewer)[k].1);
        }
    }
    assert(edges_read(more) =~= grown);
}

/// The node labels are no more than the labels that are read: two a line.
pub proof fn lemma_node_labels_bounded(lines: Seq<Seq<char>>)
    ensures
        node_labels(lines).len() <= 2 * lines.len(),
    decreases lines.len(),
{
    if lines.len() > 0 {
        lemma_node_labels_bounded(lines.drop_last());
        assert(lines.take(lines.len() - 1) =~= lines.drop_last());
        assert(lines.take(lines.len() as int) =~= lines);
        lemma_node_labels_grow(lines, lines.len() - 1);
    }
}

/// A list of lines fits where twice their number is within the limit.
pub proof fn lemma_short_list_fits(lines: Seq<Seq<char>>)
    requires
        2 * lines.len() <= GRAPH_LIMIT,
    ensures
        fits(lines),
{
    lemma_malformed_from(lines, 0);
    lemma_node_labels_bounded(lines.take(malformed_from(lines, 0)));
}

/// The graph of the records of `lines`: a node for each label, an edge for
/// each line. A line without a comma is malformed: the first such line is
/// reported and no graph comes about.
pub fn file_graph(lines: &Vec<String>) -> (result: Result<UnGraph<String, ()>, GraphError>)
    requires
        fits(texts(lines@)),
    ensures
        match result {
            Ok(graph) => {
                &&& malformed_from(texts(lines@), 0) == lines@.len()
                &&& graph_labels(graph) == node_labels(texts(lines@))
                &&& graph_edges(graph) == edges_read(texts(lines@))
            },
            Err(GraphError::MalformedRecord { line }) => {
                &&& line < lines@.len()
                &&& line == malformed_from(texts(lines@), 0)
            },
        },
{
    let ghost read = texts(lines@);
    let ghost good = malformed_from(read, 0);
    let mut store = GraphStore::new();
    let mut i: usize = 0;
    proof {
        assert(read.take(0) =~= Seq::<Seq<char>>::empty());
        assert(store.edges() =~= edges_read(read.take(0)));
    }
    while i < lines.len()
        invariant
            read == texts(lines@),
            good == malformed_from(read, 0),
            fits(read),
            0 <= i <= lines@.len(),
            forall|k: int| 0 <= k < i ==> has_two_fields(read[k]),
            store.wf(),
            store.labels() == node_labels(read.take(i as int)),
            store.edges() == edges_read(read.take(i as int)),
        decreases lines@.len() - i,
    {
        assert(read[i as int] == lines@[i as int]@);
        match parse_record(lines[i].as_str()) {
            None => {
                proof {
                    lemma_malformed_found(read, 0, i as int);
                }
                return Err(GraphError::MalformedRecord { line: i });
            },
            Some((first, second)) => {
                proof {
                    // The line stands before the first malformed one, and
                    // what the lines before that one give fits.
                    lemma_malformed_from(read, 0);
                    assert(read.take(good).take(i as int + 1) =~= read.take(i as int + 1));
                    assert(read.take(good).take(good) =~= read.take(good));
                    lemma_node_labels_begin(read.take(good), i as int + 1, good);
                    lemma_node_labels_grow(read, i as int);
                }
                let a = store.add_node(first);
                let ghost between = store.labels();
                let b = store.add_node(second);
                store.add_edge(a, b);
                proof {
                    store.lemma_labels_differ();
                    lemma_position_stays(between, store.labels(), a as int);
                    lemma_position_stays(store.labels(), store.labels(), b as int);
                    lemma_edges_grow(read, i as int);
                }
            },
        }
        i += 1;
    }
    proof {
        assert(read.take(lines@.len() as int) =~= read);
        lemma_malformed_found(read, 0, lines@.len() as int);
    }
    Ok(store.into_graph())
}

} // verus!
