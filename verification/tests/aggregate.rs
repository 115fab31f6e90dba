use graph_distances::builder::file_graph;
use graph_distances::distances::collect_distances;
use graph_distances::distances::compute_average;
use graph_distances::distances::compute_maximum;
use graph_distances::distances::compute_median;
use graph_distances::distances::compute_mode;
use graph_distances::distances::GraphDistances;
use graph_distances::stats::Fraction;
use petgraph::graph::NodeIndex;
use petgraph::graph::UnGraph;

fn graph_of(nodes: usize, edges: &[(usize, usize)]) -> UnGraph<String, ()> {
    let mut graph = UnGraph::<String, ()>::new_undirected();
    for i in 0..nodes {
        graph.add_node(format!("n{}", i));
    }
    for &(a, b) in edges {
        graph.add_edge(NodeIndex::new(a), NodeIndex::new(b), ());
    }
    graph
}

fn lines(text: &[&str]) -> Vec<String> {
    text.iter().map(|line| line.to_string()).collect()
}

fn value(fraction: Fraction) -> f64 {
    fraction.numerator as f64 / fraction.denominator as f64
}

#[test]
fn empty_graph_has_zero_statistics() {
    let bundle = GraphDistances::new(graph_of(0, &[])).unwrap();
    assert_eq!(value(bundle.avg_distance), 0.0);
    assert_eq!(bundle.maximum_distance, 0);
    assert_eq!(value(bundle.median_distance), 0.0);
    assert_eq!(bundle.mode_distance, 0);
    assert_eq!(bundle.graph.node_count(), 0);
}

#[test]
fn single_node_has_zero_statistics() {
    let bundle = GraphDistances::new(graph_of(1, &[])).unwrap();
    assert_eq!(bundle.avg_distance, Fraction { numerator: 0, denominator: 1 });
    assert_eq!(bundle.maximum_distance, 0);
    assert_eq!(bundle.median_distance, Fraction { numerator: 0, denominator: 1 });
    assert_eq!(bundle.mode_distance, 0);
}

#[test]
fn nodes_without_edges_have_zero_statistics() {
    let graph = graph_of(4, &[]);
    assert_eq!(collect_distances(&graph), Vec::<usize>::new());
    assert_eq!(value(compute_average(&graph)), 0.0);
    assert_eq!(compute_maximum(&graph), 0);
    assert_eq!(value(compute_median(&graph).unwrap()), 0.0);
    assert_eq!(compute_mode(&graph).unwrap(), 0);
}

#[test]
fn one_edge_gives_one_hop_from_either_side() {
    let graph = graph_of(2, &[(0, 1)]);
    assert_eq!(collect_distances(&graph), vec![1, 1]);
    let bundle = GraphDistances::new(graph).unwrap();
    assert_eq!(value(bundle.avg_distance), 1.0);
    assert_eq!(bundle.maximum_distance, 1);
    assert_eq!(value(bundle.median_distance), 1.0);
    assert_eq!(bundle.mode_distance, 1);
}

#[test]
fn line_of_k_edges_has_maximum_k() {
    for k in 0..8usize {
        let along: Vec<(usize, usize)> = (0..k).map(|i| (i, i + 1)).collect();
        let graph = graph_of(k + 1, &along);
        assert_eq!(compute_maximum(&graph), k);
        let all = collect_distances(&graph);
        assert_eq!(all.len(), k * (k + 1));
        let farthest = all.iter().filter(|&&hops| hops == k && k > 0).count();
        assert_eq!(farthest, if k > 0 { 2 } else { 0 });
    }
}

#[test]
fn average_is_the_mean_of_all_entries() {
    let graph = graph_of(6, &[(0, 1), (1, 2), (2, 0), (2, 3), (4, 5)]);
    let all = collect_distances(&graph);
    let sum: usize = all.iter().sum();
    let average = compute_average(&graph);
    assert_eq!(average, Fraction { numerator: sum as u128, denominator: all.len() as u128 });
    assert!((value(average) - sum as f64 / all.len() as f64).abs() < 1e-12);
    assert_eq!(all.len(), 14);
    assert_eq!(sum, 18);
}

#[test]
fn median_does_not_depend_on_the_order_of_the_lines() {
    let one = file_graph(&lines(&["M1,A", "M1,B", "M2,B", "M2,C", "M3,C"])).unwrap();
    let other = file_graph(&lines(&["M2,C", "M3,C", "M1,B", "M1,A", "M2,B"])).unwrap();
    let third = file_graph(&lines(&["M3,C", "M2,B", "M2,C", "M1,A", "M1,B"])).unwrap();
    let median = compute_median(&one).unwrap();
    assert_eq!(median, Fraction { numerator: 4, denominator: 2 });
    assert_eq!(compute_median(&other).unwrap(), median);
    assert_eq!(compute_median(&third).unwrap(), median);
}

#[test]
fn second_run_gives_what_the_first_run_gave() {
    let graph = graph_of(5, &[(0, 1), (1, 2), (1, 3), (3, 4)]);
    assert_eq!(compute_average(&graph), compute_average(&graph));
    assert_eq!(compute_maximum(&graph), compute_maximum(&graph));
    assert_eq!(compute_median(&graph).unwrap(), compute_median(&graph).unwrap());
    assert_eq!(compute_mode(&graph).unwrap(), compute_mode(&graph).unwrap());
    assert_eq!(collect_distances(&graph), collect_distances(&graph));
    let first = GraphDistances::new(graph).unwrap();
    let second = GraphDistances::new(first.graph).unwrap();
    assert_eq!(first.avg_distance, second.avg_distance);
    assert_eq!(first.maximum_distance, second.maximum_distance);
    assert_eq!(first.median_distance, second.median_distance);
    assert_eq!(first.mode_distance, second.mode_distance);
}

#[test]
fn two_components_give_no_entry_for_a_pair_across() {
    let graph = graph_of(4, &[(0, 1), (2, 3)]);
    assert_eq!(collect_distances(&graph), vec![1, 1, 1, 1]);
    let bundle = GraphDistances::new(graph).unwrap();
    assert_eq!(value(bundle.avg_distance), 1.0);
    assert_eq!(bundle.avg_distance.denominator, 4);
    assert_eq!(bundle.maximum_distance, 1);
    assert_eq!(value(bundle.median_distance), 1.0);
    assert_eq!(bundle.mode_distance, 1);
}

#[test]
fn four_lines_give_a_path_of_five_nodes() {
    let graph = file_graph(&lines(&["M1,A", "M1,B", "M2,B", "M2,C"])).unwrap();
    assert_eq!(graph.node_count(), 5);
    let mut all = collect_distances(&graph);
    assert_eq!(all.len(), 20);
    all.sort();
    assert_eq!(all, vec![1, 1, 1, 1, 1, 1, 1, 1, 2, 2, 2, 2, 2, 2, 3, 3, 3, 3, 4, 4]);
    let bundle = GraphDistances::new(graph).unwrap();
    assert_eq!(bundle.maximum_distance, 4);
    assert_eq!(bundle.avg_distance, Fraction { numerator: 40, denominator: 20 });
    assert_eq!(value(bundle.avg_distance), 2.0);
    assert_eq!(bundle.median_distance, Fraction { numerator: 4, denominator: 2 });
    assert_eq!(value(bundle.median_distance), 2.0);
    assert_eq!(bundle.mode_distance, 1);
    assert_eq!(bundle.graph.edge_count(), 4);
}

#[test]
fn mode_of_a_tie_is_the_smaller_distance() {
    // A centre with three leaves: six entries of one hop, six of two hops.
    let graph = graph_of(4, &[(0, 1), (0, 2), (0, 3)]);
    let mut all = collect_distances(&graph);
    all.sort();
    assert_eq!(all, vec![1, 1, 1, 1, 1, 1, 2, 2, 2, 2, 2, 2]);
    assert_eq!(compute_mode(&graph).unwrap(), 1);
    assert_eq!(compute_median(&graph).unwrap(), Fraction { numerator: 3, denominator: 2 });
    assert_eq!(value(compute_median(&graph).unwrap()), 1.5);
}

#[test]
fn mode_may_be_a_distance_of_more_than_one_hop() {
    // A centre with four leaves: eight entries of one hop, twelve of two hops.
    let graph = graph_of(5, &[(0, 1), (0, 2), (0, 3), (0, 4)]);
    assert_eq!(compute_mode(&graph).unwrap(), 2);
    assert_eq!(compute_maximum(&graph), 2);
    assert_eq!(compute_average(&graph), Fraction { numerator: 32, denominator: 20 });
    assert_eq!(value(compute_median(&graph).unwrap()), 2.0);
}

#[test]
fn median_of_an_odd_number_of_entries_cannot_occur_but_an_uneven_split_can() {
    // A triangle with a tail: 0-1, 1-2, 2-0, 2-3.
    let graph = graph_of(4, &[(0, 1), (1, 2), (2, 0), (2, 3)]);
    let mut all = collect_distances(&graph);
    all.sort();
    assert_eq!(all, vec![1, 1, 1, 1, 1, 1, 1, 1, 2, 2, 2, 2]);
    assert_eq!(compute_median(&graph).unwrap(), Fraction { numerator: 2, denominator: 2 });
    assert_eq!(compute_average(&graph), Fraction { numerator: 16, denominator: 12 });
}

#[test]
fn bundle_keeps_the_graph_it_was_given() {
    let graph = file_graph(&lines(&["a,b", "b,c"])).unwrap();
    let bundle = GraphDistances::new(graph).unwrap();
    let kept: Vec<String> = bundle.graph.node_weights().cloned().collect();
    assert_eq!(kept, vec!["a", "b", "c"]);
    assert_eq!(bundle.graph.edge_count(), 2);
    assert_eq!(bundle.maximum_distance, 2);
}

/// The hop distances of all ordered pairs by another way: the shortest
/// walks are lengthened by one node after the other.
fn distances_by_table(nodes: usize, edges: &[(usize, usize)]) -> Vec<usize> {
    let far = usize::MAX / 2;
    let mut table = vec![vec![far; nodes]; nodes];
    for i in 0..nodes {
        table[i][i] = 0;
    }
    for &(a, b) in edges {
        if a != b {
            table[a][b] = 1;
            table[b][a] = 1;
        }
    }
    for via in 0..nodes {
        for from in 0..nodes {
            for to in 0..nodes {
                if table[from][via] + table[via][to] < table[from][to] {
                    table[from][to] = table[from][via] + table[via][to];
                }
            }
        }
    }
    let mut all = Vec::new();
    for from in 0..nodes {
        let mut row: Vec<usize> = (0..nodes)
            .filter(|&to| to != from && table[from][to] < far)
            .map(|to| table[from][to])
            .collect();
        row.sort();
        all.extend(row);
    }
    all
}

#[test]
fn scans_agree_with_a_table_of_shortest_walks() {
    let mut state: u64 = 0x2545_f491_4f6c_dd1d;
    let mut next = move |bound: usize| {
        state ^= state << 13;
        state ^= state >> 7;
        state ^= state << 17;
        (state % bound as u64) as usize
    };
    for round in 0..40 {
        let nodes = 1 + next(12);
        let count = next(2 * nodes);
        let edges: Vec<(usize, usize)> = (0..count).map(|_| (next(nodes), next(nodes))).collect();
        let graph = graph_of(nodes, &edges);
        let all = collect_distances(&graph);
        let expected = distances_by_table(nodes, &edges);
        assert_eq!(all, expected, "round {}", round);
        let sum: usize = expected.iter().sum();
        let average = compute_average(&graph);
        if expected.is_empty() {
            assert_eq!(average, Fraction { numerator: 0, denominator: 1 });
        } else {
            let whole = Fraction { numerator: sum as u128, denominator: expected.len() as u128 };
            assert_eq!(average, whole);
        }
        assert_eq!(compute_maximum(&graph), expected.iter().copied().max().unwrap_or(0));
    }
}
