use graph_distances::scan::compute_distances;
use graph_distances::scan::try_compute_distances;
use petgraph::graph::NodeIndex;
use petgraph::graph::UnGraph;

fn graph_of(nodes: usize, edges: &[(usize, usize)]) -> UnGraph<String, ()> {
    let mut graph = UnGraph::<String, ()>::new_undirected();
    for i in 0..nodes {
        graph.add_node(format!("n{}", i));
    }
    for &(a, b) in edges {
        graph.add_edge(NodeIndex::new(a), NodeIndex::new(b), ());
    }
    graph
}

#[test]
fn scan_of_one_edge_lists_one_hop() {
    let graph = graph_of(2, &[(0, 1)]);
    assert_eq!(compute_distances(&graph, 0), vec![1]);
    assert_eq!(compute_distances(&graph, 1), vec![1]);
}

#[test]
fn scan_of_a_lone_node_lists_nothing() {
    let graph = graph_of(1, &[]);
    assert_eq!(compute_distances(&graph, 0), Vec::<usize>::new());
}

#[test]
fn scan_from_the_end_of_a_line_counts_up() {
    let graph = graph_of(5, &[(0, 1), (1, 2), (2, 3), (3, 4)]);
    assert_eq!(compute_distances(&graph, 0), vec![1, 2, 3, 4]);
    assert_eq!(compute_distances(&graph, 4), vec![1, 2, 3, 4]);
}

#[test]
fn scan_from_the_middle_of_a_line_lists_each_side() {
    let graph = graph_of(5, &[(0, 1), (1, 2), (2, 3), (3, 4)]);
    assert_eq!(compute_distances(&graph, 2), vec![1, 1, 2, 2]);
    assert_eq!(compute_distances(&graph, 1), vec![1, 1, 2, 3]);
}

#[test]
fn scan_is_ascending_whatever_the_order_of_the_edges() {
    let forward = graph_of(4, &[(0, 1), (0, 2), (2, 3)]);
    let backward = graph_of(4, &[(3, 2), (2, 0), (1, 0)]);
    assert_eq!(compute_distances(&forward, 0), vec![1, 1, 2]);
    assert_eq!(compute_distances(&backward, 0), vec![1, 1, 2]);
    assert_eq!(compute_distances(&forward, 3), vec![1, 2, 3]);
    assert_eq!(compute_distances(&backward, 3), vec![1, 2, 3]);
}

#[test]
fn scan_stays_in_its_component() {
    let graph = graph_of(4, &[(0, 1), (2, 3)]);
    assert_eq!(compute_distances(&graph, 0), vec![1]);
    assert_eq!(compute_distances(&graph, 1), vec![1]);
    assert_eq!(compute_distances(&graph, 2), vec![1]);
    assert_eq!(compute_distances(&graph, 3), vec![1]);
}

#[test]
fn scan_leaves_out_a_node_without_edges() {
    let graph = graph_of(3, &[(0, 1)]);
    assert_eq!(compute_distances(&graph, 0), vec![1]);
    assert_eq!(compute_distances(&graph, 2), Vec::<usize>::new());
}

#[test]
fn scan_counts_a_node_once_for_parallel_edges_and_loops() {
    let graph = graph_of(3, &[(0, 0), (0, 1), (1, 0), (0, 1), (1, 2), (2, 2)]);
    assert_eq!(compute_distances(&graph, 0), vec![1, 2]);
    assert_eq!(compute_distances(&graph, 1), vec![1, 1]);
}

#[test]
fn scan_takes_the_shortest_way_round_a_ring() {
    let graph = graph_of(6, &[(0, 1), (1, 2), (2, 3), (3, 4), (4, 5), (5, 0)]);
    assert_eq!(compute_distances(&graph, 0), vec![1, 1, 2, 2, 3]);
}

#[test]
fn scan_from_what_is_no_node_gives_nothing() {
    let graph = graph_of(2, &[(0, 1)]);
    assert_eq!(try_compute_distances(&graph, 0), Some(vec![1]));
    assert_eq!(try_compute_distances(&graph, 1), Some(vec![1]));
    assert_eq!(try_compute_distances(&graph, 2), None);
    assert_eq!(try_compute_distances(&graph, usize::MAX), None);
    assert_eq!(try_compute_distances(&graph_of(0, &[]), 0), None);
}
