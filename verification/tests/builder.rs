use graph_distances::builder::file_graph;
use graph_distances::error::GraphError;
use graph_distances::record::parse_record;
use graph_distances::store::GraphStore;
use petgraph::graph::NodeIndex;
use petgraph::graph::UnGraph;

fn lines(text: &[&str]) -> Vec<String> {
    text.iter().map(|line| line.to_string()).collect()
}

fn labels(graph: &UnGraph<String, ()>) -> Vec<String> {
    graph.node_weights().cloned().collect()
}

fn edges(graph: &UnGraph<String, ()>) -> Vec<(usize, usize)> {
    graph.raw_edges().iter().map(|edge| (edge.source().index(), edge.target().index())).collect()
}

#[test]
fn record_of_two_fields() {
    assert_eq!(parse_record("drama,actor"), Some(("drama".to_string(), "actor".to_string())));
}

#[test]
fn record_without_a_comma_is_malformed() {
    assert_eq!(parse_record("drama"), None);
    assert_eq!(parse_record(""), None);
}

#[test]
fn record_of_three_fields_keeps_the_first_two() {
    assert_eq!(parse_record("a,b,c"), Some(("a".to_string(), "b".to_string())));
    assert_eq!(parse_record("a,b,c,d"), Some(("a".to_string(), "b".to_string())));
}

#[test]
fn record_may_have_empty_fields() {
    assert_eq!(parse_record(","), Some((String::new(), String::new())));
    assert_eq!(parse_record("a,"), Some(("a".to_string(), String::new())));
    assert_eq!(parse_record(",b"), Some((String::new(), "b".to_string())));
    assert_eq!(parse_record(",,"), Some((String::new(), String::new())));
}

#[test]
fn record_keeps_blanks_and_letters_of_more_than_one_byte() {
    assert_eq!(parse_record(" a , b "), Some((" a ".to_string(), " b ".to_string())));
    assert_eq!(
        parse_record("사랑의 불시착,현빈"),
        Some(("사랑의 불시착".to_string(), "현빈".to_string()))
    );
    assert_eq!(parse_record("é,ü,ß"), Some(("é".to_string(), "ü".to_string())));
}

#[test]
fn store_gives_a_known_label_its_old_node() {
    let mut store = GraphStore::new();
    assert_eq!(store.add_node("a".to_string()), 0);
    assert_eq!(store.add_node("b".to_string()), 1);
    assert_eq!(store.add_node("a".to_string()), 0);
    assert_eq!(store.add_node("c".to_string()), 2);
    assert_eq!(store.add_node("b".to_string()), 1);
    assert_eq!(store.node_count(), 3);
    let graph = store.into_graph();
    assert_eq!(labels(&graph), vec!["a", "b", "c"]);
    assert_eq!(graph.edge_count(), 0);
}

#[test]
fn store_takes_loops_and_parallel_edges() {
    let mut store = GraphStore::new();
    let a = store.add_node("a".to_string());
    let b = store.add_node("b".to_string());
    store.add_edge(a, b);
    store.add_edge(b, a);
    store.add_edge(a, b);
    store.add_edge(a, a);
    let graph = store.into_graph();
    assert_eq!(edges(&graph), vec![(0, 1), (1, 0), (0, 1), (0, 0)]);
    assert_eq!(graph.node_count(), 2);
}

#[test]
fn graph_of_no_line_is_empty() {
    let graph = file_graph(&lines(&[])).unwrap();
    assert_eq!(graph.node_count(), 0);
    assert_eq!(graph.edge_count(), 0);
}

#[test]
fn graph_has_a_node_for_each_label_and_an_edge_for_each_line() {
    let graph = file_graph(&lines(&["M1,A", "M1,B", "M2,B", "M2,C"])).unwrap();
    assert_eq!(labels(&graph), vec!["M1", "A", "B", "M2", "C"]);
    assert_eq!(edges(&graph), vec![(0, 1), (0, 2), (3, 2), (3, 4)]);
    assert_eq!(graph[NodeIndex::new(3)], "M2");
}

#[test]
fn graph_keeps_an_edge_for_a_line_that_is_read_twice() {
    let graph = file_graph(&lines(&["x,y", "y,x", "x,y", "x,x"])).unwrap();
    assert_eq!(labels(&graph), vec!["x", "y"]);
    assert_eq!(edges(&graph), vec![(0, 1), (1, 0), (0, 1), (0, 0)]);
}

#[test]
fn graph_reads_two_fields_of_a_line_with_more() {
    let graph = file_graph(&lines(&["a,b,c", "b,c,a"])).unwrap();
    assert_eq!(labels(&graph), vec!["a", "b", "c"]);
    assert_eq!(edges(&graph), vec![(0, 1), (1, 2)]);
}

#[test]
fn graph_fails_on_the_first_line_without_a_comma() {
    assert_eq!(
        file_graph(&lines(&["a,b", "c", "d,e", "f"])).err(),
        Some(GraphError::MalformedRecord { line: 1 })
    );
    assert_eq!(
        file_graph(&lines(&["nothing here"])).err(),
        Some(GraphError::MalformedRecord { line: 0 })
    );
    assert_eq!(
        file_graph(&lines(&["a,b", "b,c", ""])).err(),
        Some(GraphError::MalformedRecord { line: 2 })
    );
}
