use graph_path::builder::build_graph;
use graph_path::graph::Graph;

fn total_neighbor_entries(graph: &Graph) -> usize {
    let mut edges: usize = 0;
    for i in 0..graph.node_count() {
        edges += graph.neighbors(i).len();
    }
    edges
}

fn has_edge(graph: &Graph, a: &str, b: &str) -> bool {
    graph.contains_edge(&a.to_string(), &b.to_string()).unwrap()
}

#[test]
fn build_graph_test() {
    let input = "a b d\nb a d\nc\nd c".to_string();
    let alist: Vec<String> = input.split('\n').map(|l| l.to_string()).collect();
    let graph = build_graph(alist);

    let nodes = vec![
        "a".to_string(),
        "b".to_string(),
        "c".to_string(),
        "d".to_string(),
    ];

    for n in nodes {
        assert!(graph.contains_node(&n));
    }

    let edges = vec![
        ("a".to_string(), "b".to_string()),
        ("a".to_string(), "d".to_string()),
        ("b".to_string(), "a".to_string()),
        ("b".to_string(), "d".to_string()),
        ("d".to_string(), "c".to_string()),
    ];

    for (n1, n2) in edges {
        assert!(graph.contains_edge(&n1, &n2).unwrap());
    }
}

#[test]
fn check_num_edges() {
    let mut alist: Vec<String> = vec![];
    alist.push("a b d".to_string());
    alist.push("b a d".to_string());
    alist.push("c".to_string());
    alist.push("d c".to_string());
    let graph = build_graph(alist);
    // undirected graph, must account for reverse edges
    // i.e. d -> a is not input, but a -> d is, so there should be 2 edges
    assert_eq!(8, total_neighbor_entries(&graph));
}

#[test]
fn check_num_edges2() {
    let mut alist: Vec<String> = vec![];
    alist.push("a b d".to_string());
    alist.push("b a d".to_string());
    alist.push("c b".to_string());
    alist.push("d c".to_string());
    let graph = build_graph(alist);
    // undirected graph, must account for reverse edges
    // i.e. d -> a is not input, but a -> d is, so there should be 2 edges
    assert_eq!(10, total_neighbor_entries(&graph));
}

#[test]
fn check_neighbors() {
    let mut alist: Vec<String> = vec![];
    alist.push("a b d".to_string());
    alist.push("b a d".to_string());
    alist.push("c".to_string());
    alist.push("d c".to_string());
    let graph = build_graph(alist);

    assert_eq!(has_edge(&graph, "a", "b"), true);
    assert_eq!(has_edge(&graph, "a", "d"), true);
    assert_eq!(has_edge(&graph, "a", "c"), false);

    assert_eq!(has_edge(&graph, "b", "a"), true);
    assert_eq!(has_edge(&graph, "b", "c"), false);
    assert_eq!(has_edge(&graph, "b", "d"), true);

    assert_eq!(has_edge(&graph, "c", "a"), false);
    assert_eq!(has_edge(&graph, "c", "b"), false);
    assert_eq!(has_edge(&graph, "c", "d"), true);

    assert_eq!(has_edge(&graph, "d", "a"), true);
    assert_eq!(has_edge(&graph, "d", "b"), true);
    assert_eq!(has_edge(&graph, "d", "c"), true);
}
