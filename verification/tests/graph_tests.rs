use graph_path::graph::Graph;

fn construct_graph(nodes: Vec<String>, edges: Vec<(String, String)>) -> Graph {
    let mut graph: Graph = Graph::new();

    for n in nodes {
        graph.add_node(n);
    }

    for (n1, n2) in edges {
        graph.add_edge(&n1, &n2).unwrap();
    }

    return graph;
}

fn assert_shortest_paths(graph: Graph, paths: Vec<(Vec<String>, Option<Vec<String>>)>) {
    for (input, expected) in paths {
        assert_eq!(graph.shortest_path(&input[0], &input[1]).unwrap(), expected);
    }
}

#[test]
fn graph_add_node_test() {
    let node_name = "Test".to_string();
    let mut graph = Graph::new();

    assert!(!graph.contains_node(&node_name));
    assert_eq!(0, graph.node_count());

    graph.add_node(node_name.clone());

    assert!(graph.contains_node(&node_name));
    assert_eq!(0, graph.get_node_index(&node_name));
    assert_eq!(graph.get_node_name(0), node_name);
}

#[test]
fn graph_add_edge_test() {
    let node1_name = "Test1".to_string();
    let node2_name = "Test2".to_string();
    let mut graph = Graph::new();

    graph.add_node(node1_name.clone());
    graph.add_node(node2_name.clone());

    assert_eq!(0, graph.get_node_index(&node1_name));
    assert_eq!(1, graph.get_node_index(&node2_name));

    graph.add_edge(&node1_name, &node2_name).unwrap();

    assert!(graph.neighbors(0).contains(&1));
    assert!(graph.neighbors(1).contains(&0));
}

#[test]
fn graph_get_node_index_test() {
    let node1_name = "Test1".to_string();
    let node2_name = "Test2".to_string();
    let mut graph = Graph::new();

    graph.add_node(node1_name.clone());
    graph.add_node(node2_name.clone());

    assert_eq!(0, graph.get_node_index(&node1_name));
    assert_eq!(1, graph.get_node_index(&node2_name));
}

#[test]
fn graph_get_node_name_test() {
    let node1_name = "Test1".to_string();
    let node2_name = "Test2".to_string();
    let mut graph = Graph::new();

    graph.add_node(node1_name.clone());
    graph.add_node(node2_name.clone());

    assert_eq!(node1_name, graph.get_node_name(0));
    assert_eq!(node2_name, graph.get_node_name(1));
}

#[test]
fn graph_contains_node_test() {
    let node_name = "Test1".to_string();
    let mut graph = Graph::new();

    graph.add_node(node_name.clone());

    assert!(graph.contains_node(&node_name));
}

#[test]
fn contains_edge_test() {
    let node1_name = "Test1".to_string();
    let node2_name = "Test2".to_string();
    let mut graph = Graph::new();

    graph.add_node(node1_name.clone());
    graph.add_node(node2_name.clone());

    assert_eq!(0, graph.get_node_index(&node1_name));
    assert_eq!(1, graph.get_node_index(&node2_name));

    graph.add_edge(&node1_name, &node2_name).unwrap();

    assert!(graph.contains_edge(&node1_name, &node2_name).unwrap());
    assert!(graph.contains_edge(&node2_name, &node1_name).unwrap());
}

#[test]
fn connected_shortest_path_test() {
    let nodes = vec![
        "a".to_string(),
        "b".to_string(),
        "c".to_string(),
        "d".to_string(),
        "e".to_string(),
    ];

    let edges = vec![
        ("a".to_string(), "b".to_string()),
        ("a".to_string(), "d".to_string()),
        ("b".to_string(), "c".to_string()),
        ("c".to_string(), "e".to_string()),
        ("d".to_string(), "e".to_string()),
    ];

    let paths = vec![
        (vec!["a".to_string(), "b".to_string()], Some(vec!["a".to_string(), "b".to_string()])),
        (vec!["a".to_string(), "c".to_string()], Some(vec!["a".to_string(), "b".to_string(), "c".to_string()])),
        (vec!["e".to_string(), "a".to_string()], Some(vec!["e".to_string(), "d".to_string(), "a".to_string()])),
        (vec!["c".to_string(), "d".to_string()], Some(vec!["c".to_string(), "e".to_string(), "d".to_string()])),
    ];

    let graph = construct_graph(nodes, edges);
    assert_shortest_paths(graph, paths);
}

#[test]
fn disjoint_shortest_path_test() {
    let nodes = vec![
        "a".to_string(),
        "b".to_string(),
        "c".to_string(),
        "d".to_string(),
        "e".to_string(),
    ];

    let edges = vec![
        ("a".to_string(), "b".to_string()),
        ("b".to_string(), "c".to_string()),
        ("d".to_string(), "e".to_string()),
    ];

    let paths = vec![
        (vec!["a".to_string(), "e".to_string()], None),
        (vec!["c".to_string(), "d".to_string()], None),
        (vec!["d".to_string(), "b".to_string()], None),
    ];

    let graph = construct_graph(nodes, edges);
    assert_shortest_paths(graph, paths);
}

#[test]
fn path_exists_tests() {
    let nodes = vec![
        "a".to_string(),
        "b".to_string(),
        "c".to_string(),
        "d".to_string(),
        "e".to_string(),
    ];

    let edges = vec![
        ("a".to_string(), "b".to_string()),
        ("a".to_string(), "c".to_string()),
        ("d".to_string(), "e".to_string()),
    ];

    let paths = vec![
        (vec!["a".to_string(), "b".to_string()], true),
        (vec!["c".to_string(), "b".to_string()], true),
        (vec!["c".to_string(), "a".to_string()], true),
        (vec!["d".to_string(), "e".to_string()], true),
        (vec!["a".to_string(), "d".to_string()], false),
        (vec!["e".to_string(), "c".to_string()], false),
    ];

    let graph = construct_graph(nodes, edges);
    for (input, expected) in paths {
        assert_eq!(graph.path_exists(&input[0], &input[1]), expected);
    }
}
