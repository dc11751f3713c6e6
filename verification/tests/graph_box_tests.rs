use graph_path::graph::Graph;

#[test]
fn graph_box_add_node_test() {
    let node_name = "Test".to_string();
    let mut graph = Graph::new();

    assert!(!graph.contains_node(&node_name));
    assert_eq!(0, graph.node_count());

    graph.add_node(node_name.clone());

    assert!(graph.contains_node(&node_name));
    assert_eq!(0, graph.get_node_index(&node_name));
    assert_eq!(graph.get_node_name(0), node_name);
}

#[test]
fn graph_box_add_edge_test() {
    let node1_name = "Test1".to_string();
    let node2_name = "Test2".to_string();
    let mut graph = Graph::new();

    graph.add_node(node1_name.clone());
    graph.add_node(node2_name.clone());

    assert_eq!(0, graph.get_node_index(&node1_name));
    assert_eq!(1, graph.get_node_index(&node2_name));

    graph.add_edge(&node1_name, &node2_name).unwrap();

    assert!(graph.neighbors(0).contains(&1));
    assert!(graph.neighbors(1).contains(&0));
}

#[test]
fn graph_box_get_node_index_test() {
    let node1_name = "Test1".to_string();
    let node2_name = "Test2".to_string();
    let mut graph = Graph::new();

    graph.add_node(node1_name.clone());
    graph.add_node(node2_name.clone());

    assert_eq!(0, graph.get_node_index(&node1_name));
    assert_eq!(1, graph.get_node_index(&node2_name));
}

#[test]
fn graph_box_get_node_name_test() {
    let node1_name = "Test1".to_string();
    let node2_name = "Test2".to_string();
    let mut graph = Graph::new();

    graph.add_node(node1_name.clone());
    graph.add_node(node2_name.clone());

    assert_eq!(node1_name, graph.get_node_name(0));
    assert_eq!(node2_name, graph.get_node_name(1));
}

#[test]
fn graph_box_contains_node_test() {
    let node_name = "Test1".to_string();
    let mut graph = Graph::new();

    graph.add_node(node_name.clone());

    assert!(graph.contains_node(&node_name));
}
