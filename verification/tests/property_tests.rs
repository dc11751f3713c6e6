use std::collections::VecDeque;

use graph_path::GraphError;
use graph_path::builder::build_graph;
use graph_path::graph::Graph;
use graph_path::parse::{format_result, parse_query, tokenize};

fn scenario_graph() -> Graph {
    let mut g = Graph::new();
    for n in ["a", "b", "c", "d", "e"] {
        g.add_node(n.to_string());
    }
    for (x, y) in [("a", "b"), ("a", "d"), ("b", "c"), ("c", "e"), ("d", "e")] {
        g.add_edge(&x.to_string(), &y.to_string()).unwrap();
    }
    g
}

/// An independent breadth-first traversal over the public adjacency
/// view, giving the edge-count distance from `start` to every index.
fn bfs_distances(g: &Graph, start: usize) -> Vec<Option<usize>> {
    let n = g.node_count();
    let mut dist: Vec<Option<usize>> = vec![None; n];
    let mut queue: VecDeque<usize> = VecDeque::new();
    dist[start] = Some(0);
    queue.push_back(start);
    while let Some(v) = queue.pop_front() {
        let dv = dist[v].unwrap();
        for w in g.neighbors(v) {
            if dist[w].is_none() {
                dist[w] = Some(dv + 1);
                queue.push_back(w);
            }
        }
    }
    dist
}

#[test]
fn symmetry_after_add_edge() {
    let mut g = Graph::new();
    g.add_node("x".to_string());
    g.add_node("y".to_string());
    g.add_edge(&"x".to_string(), &"y".to_string()).unwrap();
    assert!(g.contains_edge(&"x".to_string(), &"y".to_string()).unwrap());
    assert!(g.contains_edge(&"y".to_string(), &"x".to_string()).unwrap());
}

#[test]
fn add_node_idempotent() {
    let mut g = Graph::new();
    g.add_node("x".to_string());
    let first = g.get_node_index(&"x".to_string());
    g.add_node("x".to_string());
    assert_eq!(first, g.get_node_index(&"x".to_string()));
    assert_eq!(1, g.node_count());
}

#[test]
fn add_edge_idempotent() {
    let mut g = Graph::new();
    g.add_node("x".to_string());
    g.add_node("y".to_string());
    g.add_edge(&"x".to_string(), &"y".to_string()).unwrap();
    let before_x = g.neighbors(0);
    let before_y = g.neighbors(1);
    g.add_edge(&"x".to_string(), &"y".to_string()).unwrap();
    assert_eq!(before_x, g.neighbors(0));
    assert_eq!(before_y, g.neighbors(1));
}

#[test]
fn reflexive_path() {
    let g = scenario_graph();
    for n in ["a", "b", "c", "d", "e"] {
        let r = g.shortest_path(&n.to_string(), &n.to_string());
        assert_eq!(r, Ok(Some(vec![n.to_string()])));
    }
}

#[test]
fn unknown_node_errors() {
    let mut g = Graph::new();
    g.add_node("x".to_string());
    let y = "y".to_string();
    let x = "x".to_string();
    assert_eq!(g.shortest_path(&y, &x), Err(GraphError::UnknownNode));
    assert_eq!(g.shortest_path(&x, &y), Err(GraphError::UnknownNode));
    assert_eq!(g.contains_edge(&x, &y), Err(GraphError::UnknownNode));
    assert_eq!(g.add_edge(&x, &y), Err(GraphError::UnknownNode));
}

#[test]
fn disconnected_components() {
    let alist = vec!["a b".to_string(), "b c".to_string(), "d e".to_string()];
    let g = build_graph(alist);
    assert_eq!(g.shortest_path(&"a".to_string(), &"e".to_string()), Ok(None));
}

#[test]
fn minimality_matches_reference_bfs() {
    let g = scenario_graph();
    let names = ["a", "b", "c", "d", "e"];
    for s in names {
        let start = s.to_string();
        let si = g.get_node_index(&start);
        let dist = bfs_distances(&g, si);
        for f in names {
            let finish = f.to_string();
            let fi = g.get_node_index(&finish);
            let r = g.shortest_path(&start, &finish).unwrap();
            match dist[fi] {
                Some(d) => {
                    let p = r.expect("reachable pair must yield a path");
                    assert_eq!(p.len(), d + 1);
                    assert_eq!(p[0], start);
                    assert_eq!(p[p.len() - 1], finish);
                    for k in 0..p.len() - 1 {
                        assert!(g.contains_edge(&p[k], &p[k + 1]).unwrap());
                    }
                }
                None => assert_eq!(r, None),
            }
        }
    }
}

#[test]
fn tokenize_splits_on_non_word_characters() {
    assert_eq!(tokenize("a b d"), vec!["a", "b", "d"]);
    assert_eq!(tokenize("  node_1,node2;x9  "), vec!["node_1", "node2", "x9"]);
    assert_eq!(tokenize(""), Vec::<String>::new());
    assert_eq!(tokenize("...!"), Vec::<String>::new());
}

#[test]
fn parse_query_two_tokens() {
    assert_eq!(
        parse_query("a b"),
        Ok(("a".to_string(), "b".to_string()))
    );
    assert_eq!(parse_query("a"), Err(GraphError::MalformedQuery));
    assert_eq!(parse_query("a b c"), Err(GraphError::MalformedQuery));
    assert_eq!(parse_query(""), Err(GraphError::MalformedQuery));
}

#[test]
fn format_result_lines() {
    let path = vec!["a".to_string(), "b".to_string(), "c".to_string()];
    assert_eq!(format_result(&Ok(Some(path))), "a b c");
    assert_eq!(
        format_result(&Ok(None)),
        "There is no path between these nodes."
    );
    assert_eq!(
        format_result(&Err(GraphError::UnknownNode)),
        "Invalid node choice. At least one node does not exist."
    );
    assert_eq!(
        format_result(&Err(GraphError::MalformedQuery)),
        "Invalid number of nodes. Please input 2 nodes."
    );
}

#[test]
fn self_loops_are_inert() {
    let g = build_graph(vec!["a a b".to_string()]);
    assert!(g.contains_edge(&"a".to_string(), &"a".to_string()).unwrap());
    assert_eq!(
        g.shortest_path(&"a".to_string(), &"b".to_string()),
        Ok(Some(vec!["a".to_string(), "b".to_string()]))
    );
}
