use gorilla_skew::grafini::{edge_to_str, is_proper_node, GraphBasedEntity, StrSet, UndirectedGraph};

fn neighbours(g: &UndirectedGraph, n: &str) -> Option<Vec<String>> {
    for (k, s) in g.data.iter() {
        if k == n {
            let mut v = s.items.clone();
            v.sort();
            return Some(v);
        }
    }
    None
}

#[test]
fn undirected_edges_go_both_ways() {
    let mut g = UndirectedGraph::new();
    g.add_edge("a".to_string(), "b".to_string());
    g.add_edge("a".to_string(), "c".to_string());
    g.add_edge("a".to_string(), "b".to_string());
    assert_eq!(neighbours(&g, "a"), Some(vec!["b".to_string(), "c".to_string()]));
    assert_eq!(neighbours(&g, "b"), Some(vec!["a".to_string()]));
    assert_eq!(neighbours(&g, "c"), Some(vec!["a".to_string()]));
    g.delete_edge("b".to_string(), "a".to_string());
    assert_eq!(neighbours(&g, "a"), Some(vec!["c".to_string()]));
    assert_eq!(neighbours(&g, "b"), Some(vec![]));
    g.delete_node("c".to_string());
    assert_eq!(neighbours(&g, "c"), None);
    assert_eq!(neighbours(&g, "a"), Some(vec![]));
    g.add_node("b".to_string());
    assert_eq!(g.data.len(), 2);
    g.add_neighbor("b".to_string(), "z".to_string());
    assert_eq!(neighbours(&g, "b"), Some(vec!["z".to_string()]));
}

#[test]
fn edge_names_are_ordered() {
    assert_eq!(edge_to_str("b".to_string(), "a".to_string()), "a_b");
    assert_eq!(edge_to_str("a".to_string(), "b".to_string()), "a_b");
    assert_eq!(edge_to_str("ab".to_string(), "a".to_string()), "a_ab");
    assert_eq!(edge_to_str("x".to_string(), "x".to_string()), "x_x");
    assert!(is_proper_node("node1".to_string()));
    assert!(!is_proper_node("node_1".to_string()));
}

#[test]
fn entity_nodes_and_edges() {
    let mut e = GraphBasedEntity { nodes: StrSet::new(), edges: StrSet::new() };
    e.add_node("n1".to_string());
    e.add_node("n1".to_string());
    e.add_node("n2".to_string());
    e.add_edge("n2".to_string(), "n1".to_string());
    e.add_edge("n1".to_string(), "n2".to_string());
    assert_eq!(e.nodes.items.len(), 2);
    assert_eq!(e.edges.items, vec!["n1_n2".to_string()]);
    assert!(e.edges.contains("n1_n2"));
    let mut s = StrSet::new();
    s.insert("x".to_string());
    s.insert("y".to_string());
    s.remove("x");
    assert!(!s.contains("x"));
    assert!(s.contains("y"));
}

#[test]
fn an_edge_brings_its_nodes() {
    let mut e = GraphBasedEntity { nodes: StrSet::new(), edges: StrSet::new() };
    e.add_edge("q".to_string(), "p".to_string());
    assert!(e.nodes.contains("p"));
    assert!(e.nodes.contains("q"));
    assert_eq!(e.nodes.items.len(), 2);
    assert!(e.edges.contains("p_q"));
}
