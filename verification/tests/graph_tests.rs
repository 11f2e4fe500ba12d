use graph_hops::Graph;

#[test]
fn test_new_graph_is_empty() {
    let g = Graph::new();
    assert_eq!(g.vertex_count(), 0);
    assert!(g.get_vertices().is_empty());
    assert!(g.get_neighbors(7).is_empty());
}

#[test]
fn test_add_vertex_idempotent() {
    let mut g = Graph::new();
    g.add_vertex(3);
    let count_after_first = g.vertex_count();
    let neighbors_after_first = g.get_neighbors(3);
    g.add_vertex(3);
    assert_eq!(g.vertex_count(), count_after_first);
    assert_eq!(g.get_neighbors(3), neighbors_after_first);
    assert_eq!(g.vertex_count(), 1);
}

#[test]
fn test_add_vertex_idempotent_keeps_edges() {
    let mut g = Graph::new();
    g.add_edge(3, 4);
    g.add_vertex(3);
    g.add_vertex(3);
    assert_eq!(g.vertex_count(), 2);
    assert_eq!(g.get_neighbors(3), vec![4]);
}

#[test]
fn test_add_edge_is_directed() {
    let mut g = Graph::new();
    g.add_edge(1, 2);
    assert!(g.get_neighbors(1).contains(&2));
    assert!(!g.get_neighbors(2).contains(&1));
}

#[test]
fn test_add_edge_inserts_endpoints() {
    let mut g = Graph::new();
    g.add_edge(10, 20);
    assert_eq!(g.vertex_count(), 2);
    assert_eq!(g.get_vertices(), &vec![10, 20]);
}

#[test]
fn test_vertices_first_seen_order() {
    let mut g = Graph::new();
    g.add_edge(1, 2);
    g.add_edge(1, 3);
    g.add_edge(2, 4);
    g.add_edge(3, 4);
    assert_eq!(g.get_vertices(), &vec![1, 2, 3, 4]);
}

#[test]
fn test_parallel_edges_kept_verbatim() {
    let mut g = Graph::new();
    g.add_edge(1, 2);
    g.add_edge(1, 2);
    assert_eq!(g.get_neighbors(1), vec![2, 2]);
    assert_eq!(g.vertex_count(), 2);
}

#[test]
fn test_self_loop_recorded() {
    let mut g = Graph::new();
    g.add_edge(5, 5);
    assert_eq!(g.vertex_count(), 1);
    assert_eq!(g.get_neighbors(5), vec![5]);
}

#[test]
fn test_unknown_vertex_has_no_neighbors() {
    let mut g = Graph::new();
    g.add_edge(1, 2);
    assert!(g.get_neighbors(99).is_empty());
}
