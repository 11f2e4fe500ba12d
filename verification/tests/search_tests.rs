use std::collections::HashMap;
use graph_hops::Graph;
use graph_hops::bfs_distances;

fn diamond() -> Graph {
    let mut graph = Graph::new();
    graph.add_edge(1, 2);
    graph.add_edge(1, 3);
    graph.add_edge(2, 4);
    graph.add_edge(3, 4);
    graph
}

#[test]
fn test_bfs_distances() {
    //Create a sample graph
    let graph = diamond();

    //Call bfs_distances with vertex 1 as the source
    let distances = bfs_distances(&graph, 1);

    //Expected distances from vertex 1 to other vertices
    let expected_distances: HashMap<usize, usize> = [(1, 0), (2, 1), (3, 1), (4, 2)]
        .iter()
        .cloned()
        .collect();

    //Check if expected and calculated distance are equal
    assert_eq!(distances, expected_distances);
}

#[test]
fn test_bfs_self_distance_zero() {
    let graph = diamond();
    for &v in graph.get_vertices() {
        let distances = bfs_distances(&graph, v);
        assert_eq!(distances.get(&v), Some(&0));
    }
}

#[test]
fn test_bfs_unreachable_absent() {
    let graph = diamond();
    // Vertex 4 has no out-edges: only the self-pair is recorded.
    let distances = bfs_distances(&graph, 4);
    let mut expected: HashMap<usize, usize> = HashMap::new();
    expected.insert(4, 0);
    assert_eq!(distances, expected);
}

#[test]
fn test_bfs_mid_source() {
    let graph = diamond();
    let distances = bfs_distances(&graph, 2);
    let mut expected: HashMap<usize, usize> = HashMap::new();
    expected.insert(2, 0);
    expected.insert(4, 1);
    assert_eq!(distances, expected);
}

#[test]
fn test_bfs_shortest_of_two_routes() {
    // 0 -> 1 -> 2 -> 3 and a shortcut 0 -> 3: the minimum must win.
    let mut graph = Graph::new();
    graph.add_edge(0, 1);
    graph.add_edge(1, 2);
    graph.add_edge(2, 3);
    graph.add_edge(0, 3);
    let distances = bfs_distances(&graph, 0);
    assert_eq!(distances.get(&3), Some(&1));
    assert_eq!(distances.get(&2), Some(&2));
}

#[test]
fn test_bfs_unknown_source() {
    let graph = diamond();
    let distances = bfs_distances(&graph, 42);
    let mut expected: HashMap<usize, usize> = HashMap::new();
    expected.insert(42, 0);
    assert_eq!(distances, expected);
}

#[test]
fn test_bfs_deterministic_repeat() {
    let graph = diamond();
    let first = bfs_distances(&graph, 1);
    let second = bfs_distances(&graph, 1);
    assert_eq!(first, second);
}

#[test]
fn test_bfs_cycle() {
    let mut graph = Graph::new();
    graph.add_edge(1, 2);
    graph.add_edge(2, 3);
    graph.add_edge(3, 1);
    let distances = bfs_distances(&graph, 1);
    let mut expected: HashMap<usize, usize> = HashMap::new();
    expected.insert(1, 0);
    expected.insert(2, 1);
    expected.insert(3, 2);
    assert_eq!(distances, expected);
}
