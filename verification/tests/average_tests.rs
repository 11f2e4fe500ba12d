use graph_hops::Graph;
use graph_hops::distance_totals;

fn average_of(totals: Option<(u64, u64)>) -> Option<f64> {
    match totals {
        Some((_, 0)) => None,  // the explicit empty-graph condition: no division
        Some((sum, count)) => Some(sum as f64 / count as f64),
        None => None,
    }
}

#[test]
fn test_calculate_average_distance() {
    //Create a sample graph with known properties
    let mut graph = Graph::new();
    graph.add_edge(1, 2);
    graph.add_edge(1, 3);
    graph.add_edge(2, 4);
    graph.add_edge(3, 4);

    let totals = distance_totals(&graph);
    let average_distance = average_of(totals).unwrap();

    //Expected average distance for this graph
    let expected_distance = 0.667;

    //Check if expected and calculated average distances are equal (Rounded calculated distance to 3 decimal places)
    assert_eq!((average_distance * 1000.0).round() / 1000.0, expected_distance);
}

#[test]
fn test_scenario_four_edge_totals() {
    // Pooled over the four sources: 1 records {1:0,2:1,3:1,4:2}, 2 records
    // {2:0,4:1}, 3 records {3:0,4:1}, 4 records {4:0}: sum 6 over 9 pairs.
    let mut graph = Graph::new();
    graph.add_edge(1, 2);
    graph.add_edge(1, 3);
    graph.add_edge(2, 4);
    graph.add_edge(3, 4);
    assert_eq!(distance_totals(&graph), Some((6, 9)));
}

#[test]
fn test_empty_graph_policy() {
    let graph = Graph::new();
    assert_eq!(graph.vertex_count(), 0);
    let totals = distance_totals(&graph);
    assert_eq!(totals, Some((0, 0)));
    // The zero pair count is the explicit empty-graph condition; no average
    // exists and no division happens.
    assert_eq!(average_of(totals), None);
}

#[test]
fn test_single_isolated_vertex() {
    let mut graph = Graph::new();
    graph.add_vertex(9);
    let totals = distance_totals(&graph);
    // Only the self-pair exists, at distance zero.
    assert_eq!(totals, Some((0, 1)));
    assert_eq!(average_of(totals), Some(0.0));
}

#[test]
fn test_totals_deterministic_repeat() {
    let mut graph = Graph::new();
    graph.add_edge(1, 2);
    graph.add_edge(2, 3);
    let first = distance_totals(&graph);
    let second = distance_totals(&graph);
    assert_eq!(first, second);
    let a1 = average_of(first).unwrap();
    let a2 = average_of(second).unwrap();
    assert_eq!(a1.to_bits(), a2.to_bits());
}

#[test]
fn test_unreachable_pairs_excluded() {
    // Two disconnected vertices: only the two self-pairs are pooled.
    let mut graph = Graph::new();
    graph.add_vertex(1);
    graph.add_vertex(2);
    assert_eq!(distance_totals(&graph), Some((0, 2)));
}

#[test]
fn test_totals_with_self_loop() {
    // A self-loop adds no pair beyond the self-pair at distance zero.
    let mut graph = Graph::new();
    graph.add_edge(5, 5);
    assert_eq!(distance_totals(&graph), Some((0, 1)));
}

#[test]
fn test_totals_chain() {
    // 0 -> 1 -> 2: pairs (0,0)=0 (0,1)=1 (0,2)=2 (1,1)=0 (1,2)=1 (2,2)=0.
    let mut graph = Graph::new();
    graph.add_edge(0, 1);
    graph.add_edge(1, 2);
    assert_eq!(distance_totals(&graph), Some((4, 6)));
}
