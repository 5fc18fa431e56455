use path_finder::osm_data::GeoPoint;
use path_finder::Graph;

/// Great-circle distance in whole metres, as the host computes edge weights.
fn haversine_m(p1: (f64, f64), p2: (f64, f64)) -> u32 {
    let radius_km: f64 = 6371.0;
    let lat1 = p1.0.to_radians();
    let lat2 = p2.0.to_radians();
    let dlat = (p2.0 - p1.0).to_radians();
    let dlon = (p2.1 - p1.1).to_radians();
    let a = (dlat / 2.0).sin().powi(2) + lat1.cos() * lat2.cos() * (dlon / 2.0).sin().powi(2);
    let c = 2.0 * a.sqrt().atan2((1.0 - a).sqrt());
    (radius_km * c * 1000.0).round() as u32
}

fn two_way(g: &mut Graph, from: (u64, f64, f64), to: (u64, f64, f64)) {
    g.add_edge_two_way(from.0, to.0, haversine_m((from.1, from.2), (to.1, to.2)));
}

fn one_way(g: &mut Graph, from: (u64, f64, f64), to: (u64, f64, f64)) {
    g.add_edge_one_way(from.0, to.0, haversine_m((from.1, from.2), (to.1, to.2)));
}

#[test]
fn test_shortest_path() {
    let mut graph = Graph::new();
    // 5km
    two_way(&mut graph, (1, 51.5074, 0.1278), (2, 51.5074, 0.20005));
    // 10km
    two_way(&mut graph, (2, 51.5074, 0.1278), (3, 51.5074, 0.27230));
    // 1.92km
    two_way(&mut graph, (1, 51.5074, 0.1278), (4, 51.5074, 0.100000));
    // 3.004km
    two_way(&mut graph, (4, 51.5074, 0.1278), (5, 51.5074, 0.1712));
    // 1.26km
    two_way(&mut graph, (2, 51.5074, 0.1278), (5, 51.5074, 0.11008));

    assert_eq!(graph.find_shortest_path(1, 3), vec![1, 2, 3]);
    assert_eq!(graph.find_shortest_path(1, 5), vec![1, 4, 5]);
    assert_eq!(graph.find_shortest_path(3, 5), vec![3, 2, 5]);
    assert_eq!(graph.find_shortest_path(1, 4), vec![1, 4]);
    assert_eq!(graph.find_shortest_path(1, 1), vec![1]);
    assert_eq!(graph.find_shortest_path(3, 4), vec![3, 2, 5, 4]);
}

#[test]
fn test_shortest_path_no_path() {
    let mut graph = Graph::new();
    // 5km
    two_way(&mut graph, (1, 51.5074, 0.1278), (2, 51.5074, 0.20005));
    // 5km
    one_way(&mut graph, (1, 51.5074, 0.1278), (4, 51.5074, 0.20005));
    // 1.26km
    one_way(&mut graph, (4, 51.5074, 0.1278), (3, 51.5074, 0.11008));
    // 10km
    one_way(&mut graph, (2, 51.5074, 0.1278), (3, 51.5074, 0.27230));
    // 5km
    one_way(&mut graph, (3, 51.5074, 0.1278), (5, 51.5074, 0.20005));

    assert_eq!(graph.find_shortest_path(1, 3), vec![1, 4, 3]);
    assert_eq!(graph.find_shortest_path(3, 1), Vec::<u64>::new());
}

#[test]
fn haversine_weights_of_the_canonical_case() {
    assert_eq!(haversine_m((51.5074, 0.1278), (51.5074, 0.20005)), 5000);
    assert_eq!(haversine_m((51.5074, 0.1278), (51.5074, 0.11008)), 1226);
    assert_eq!(
        haversine_m((51.5074, 0.1278), (51.5074, 0.1712)),
        haversine_m((51.5074, 0.1712), (51.5074, 0.1278))
    );
}

#[test]
fn self_path_needs_a_node() {
    let mut graph = Graph::new();
    graph.add_edge_one_way(1, 2, 10);
    assert_eq!(graph.find_shortest_path(1, 1), vec![1]);
    // 2 has an entry of its own as an edge target.
    assert_eq!(graph.find_shortest_path(2, 2), vec![2]);
    assert_eq!(graph.find_shortest_path(7, 7), Vec::<u64>::new());
}

#[test]
fn absent_ends_give_empty_paths() {
    let mut graph = Graph::new();
    graph.add_edge_two_way(1, 2, 10);
    assert_eq!(graph.find_shortest_path(9, 1), Vec::<u64>::new());
    assert_eq!(graph.find_shortest_path(1, 9), Vec::<u64>::new());
    assert_eq!(Graph::new().find_shortest_path(1, 2), Vec::<u64>::new());
}

#[test]
fn disconnected_components_have_no_path() {
    let mut graph = Graph::new();
    graph.add_edge_two_way(1, 2, 10);
    graph.add_edge_two_way(3, 4, 10);
    assert_eq!(graph.find_shortest_path(1, 4), Vec::<u64>::new());
    assert_eq!(graph.find_shortest_path(2, 1), vec![2, 1]);
}

#[test]
fn lighter_parallel_edge_wins() {
    let mut graph = Graph::new();
    graph.add_edge_one_way(1, 2, 100);
    graph.add_edge_one_way(1, 2, 5);
    graph.add_edge_one_way(1, 3, 50);
    graph.add_edge_one_way(3, 4, 1);
    graph.add_edge_one_way(2, 4, 10);
    assert_eq!(graph.find_shortest_path(1, 4), vec![1, 2, 4]);
}

#[test]
fn zero_weight_edges_and_cycles() {
    let mut graph = Graph::new();
    graph.add_edge_two_way(1, 2, 0);
    graph.add_edge_two_way(2, 3, 0);
    graph.add_edge_two_way(3, 1, 0);
    graph.add_edge_one_way(3, 4, 7);
    let p = graph.find_shortest_path(1, 4);
    assert_eq!(p.first(), Some(&1));
    assert_eq!(p.last(), Some(&4));
    assert_eq!(p[p.len() - 2], 3);
}

#[test]
fn largest_weights_do_not_overflow() {
    let mut graph = Graph::new();
    graph.add_edge_one_way(1, 2, u32::MAX);
    graph.add_edge_one_way(2, 3, u32::MAX);
    graph.add_edge_one_way(1, 3, u32::MAX);
    assert_eq!(graph.find_shortest_path(1, 3), vec![1, 3]);
    assert_eq!(graph.find_shortest_path(1, 2), vec![1, 2]);
}

#[test]
fn contains_node_id_reports_entries() {
    let mut graph = Graph::new();
    graph.add_edge_one_way(1, 2, 3);
    assert!(graph.contains_node_id(1));
    assert!(graph.contains_node_id(2));
    assert!(!graph.contains_node_id(3));
    let _ = GeoPoint { lat_e7: 0, lon_e7: 0 };
}
