use path_finder::osm_data::{is_oneway, GeoPoint, Node, OSMData, Way};
use path_finder::session::{LoadError, Session};
use path_finder::Graph;

fn e7(deg: f64) -> i64 {
    (deg * 1e7).round() as i64
}

fn node(id: u64, lat: f64, lon: f64) -> Node {
    Node { id, point: GeoPoint { lat_e7: e7(lat), lon_e7: e7(lon) }, tags: Vec::new() }
}

fn way(id: u64, nodes: Vec<u64>, oneway: bool) -> Way {
    let mut tags = vec![("highway".to_string(), "residential".to_string())];
    if oneway {
        tags.push(("oneway".to_string(), "yes".to_string()));
    }
    Way { id, nodes, tags }
}

/// Great-circle distance in whole metres between two fixed-point coordinates.
fn distance_m(a: GeoPoint, b: GeoPoint) -> u32 {
    let (lat1, lon1) = (a.lat_e7 as f64 / 1e7, a.lon_e7 as f64 / 1e7);
    let (lat2, lon2) = (b.lat_e7 as f64 / 1e7, b.lon_e7 as f64 / 1e7);
    let dlat = (lat2 - lat1).to_radians();
    let dlon = (lon2 - lon1).to_radians();
    let h = (dlat / 2.0).sin().powi(2)
        + lat1.to_radians().cos() * lat2.to_radians().cos() * (dlon / 2.0).sin().powi(2);
    let c = 2.0 * h.sqrt().atan2((1.0 - h).sqrt());
    (6371.0 * c * 1000.0).round() as u32
}

/// A small street grid: 1-2-3 along one street, 1-4-5 along another, a
/// one-way link 5 -> 3, and a way that mentions a node nobody loaded.
fn dataset() -> OSMData {
    OSMData {
        nodes: vec![
            node(1, 51.5000, 0.1000),
            node(2, 51.5000, 0.1100),
            node(3, 51.5000, 0.1200),
            node(4, 51.5100, 0.1000),
            node(5, 51.5050, 0.1200),
            node(6, 51.6000, 0.3000),
        ],
        ways: vec![
            way(10, vec![1, 2, 3], false),
            way(11, vec![1, 4, 5], false),
            way(12, vec![5, 3], true),
            way(13, vec![3, 99, 6], false),
            way(14, vec![6], false),
        ],
    }
}

#[test]
fn builder_follows_ways_and_tags() {
    let g = Graph::from_osm_data(&dataset(), &distance_m);
    assert_eq!(g.find_shortest_path(1, 3), vec![1, 2, 3]);
    assert_eq!(g.find_shortest_path(4, 3), vec![4, 5, 3]);
    assert_eq!(g.find_shortest_path(3, 5), vec![3, 2, 1, 4, 5]);
}

#[test]
fn oneway_way_gives_no_reverse_edge() {
    let data = OSMData {
        nodes: vec![node(1, 51.5, 0.1), node(2, 51.5, 0.11)],
        ways: vec![way(1, vec![1, 2], true)],
    };
    let g = Graph::from_osm_data(&data, &distance_m);
    assert_eq!(g.find_shortest_path(1, 2), vec![1, 2]);
    assert_eq!(g.find_shortest_path(2, 1), Vec::<u64>::new());
    // A second, two-way way makes the reverse edge.
    let data2 = OSMData {
        nodes: vec![node(1, 51.5, 0.1), node(2, 51.5, 0.11)],
        ways: vec![way(1, vec![1, 2], true), way(2, vec![1, 2], false)],
    };
    let g2 = Graph::from_osm_data(&data2, &distance_m);
    assert_eq!(g2.find_shortest_path(2, 1), vec![2, 1]);
}

#[test]
fn unknown_node_skips_only_its_segments() {
    let g = Graph::from_osm_data(&dataset(), &distance_m);
    assert!(!g.contains_node_id(99));
    assert!(!g.contains_node_id(6));
    assert_eq!(g.find_shortest_path(3, 6), Vec::<u64>::new());
    assert!(g.contains_node_id(3));
}

#[test]
fn weights_come_from_the_distance_function() {
    let data = OSMData {
        nodes: vec![node(1, 0.0, 0.0), node(2, 0.0, 0.001), node(3, 0.0, 0.002)],
        ways: vec![way(1, vec![1, 2, 3], false), way(2, vec![1, 3], false)],
    };
    // With a constant distance the direct way wins.
    let g = Graph::from_osm_data(&data, &|_a: GeoPoint, _b: GeoPoint| -> u32 { 7 });
    assert_eq!(g.find_shortest_path(1, 3), vec![1, 3]);
    // With a distance that punishes the long hop the detour wins.
    let g2 = Graph::from_osm_data(&data, &|a: GeoPoint, b: GeoPoint| -> u32 {
        if (a.lon_e7 - b.lon_e7).abs() > 10_000 { 1000 } else { 1 }
    });
    assert_eq!(g2.find_shortest_path(1, 3), vec![1, 2, 3]);
}

#[test]
fn oneway_tag_must_say_yes() {
    let t = |k: &str, v: &str| vec![(k.to_string(), v.to_string())];
    assert!(is_oneway(&t("oneway", "yes")));
    assert!(!is_oneway(&t("oneway", "no")));
    assert!(!is_oneway(&t("oneway", "-1")));
    assert!(!is_oneway(&t("one_way", "yes")));
    assert!(!is_oneway(&Vec::new()));
}

#[test]
fn session_starts_empty() {
    let s = Session::new();
    assert!(!s.is_loaded());
    assert_eq!(s.find_shortest_path(1, 2), None);
    assert_eq!(s.nearest_node(0, 0), None);
    assert_eq!(s.find_shortest_path_by_coordinate(0, 0, 0, 0), None);
}

#[test]
fn session_loads_and_answers() {
    let mut s = Session::new();
    assert_eq!(s.load(&dataset(), &distance_m), Ok(()));
    assert!(s.is_loaded());
    assert_eq!(s.find_shortest_path(1, 3), Some(vec![1, 2, 3]));
    assert_eq!(s.find_shortest_path(3, 3), Some(vec![3]));
    assert_eq!(s.find_shortest_path(42, 1), Some(Vec::new()));
    let path = s.find_shortest_path_by_coordinate(e7(51.5001), e7(0.1001), e7(51.4999), e7(0.1199));
    assert_eq!(path, Some(vec![1, 2, 3]));
}

#[test]
fn nearest_node_of_exact_coordinate() {
    let mut s = Session::new();
    s.load(&dataset(), &distance_m).unwrap();
    assert_eq!(s.nearest_node(e7(51.5100), e7(0.1000)), Some(4));
    assert_eq!(s.nearest_node(e7(51.5000), e7(0.1100)), Some(2));
    // Node 6 has no edge and is not indexed: the nearest graph node is 5.
    assert_eq!(s.nearest_node(e7(51.6000), e7(0.3000)), Some(5));
    // A point off the globe still resolves to its planar nearest node.
    assert_eq!(s.nearest_node(e7(91.0), 0), Some(4));
    assert_eq!(s.find_shortest_path_by_coordinate(e7(91.0), 0, 0, 0), Some(vec![4, 1]));
    // Only coordinates beyond the index's measurable range resolve to none.
    assert_eq!(s.nearest_node(i64::MAX, 0), None);
    assert_eq!(s.find_shortest_path_by_coordinate(0, 0, 0, i64::MIN), None);
}

#[test]
fn failed_load_keeps_prior_state() {
    let mut s = Session::new();
    s.load(&dataset(), &distance_m).unwrap();
    let mut bad = dataset();
    bad.nodes.push(node(7, 95.0, 0.0));
    bad.nodes.push(node(8, 0.0, 200.0));
    assert_eq!(s.load(&bad, &distance_m), Err(LoadError::InvalidCoordinate(7)));
    assert!(s.is_loaded());
    assert_eq!(s.find_shortest_path(1, 3), Some(vec![1, 2, 3]));
    assert_eq!(s.nearest_node(e7(51.5100), e7(0.1000)), Some(4));
}

#[test]
fn failed_first_load_leaves_session_empty() {
    let mut s = Session::new();
    let bad = OSMData { nodes: vec![node(1, 0.0, 181.0)], ways: Vec::new() };
    assert_eq!(s.load(&bad, &distance_m), Err(LoadError::InvalidCoordinate(1)));
    assert!(!s.is_loaded());
}

#[test]
fn rebuild_gives_identical_paths() {
    let mut s1 = Session::new();
    let mut s2 = Session::new();
    s1.load(&dataset(), &distance_m).unwrap();
    s2.load(&dataset(), &distance_m).unwrap();
    for a in 0..8u64 {
        for b in 0..8u64 {
            assert_eq!(s1.find_shortest_path(a, b), s2.find_shortest_path(a, b));
        }
    }
    // Loading again into the same session replaces the content whole.
    s1.load(&dataset(), &distance_m).unwrap();
    assert_eq!(s1.find_shortest_path(4, 3), Some(vec![4, 5, 3]));
}

#[test]
fn reload_replaces_the_graph() {
    let mut s = Session::new();
    s.load(&dataset(), &distance_m).unwrap();
    let small = OSMData {
        nodes: vec![node(1, 10.0, 10.0), node(2, 10.0, 10.01)],
        ways: vec![way(1, vec![1, 2], false)],
    };
    s.load(&small, &distance_m).unwrap();
    assert_eq!(s.find_shortest_path(1, 3), Some(Vec::new()));
    assert_eq!(s.find_shortest_path(2, 1), Some(vec![2, 1]));
    assert_eq!(s.nearest_node(e7(51.5), e7(0.1)), Some(1));
}

#[test]
fn two_way_segment_has_one_weight_both_ways() {
    let data = OSMData {
        nodes: vec![node(1, 51.5074, 0.1278), node(2, 51.5074, 0.20005)],
        ways: vec![way(1, vec![1, 2], false)],
    };
    let g = Graph::from_osm_data(&data, &distance_m);
    assert_eq!(g.edges_from(1), vec![(2, 5000)]);
    assert_eq!(g.edges_from(2), vec![(1, 5000)]);
    assert_eq!(g.edges_from(3), Vec::<(u64, u32)>::new());
}

#[test]
fn oneway_segment_leaves_target_without_edges() {
    let data = OSMData {
        nodes: vec![node(1, 51.5074, 0.1278), node(2, 51.5074, 0.20005)],
        ways: vec![way(1, vec![1, 2], true), way(2, vec![1, 2], true)],
    };
    let g = Graph::from_osm_data(&data, &distance_m);
    // Parallel edges are kept, in the order of the ways.
    assert_eq!(g.edges_from(1), vec![(2, 5000), (2, 5000)]);
    assert!(g.contains_node_id(2));
    assert_eq!(g.edges_from(2), Vec::<(u64, u32)>::new());
}

#[test]
fn later_duplicate_node_wins() {
    let data = OSMData {
        nodes: vec![node(1, 0.0, 0.0), node(2, 0.0, 0.01), node(1, 0.0, 0.02)],
        ways: vec![way(1, vec![1, 2], false)],
    };
    let mut s = Session::new();
    s.load(&data, &|a: GeoPoint, b: GeoPoint| -> u32 { (a.lon_e7 - b.lon_e7).unsigned_abs() as u32 })
        .unwrap();
    assert_eq!(s.nearest_node(0, e7(0.021)), Some(1));
    assert_eq!(s.nearest_node(0, 0), Some(2));
}

fn sorted_ids(g: &Graph) -> Vec<u64> {
    let mut ids = g.node_ids();
    ids.sort();
    ids
}

#[test]
fn node_ids_lists_each_node_once() {
    let g = Graph::from_osm_data(&dataset(), &distance_m);
    assert_eq!(sorted_ids(&g), vec![1, 2, 3, 4, 5]);
    assert_eq!(Graph::new().node_ids(), Vec::<u64>::new());
}

#[test]
fn rebuild_gives_identical_edge_lists() {
    let g1 = Graph::from_osm_data(&dataset(), &distance_m);
    let g2 = Graph::from_osm_data(&dataset(), &distance_m);
    assert_eq!(sorted_ids(&g1), sorted_ids(&g2));
    for id in g1.node_ids() {
        assert_eq!(g1.edges_from(id), g2.edges_from(id));
    }
}

#[test]
fn short_ways_and_other_tags_change_nothing() {
    let g1 = Graph::from_osm_data(&dataset(), &distance_m);
    let mut d2 = dataset();
    d2.ways.push(way(20, vec![1], false));
    d2.ways.push(way(21, Vec::new(), true));
    d2.ways[0].id = 99;
    d2.ways[0].tags.push(("name".to_string(), "High Street".to_string()));
    d2.nodes[0].tags.push(("amenity".to_string(), "cafe".to_string()));
    let g2 = Graph::from_osm_data(&d2, &distance_m);
    assert_eq!(sorted_ids(&g1), sorted_ids(&g2));
    for id in g1.node_ids() {
        assert_eq!(g1.edges_from(id), g2.edges_from(id));
    }
}

#[test]
fn edge_lists_follow_segment_order() {
    let data = OSMData {
        nodes: vec![node(1, 0.0, 0.0), node(2, 0.0, 0.001), node(3, 0.0, 0.002)],
        ways: vec![way(1, vec![1, 2, 3], false), way(2, vec![1, 3], true)],
    };
    let g = Graph::from_osm_data(&data, &|a: GeoPoint, b: GeoPoint| -> u32 {
        (a.lon_e7 - b.lon_e7).unsigned_abs() as u32
    });
    assert_eq!(g.edges_from(1), vec![(2, 10_000), (3, 20_000)]);
    assert_eq!(g.edges_from(2), vec![(1, 10_000), (3, 10_000)]);
    assert_eq!(g.edges_from(3), vec![(2, 10_000)]);
}
