use hoptrace::graph::candidate_pairs;
use hoptrace::graph::NetworkGraph;
use hoptrace::models::PathNode;
use hoptrace::models::Repeater;
use hoptrace::terrain::TerrainMap;
use hoptrace::terrain::TerrainTile;

fn udeg(x: f64) -> i64 {
    (x * 1_000_000.0).round() as i64
}

fn deg(x: i64) -> f64 {
    x as f64 / 1_000_000.0
}

fn haversine_km(lat1: f64, lon1: f64, lat2: f64, lon2: f64) -> f64 {
    let lat1_rad = lat1.to_radians();
    let lon1_rad = lon1.to_radians();
    let lat2_rad = lat2.to_radians();
    let lon2_rad = lon2.to_radians();
    let dlat = lat2_rad - lat1_rad;
    let dlon = lon2_rad - lon1_rad;
    let a =
        (dlat / 2.0).sin().powi(2) + lat1_rad.cos() * lat2_rad.cos() * (dlon / 2.0).sin().powi(2);
    let c = 2.0 * a.sqrt().atan2((1.0 - a).sqrt());
    6371.0 * c
}

fn link_cost_micro(
    map: Option<&TerrainMap>,
    lat1: f64,
    lon1: f64,
    lat2: f64,
    lon2: f64,
) -> Option<i64> {
    let dist_km = haversine_km(lat1, lon1, lat2, lon2);
    if dist_km > 150.0 {
        return None;
    }
    if let Some(m) = map {
        let dist_m = (dist_km * 1000.0).round() as u64;
        match m.check_line_of_sight(
            udeg(lat1),
            udeg(lon1),
            30_000,
            udeg(lat2),
            udeg(lon2),
            30_000,
            dist_m,
        ) {
            Ok(true) => {}
            Ok(false) => return Some(2_000_000_000),
            Err(_) => return None,
        }
    }
    let bulge_m = {
        let d_meters = dist_km * 1000.0;
        (d_meters * d_meters) / (8.0 * 6_371_000.0)
    };
    let dist_prob = 1.0 / (1.0 + (0.15 * (dist_km - 60.0)).exp());
    let bulge_prob = 1.0 / (1.0 + (0.5 * (bulge_m - 40.0)).exp());
    let combined = dist_prob * bulge_prob;
    if combined < 1e-10 {
        Some(1_000_000_000)
    } else {
        Some(((-combined.ln()) * 1_000_000.0).round() as i64)
    }
}

fn create_node(id: &str, lat: f64, lon: f64) -> Repeater {
    Repeater {
        id: id.to_string(),
        name: "TestNode".to_string(),
        lat_udeg: udeg(lat),
        lon_udeg: udeg(lon),
    }
}

fn build_graph(nodes: Vec<Repeater>, map: Option<&TerrainMap>) -> NetworkGraph {
    let pairs = candidate_pairs(&nodes);
    let mut links: Vec<(usize, usize, i64)> = Vec::new();
    for (i, j) in pairs {
        let a = &nodes[i];
        let b = &nodes[j];
        if let Some(c) = link_cost_micro(
            map,
            deg(a.lat_udeg),
            deg(a.lon_udeg),
            deg(b.lat_udeg),
            deg(b.lon_udeg),
        ) {
            links.push((i, j, c));
        }
    }
    NetworkGraph::new(nodes, links)
}

#[test]
fn test_winding_path_reconstruction() {
    let nodes = vec![
        create_node("A00000", 0.0, 0.0),
        create_node("B00000", 0.0, 0.4),
        create_node("C00000", 0.0, 0.8),
        create_node("D00000", 0.0, 1.2),
        create_node("E00000", 0.0, 1.6),
    ];

    let obs = vec![0xA0, 0xB0, 0xC0, 0xD0, 0xE0];

    let graph = build_graph(nodes, None);
    let result = graph.decode_path(&obs).expect("Viterbi failed");

    assert_eq!(result.len(), 5);
    assert_eq!(result[0], PathNode::Known(0));
    assert_eq!(result[1], PathNode::Known(1));
    assert_eq!(result[2], PathNode::Known(2));
    assert_eq!(result[3], PathNode::Known(3));
    assert_eq!(result[4], PathNode::Known(4));
}

#[test]
fn test_winding_path_with_terrain_blockage() {
    let width_km: f64 = 100.0;
    let height_km: f64 = 100.0;
    let resolution_m: f64 = 30.0;
    let center_lat: f64 = 0.0;
    let center_lon: f64 = 0.0;

    let km_per_deg_lat = 111.0;
    let km_per_deg_lon = 111.0 * (center_lat.to_radians()).cos();

    let height_deg = height_km / km_per_deg_lat;
    let width_deg = width_km / km_per_deg_lon;

    let min_lat = center_lat - height_deg / 2.0;
    let max_lat = center_lat + height_deg / 2.0;
    let min_lon = center_lon - width_deg / 2.0;
    let max_lon = center_lon + width_deg / 2.0;

    let rows = (height_km * 1000.0 / resolution_m).ceil() as usize;
    let cols = (width_km * 1000.0 / resolution_m).ceil() as usize;

    let mut data = vec![0i64; rows * cols];

    // Wall at lon = 0.05, two kilometers high, in millimeters.
    let wall_col = (cols as f64 * 0.555) as usize;
    for r in 0..rows {
        data[r * cols + wall_col] = 2_000_000;
    }

    // Gap north of lat = 0.1.
    let gap_start_row = (rows as f64 * 0.61) as usize;
    for r in gap_start_row..rows {
        data[r * cols + wall_col] = 0;
    }

    let tile = TerrainTile {
        min_lat: udeg(min_lat),
        min_lon: udeg(min_lon),
        max_lat: udeg(max_lat),
        max_lon: udeg(max_lon),
        width: cols,
        height: rows,
        data,
    };

    let map = TerrainMap::new(vec![tile]);

    let a = create_node("A00000", 0.0, -0.05);
    let d = create_node("D00000", 0.0, 0.15);
    let b = create_node("B00000", 0.15, 0.0);
    let c = create_node("C00000", 0.15, 0.1);

    let nodes = vec![a, b, c, d];

    let obs = vec![0xA0, 0xB0, 0xC0, 0xD0];

    let graph = build_graph(nodes, Some(&map));
    let result = graph.decode_path(&obs).expect("Viterbi failed");

    assert_eq!(result.len(), 4);
    assert_eq!(result[0], PathNode::Known(0));
    assert_eq!(result[1], PathNode::Known(1));
    assert_eq!(result[2], PathNode::Known(2));
    assert_eq!(result[3], PathNode::Known(3));
}

#[test]
fn test_disconnected_components() {
    let nodes = vec![
        create_node("A00000", 0.0, 0.0),
        create_node("B00000", 0.0, 10.0),
    ];

    let obs = vec![0xA0, 0xB0];
    let graph = build_graph(nodes, None);

    let result = graph.decode_path(&obs).expect("Viterbi failed");

    assert_eq!(result[0], PathNode::Known(0), "Should start with Known node A");
    assert_eq!(result[1], PathNode::Unknown(0xB0), "Should fallback to Unknown for B");
}

#[test]
fn graph_tests_test_unknown_repeater_recovery() {
    let node_a = create_node("A00000", 0.0, 0.0);
    let node_c = create_node("C00000", 0.5, 0.0);
    let nodes = vec![node_a, node_c];

    let obs = vec![0xA0, 0xB0, 0xC0];

    let graph = build_graph(nodes, None);
    let result = graph.decode_path(&obs).expect("Viterbi failed");

    assert_eq!(result.len(), 3);
    assert_eq!(result[0], PathNode::Known(0));
    assert_eq!(result[1], PathNode::Unknown(0xB0));
    assert_eq!(result[2], PathNode::Known(1));
}

#[test]
fn graph_tests_test_consecutive_unknowns() {
    let node_a = create_node("A00000", 0.0, 0.0);
    let node_c = create_node("C00000", 1.0, 0.0);
    let nodes = vec![node_a, node_c];

    let obs = vec![0xA0, 0xB0, 0xB1, 0xC0];

    let graph = build_graph(nodes, None);
    let result = graph.decode_path(&obs).expect("Viterbi failed");

    assert_eq!(result.len(), 4);
    assert_eq!(result[0], PathNode::Known(0));
    assert_eq!(result[1], PathNode::Unknown(0xB0));
    assert_eq!(result[2], PathNode::Unknown(0xB1));
    assert_eq!(result[3], PathNode::Known(1));
}

#[test]
fn graph_tests_test_confounding_prefix_mismatch() {
    let node_a = create_node("A00000", 0.0, 0.0);
    let node_c = create_node("C00000", 0.2, 0.0);
    let node_b_bad = create_node("D00000", 0.1, 0.0);

    let nodes = vec![node_a, node_c, node_b_bad];

    let obs = vec![0xA0, 0xB0, 0xC0];

    let graph = build_graph(nodes, None);
    let result = graph.decode_path(&obs).expect("Viterbi failed");

    assert_eq!(result.len(), 3);
    assert_eq!(result[0], PathNode::Known(0));
    assert_eq!(result[1], PathNode::Unknown(0xB0));
    assert_eq!(result[2], PathNode::Known(1));
}

#[test]
fn graph_tests_test_confounding_distance_cost() {
    let node_a = create_node("A00000", 0.0, 0.0);
    let node_c = create_node("C00000", 0.2, 0.0);
    let node_b_far = create_node("B00000", 2.0, 0.0);

    let nodes = vec![node_a, node_c, node_b_far];

    let obs = vec![0xA0, 0xB0, 0xC0];

    let graph = build_graph(nodes, None);
    let result = graph.decode_path(&obs).expect("Viterbi failed");

    assert_eq!(result.len(), 3);
    assert_eq!(result[0], PathNode::Known(0));
    assert_eq!(result[1], PathNode::Unknown(0xB0));
    assert_eq!(result[2], PathNode::Known(1));
}

#[test]
fn viterbi_test_unknown_repeater_recovery() {
    let node_a = create_node("A00000", 0.0, 0.0);
    let node_c = create_node("C00000", 0.5, 0.0);
    let nodes = vec![node_a, node_c];

    let obs = vec![0xA0, 0xB0, 0xC0];

    let graph = build_graph(nodes, None);
    let result = graph.decode_path(&obs).expect("Viterbi failed");

    assert_eq!(result.len(), 3);
    assert_eq!(result[0], PathNode::Known(0));
    assert_eq!(result[1], PathNode::Unknown(0xB0));
    assert_eq!(result[2], PathNode::Known(1));
}

#[test]
fn viterbi_test_consecutive_unknowns() {
    let node_a = create_node("A00000", 0.0, 0.0);
    let node_c = create_node("C00000", 1.0, 0.0);
    let nodes = vec![node_a, node_c];

    let obs = vec![0xA0, 0xB0, 0xB1, 0xC0];

    let graph = build_graph(nodes, None);
    let result = graph.decode_path(&obs).expect("Viterbi failed");

    assert_eq!(result.len(), 4);
    assert_eq!(result[0], PathNode::Known(0));
    assert_eq!(result[1], PathNode::Unknown(0xB0));
    assert_eq!(result[2], PathNode::Unknown(0xB1));
    assert_eq!(result[3], PathNode::Known(1));
}

#[test]
fn viterbi_test_confounding_prefix_mismatch() {
    let node_a = create_node("A00000", 0.0, 0.0);
    let node_c = create_node("C00000", 0.2, 0.0);
    let node_b_bad = create_node("D00000", 0.1, 0.0);

    let nodes = vec![node_a, node_c, node_b_bad];

    let obs = vec![0xA0, 0xB0, 0xC0];

    let graph = build_graph(nodes, None);
    let result = graph.decode_path(&obs).expect("Viterbi failed");

    assert_eq!(result.len(), 3);
    assert_eq!(result[0], PathNode::Known(0));
    assert_eq!(result[1], PathNode::Unknown(0xB0));
    assert_eq!(result[2], PathNode::Known(1));
}

#[test]
fn viterbi_test_confounding_distance_cost() {
    let node_a = create_node("A00000", 0.0, 0.0);
    let node_c = create_node("C00000", 0.2, 0.0);
    let node_b_far = create_node("B00000", 2.0, 0.0);

    let nodes = vec![node_a, node_c, node_b_far];

    let obs = vec![0xA0, 0xB0, 0xC0];

    let graph = build_graph(nodes, None);
    let result = graph.decode_path(&obs).expect("Viterbi failed");

    assert_eq!(result.len(), 3);
    assert_eq!(result[0], PathNode::Known(0));
    assert_eq!(result[1], PathNode::Unknown(0xB0));
    assert_eq!(result[2], PathNode::Known(1));
}

#[test]
fn decode_empty_observation_stream_is_empty_path() {
    let nodes = vec![create_node("A00000", 0.0, 0.0)];
    let graph = build_graph(nodes, None);
    let obs: Vec<u8> = Vec::new();
    let result = graph.decode_path(&obs).expect("Viterbi failed");
    assert!(result.is_empty());
}

#[test]
fn decode_is_deterministic_across_calls() {
    let nodes = vec![
        create_node("A00000", 0.0, 0.0),
        create_node("B00000", 0.0, 0.4),
        create_node("B00001", 0.4, 0.0),
        create_node("C00000", 0.0, 0.8),
    ];
    let obs = vec![0xA0, 0xB0, 0xC0];
    let graph = build_graph(nodes, None);
    let first = graph.decode_path(&obs).expect("Viterbi failed");
    let second = graph.decode_path(&obs).expect("Viterbi failed");
    assert_eq!(first, second);
}

#[test]
fn candidate_pairs_keeps_box_neighbors_only() {
    // Two nodes 0.5 degrees apart lie within the 1.62-degree search box;
    // a third at 30 degrees of longitude does not.
    let nodes = vec![
        create_node("A00000", 0.0, 0.0),
        create_node("B00000", 0.5, 0.5),
        create_node("C00000", 0.0, 30.0),
    ];
    let mut pairs = candidate_pairs(&nodes);
    pairs.sort();
    assert_eq!(pairs, vec![(0, 1), (1, 0)]);
}
