use hoptrace::graph::candidate_pairs;
use hoptrace::graph::NetworkGraph;
use hoptrace::models::PathNode;
use hoptrace::models::Repeater;
use hoptrace::pathfinding::find_path;
use hoptrace::terrain::TerrainMap;

use rand::rngs::StdRng;
use rand::Rng;
use rand::SeedableRng;

fn udeg(x: f64) -> i64 {
    (x * 1_000_000.0).round() as i64
}

fn deg(x: i64) -> f64 {
    x as f64 / 1_000_000.0
}

fn haversine_km(lat1: f64, lon1: f64, lat2: f64, lon2: f64) -> f64 {
    let lat1_rad = lat1.to_radians();
    let lon1_rad = lon1.to_radians();
    let lat2_rad = lat2.to_radians();
    let lon2_rad = lon2.to_radians();
    let dlat = lat2_rad - lat1_rad;
    let dlon = lon2_rad - lon1_rad;
    let a =
        (dlat / 2.0).sin().powi(2) + lat1_rad.cos() * lat2_rad.cos() * (dlon / 2.0).sin().powi(2);
    let c = 2.0 * a.sqrt().atan2((1.0 - a).sqrt());
    6371.0 * c
}

fn link_cost_micro(
    map: Option<&TerrainMap>,
    lat1: f64,
    lon1: f64,
    lat2: f64,
    lon2: f64,
) -> Option<i64> {
    let dist_km = haversine_km(lat1, lon1, lat2, lon2);
    if dist_km > 150.0 {
        return None;
    }
    if let Some(m) = map {
        let dist_m = (dist_km * 1000.0).round() as u64;
        match m.check_line_of_sight(
            udeg(lat1),
            udeg(lon1),
            30_000,
            udeg(lat2),
            udeg(lon2),
            30_000,
            dist_m,
        ) {
            Ok(true) => {}
            Ok(false) => return Some(2_000_000_000),
            Err(_) => return None,
        }
    }
    let bulge_m = {
        let d_meters = dist_km * 1000.0;
        (d_meters * d_meters) / (8.0 * 6_371_000.0)
    };
    let dist_prob = 1.0 / (1.0 + (0.15 * (dist_km - 60.0)).exp());
    let bulge_prob = 1.0 / (1.0 + (0.5 * (bulge_m - 40.0)).exp());
    let combined = dist_prob * bulge_prob;
    if combined < 1e-10 {
        Some(1_000_000_000)
    } else {
        Some(((-combined.ln()) * 1_000_000.0).round() as i64)
    }
}

fn build_graph(nodes: Vec<Repeater>, map: Option<&TerrainMap>) -> NetworkGraph {
    let pairs = candidate_pairs(&nodes);
    let mut links: Vec<(usize, usize, i64)> = Vec::new();
    for (i, j) in pairs {
        let a = &nodes[i];
        let b = &nodes[j];
        if let Some(c) = link_cost_micro(
            map,
            deg(a.lat_udeg),
            deg(a.lon_udeg),
            deg(b.lat_udeg),
            deg(b.lon_udeg),
        ) {
            links.push((i, j, c));
        }
    }
    NetworkGraph::new(nodes, links)
}

fn cost_matrix(nodes: &Vec<Repeater>) -> Vec<Vec<Option<i64>>> {
    let mut costs = Vec::new();
    for a in nodes.iter() {
        let mut row = Vec::new();
        for b in nodes.iter() {
            row.push(link_cost_micro(
                None,
                deg(a.lat_udeg),
                deg(a.lon_udeg),
                deg(b.lat_udeg),
                deg(b.lon_udeg),
            ));
        }
        costs.push(row);
    }
    costs
}

fn generate_dummy_nodes() -> Vec<Repeater> {
    let center_lat = 51.5074;
    let center_lon = -0.1278;

    let mut nodes = Vec::new();
    let mut rng = StdRng::seed_from_u64(42);

    for i in 0..100 {
        let lat_offset: f64 = rng.random_range(-0.5..0.5);
        let lon_offset: f64 = rng.random_range(-0.8..0.8);

        let id_val: u32 = rng.random_range(0..0xFFFFFF);
        let id_str = format!("{:06X}", id_val);

        nodes.push(Repeater {
            id: id_str,
            name: format!("Node_{}", i),
            lat_udeg: udeg(center_lat + lat_offset),
            lon_udeg: udeg(center_lon + lon_offset),
        });
    }

    nodes.push(Repeater {
        id: "AA1111".to_string(),
        name: "Clash_Local_A".to_string(),
        lat_udeg: udeg(center_lat + 0.1),
        lon_udeg: udeg(center_lon),
    });
    nodes.push(Repeater {
        id: "AA2222".to_string(),
        name: "Clash_Local_B".to_string(),
        lat_udeg: udeg(center_lat + 0.15),
        lon_udeg: udeg(center_lon + 0.3),
    });
    nodes.push(Repeater {
        id: "BB1111".to_string(),
        name: "Clash_Global_C".to_string(),
        lat_udeg: udeg(center_lat),
        lon_udeg: udeg(center_lon),
    });
    nodes.push(Repeater {
        id: "BB2222".to_string(),
        name: "Clash_Global_D".to_string(),
        lat_udeg: udeg(center_lat + 1.0),
        lon_udeg: udeg(center_lon + 0.5),
    });
    nodes.push(Repeater {
        id: "CC00D1".to_string(),
        name: "Bridge_1".to_string(),
        lat_udeg: udeg(center_lat + 0.7),
        lon_udeg: udeg(center_lon + 0.2),
    });

    nodes
}

fn find_node_idx(nodes: &[Repeater], id: &str) -> Option<usize> {
    nodes.iter().position(|n| n.id == id)
}

fn find_closest(nodes: &[Repeater], target_idx: usize) -> usize {
    let t = &nodes[target_idx];
    let mut best_dist = f64::INFINITY;
    let mut best_idx = 0;

    for (i, n) in nodes.iter().enumerate() {
        if i == target_idx {
            continue;
        }
        let d = haversine_km(deg(t.lat_udeg), deg(t.lon_udeg), deg(n.lat_udeg), deg(n.lon_udeg));
        if d < best_dist {
            best_dist = d;
            best_idx = i;
        }
    }
    best_idx
}

fn verify_path_reconstruction(nodes: &Vec<Repeater>, ground_truth_indices: &[usize]) {
    let prefixes: Vec<u8> = ground_truth_indices
        .iter()
        .map(|&idx| nodes[idx].prefix())
        .collect();

    let graph = build_graph(nodes.clone(), None);
    let reconstructed_path = graph.decode_path(&prefixes).expect("Viterbi failed to decode path");

    let reconstructed_indices: Vec<usize> = reconstructed_path
        .iter()
        .map(|node| match node {
            PathNode::Known(idx) => *idx as usize,
            PathNode::Unknown(prefix) => panic!(
                "Unexpected Unknown node with prefix {:02x} in fully known scenario",
                prefix
            ),
        })
        .collect();

    assert_eq!(
        reconstructed_indices, ground_truth_indices,
        "Viterbi reconstructed path does not match ground truth"
    );
}

#[test]
fn test_general_connectivity() {
    let nodes = generate_dummy_nodes();
    let start_node = 0;
    let end_node = 15;

    let costs = cost_matrix(&nodes);
    if let Some(path) = find_path(&costs, start_node, end_node) {
        verify_path_reconstruction(&nodes, &path);
    } else {
        panic!("No path found for general connectivity test");
    }
}

#[test]
fn test_local_clash_resolution() {
    let nodes = generate_dummy_nodes();
    let clash_local_a_idx = find_node_idx(&nodes, "AA1111").expect("Node AA1111 not found");
    let clash_local_b_idx = find_node_idx(&nodes, "AA2222").expect("Node AA2222 not found");

    let costs = cost_matrix(&nodes);

    let neighbor_idx = find_closest(&nodes, clash_local_a_idx);
    if let Some(path) = find_path(&costs, neighbor_idx, clash_local_a_idx) {
        verify_path_reconstruction(&nodes, &path);
    } else {
        panic!("No path found to local clash A");
    }

    let neighbor_b_idx = find_closest(&nodes, clash_local_b_idx);
    if let Some(path) = find_path(&costs, neighbor_b_idx, clash_local_b_idx) {
        verify_path_reconstruction(&nodes, &path);
    } else {
        panic!("No path found to local clash B");
    }
}

#[test]
fn test_global_clash_resolution() {
    let nodes = generate_dummy_nodes();
    let clash_global_c_idx = find_node_idx(&nodes, "BB1111").expect("Node BB1111 not found");
    let clash_global_d_idx = find_node_idx(&nodes, "BB2222").expect("Node BB2222 not found");

    let costs = cost_matrix(&nodes);

    let neighbor_c_idx = find_closest(&nodes, clash_global_c_idx);
    if let Some(path) = find_path(&costs, neighbor_c_idx, clash_global_c_idx) {
        verify_path_reconstruction(&nodes, &path);
    } else {
        panic!("No path found to global clash C");
    }

    let neighbor_d_idx = find_closest(&nodes, clash_global_d_idx);
    if let Some(path) = find_path(&costs, neighbor_d_idx, clash_global_d_idx) {
        verify_path_reconstruction(&nodes, &path);
    } else {
        panic!("No path found to global clash D");
    }
}

#[test]
fn test_complex_multipath() {
    let center_lat = 51.0;
    let center_lon = 0.0;

    let mut nodes = Vec::new();

    nodes.push(Repeater {
        id: "000000".to_string(),
        name: "Start".to_string(),
        lat_udeg: udeg(center_lat),
        lon_udeg: udeg(center_lon),
    });

    for i in 1..=3 {
        let lon_offset = i as f64 * 0.2;
        for j in -1..=1 {
            let lat_offset = j as f64 * 0.1;
            let row_digit = j + 1;
            let id = format!("{}{:x}0000", i, row_digit);

            nodes.push(Repeater {
                id,
                name: format!("Grid_{}_{}", i, j),
                lat_udeg: udeg(center_lat + lat_offset),
                lon_udeg: udeg(center_lon + lon_offset),
            });
        }
    }

    nodes.push(Repeater {
        id: "990000".to_string(),
        name: "Shortcut".to_string(),
        lat_udeg: udeg(center_lat + 0.3),
        lon_udeg: udeg(center_lon + 0.4),
    });

    nodes.push(Repeater {
        id: "EE0000".to_string(),
        name: "End".to_string(),
        lat_udeg: udeg(center_lat),
        lon_udeg: udeg(center_lon + 0.8),
    });
    let end_idx = nodes.len() - 1;

    let start_idx = 0;

    let costs = cost_matrix(&nodes);
    if let Some(path) = find_path(&costs, start_idx, end_idx) {
        println!("Found path: {:?}", path);

        let expected_ids = vec!["000000", "110000", "210000", "310000", "EE0000"];

        let expected_indices: Vec<usize> = expected_ids
            .iter()
            .map(|id| find_node_idx(&nodes, id).unwrap_or_else(|| panic!("Node {} not found", id)))
            .collect();

        assert_eq!(
            path, expected_indices,
            "Path found {:?} does not match expected specific path {:?}",
            path, expected_indices
        );

        verify_path_reconstruction(&nodes, &path);
    } else {
        panic!("No path found for complex multipath test");
    }
}

#[test]
fn test_viterbi_with_terrain() {
    let center_lat = 0.0;
    let center_lon = 0.0;

    // A flat 50 by 50 km map at 30 m resolution.
    let km_per_deg_lat = 111.0;
    let km_per_deg_lon = 111.0 * (center_lat as f64).to_radians().cos();
    let height_deg = 50.0 / km_per_deg_lat;
    let width_deg = 50.0 / km_per_deg_lon;
    let min_lat = center_lat - height_deg / 2.0;
    let max_lat = center_lat + height_deg / 2.0;
    let min_lon = center_lon - width_deg / 2.0;
    let max_lon = center_lon + width_deg / 2.0;
    let rows = (50.0f64 * 1000.0 / 30.0).ceil() as usize;
    let cols = (50.0f64 * 1000.0 / 30.0).ceil() as usize;

    let mut map = TerrainMap::new_flat(
        udeg(min_lat),
        udeg(max_lat),
        udeg(min_lon),
        udeg(max_lon),
        rows,
        cols,
    );

    // A kilometer-high wall along the vertical center line, wide enough to
    // block adjacent rays.
    {
        let tile = &mut map.tiles[0];
        let mid_col = tile.width / 2;
        for r in 0..tile.height {
            tile.data[r * tile.width + mid_col] = 1_000_000;
            for offset in 1..20 {
                if mid_col + offset < tile.width {
                    tile.data[r * tile.width + mid_col + offset] = 1_000_000;
                }
                if mid_col >= offset {
                    tile.data[r * tile.width + mid_col - offset] = 1_000_000;
                }
            }
        }
        // A gap across the wall in the southernmost tenth of the rows.
        for r in 0..(tile.height / 10) {
            for offset in 0..20 {
                if mid_col + offset < tile.width {
                    tile.data[r * tile.width + mid_col + offset] = 0;
                }
                if mid_col >= offset {
                    tile.data[r * tile.width + mid_col - offset] = 0;
                }
            }
        }
    }

    let start = Repeater {
        id: "A00000".to_string(),
        name: "Start".to_string(),
        lat_udeg: udeg(0.0),
        lon_udeg: udeg(-0.2),
    };

    let end = Repeater {
        id: "C00000".to_string(),
        name: "End".to_string(),
        lat_udeg: udeg(0.0),
        lon_udeg: udeg(0.2),
    };

    let mid_blocked = Repeater {
        id: "B10000".to_string(),
        name: "Blocked".to_string(),
        lat_udeg: udeg(0.0),
        lon_udeg: udeg(0.1),
    };

    let gap_lat = min_lat + 0.02;
    let mid_detour = Repeater {
        id: "B20000".to_string(),
        name: "Detour".to_string(),
        lat_udeg: udeg(gap_lat),
        lon_udeg: udeg(0.0),
    };

    let nodes = vec![start.clone(), end.clone(), mid_blocked.clone(), mid_detour.clone()];

    let obs_easy = vec![0xA0, 0xB2, 0xC0];
    let graph = build_graph(nodes, Some(&map));
    let path_easy = graph.decode_path(&obs_easy).unwrap();
    if let PathNode::Known(idx) = path_easy[1] {
        assert_eq!(idx, 3, "Should pick Detour node");
    } else {
        panic!("Should be known node");
    }

    let mid_blocked_b0 = Repeater {
        id: "B00001".to_string(),
        name: "Blocked_B0".to_string(),
        lat_udeg: udeg(0.0),
        lon_udeg: udeg(0.1),
    };
    let mid_detour_b0 = Repeater {
        id: "B00002".to_string(),
        name: "Detour_B0".to_string(),
        lat_udeg: udeg(gap_lat),
        lon_udeg: udeg(0.0),
    };

    let nodes_ambiguous = vec![start.clone(), end.clone(), mid_blocked_b0, mid_detour_b0];
    let obs_ambiguous = vec![0xA0, 0xB0, 0xC0];

    let graph_ambiguous = build_graph(nodes_ambiguous, Some(&map));
    let path_ambiguous = graph_ambiguous.decode_path(&obs_ambiguous).unwrap();

    if let PathNode::Known(idx) = path_ambiguous[1] {
        assert_eq!(idx, 3, "Should pick Detour node (index 3) over Blocked (index 2)");
    } else {
        panic!("Should be known node");
    }
}
