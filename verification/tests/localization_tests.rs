use hoptrace::localization::collect_midpoints;
use hoptrace::localization::dbscan;
use hoptrace::localization::localize_unknowns;
use hoptrace::localization::InferredRepeater;
use hoptrace::localization::Midpoint;
use hoptrace::models::PathNode;
use hoptrace::models::Repeater;

fn udeg(x: f64) -> i64 {
    (x * 1_000_000.0).round() as i64
}

fn deg(x: i64) -> f64 {
    x as f64 / 1_000_000.0
}

fn haversine_km(lat1: f64, lon1: f64, lat2: f64, lon2: f64) -> f64 {
    let lat1_rad = lat1.to_radians();
    let lon1_rad = lon1.to_radians();
    let lat2_rad = lat2.to_radians();
    let lon2_rad = lon2.to_radians();
    let dlat = lat2_rad - lat1_rad;
    let dlon = lon2_rad - lon1_rad;
    let a =
        (dlat / 2.0).sin().powi(2) + lat1_rad.cos() * lat2_rad.cos() * (dlon / 2.0).sin().powi(2);
    let c = 2.0 * a.sqrt().atan2((1.0 - a).sqrt());
    6371.0 * c
}

fn make_repeater(id: &str, lat: f64, lon: f64) -> Repeater {
    Repeater {
        id: id.to_string(),
        name: "Test".to_string(),
        lat_udeg: udeg(lat),
        lon_udeg: udeg(lon),
    }
}

/// Neighborhood matrix of the midpoints at the 50 km clustering radius.
fn near_matrix(mids: &Vec<Midpoint>) -> Vec<Vec<bool>> {
    let mut near = Vec::new();
    for a in mids.iter() {
        let mut row = Vec::new();
        for b in mids.iter() {
            let d = haversine_km(
                deg(a.lat_udeg),
                deg(a.lon_udeg),
                deg(b.lat_udeg),
                deg(b.lon_udeg),
            );
            row.push(d <= 50.0);
        }
        near.push(row);
    }
    near
}

fn localize(paths: &Vec<Vec<PathNode>>, known: &Vec<Repeater>) -> Vec<InferredRepeater> {
    let mids = collect_midpoints(paths, known);
    let near = near_matrix(&mids);
    localize_unknowns(&mids, &near)
}

#[test]
fn test_localize_simple_midpoint() {
    let k1 = make_repeater("0x1111", 0.0, 0.0);
    let k2 = make_repeater("0x2222", 0.0, 2.0);
    let known_nodes = vec![k1, k2];

    let path = vec![
        PathNode::Known(0),
        PathNode::Unknown(0xAA),
        PathNode::Known(1),
    ];

    let paths = vec![path];

    let results = localize(&paths, &known_nodes);

    assert_eq!(results.len(), 1);
    let res = &results[0];
    assert_eq!(res.prefix, "aa");
    assert_eq!(res.lat_udeg, 0);
    assert_eq!(res.lon_udeg, 1_000_000);
    assert_eq!(res.observation_count, 1);
}

#[test]
fn test_localize_multiple_observations_cluster() {
    let k1 = make_repeater("0x1111", 0.0, 0.0);
    let k2 = make_repeater("0x2222", 0.0, 2.0);
    let k3 = make_repeater("0x3333", 1.0, 1.0);
    let k4 = make_repeater("0x4444", -1.0, 1.0);
    let known_nodes = vec![k1, k2, k3, k4];

    let path1 = vec![
        PathNode::Known(0),
        PathNode::Unknown(0xBB),
        PathNode::Known(1),
    ];
    let path2 = vec![
        PathNode::Known(2),
        PathNode::Unknown(0xBB),
        PathNode::Known(3),
    ];

    let paths = vec![path1, path2];

    let results = localize(&paths, &known_nodes);

    assert_eq!(results.len(), 1);
    let res = &results[0];
    assert_eq!(res.prefix, "bb");
    assert_eq!(res.lat_udeg, 0);
    assert_eq!(res.lon_udeg, 1_000_000);
    assert_eq!(res.observation_count, 2);
}

#[test]
fn test_localize_split_clusters() {
    let k1 = make_repeater("0x11", -0.1, 0.0);
    let k2 = make_repeater("0x22", 0.1, 0.0);
    let k3 = make_repeater("0x33", 9.9, 10.0);
    let k4 = make_repeater("0x44", 10.1, 10.0);

    let known_nodes = vec![k1, k2, k3, k4];

    let path1 = vec![
        PathNode::Known(0),
        PathNode::Unknown(0xCC),
        PathNode::Known(1),
    ];
    let path2 = vec![
        PathNode::Known(2),
        PathNode::Unknown(0xCC),
        PathNode::Known(3),
    ];

    let paths = vec![path1, path2];

    let results = localize(&paths, &known_nodes);

    assert_eq!(results.len(), 2);

    let r1 = &results[0];
    let r2 = &results[1];

    assert_eq!(r1.prefix, "cc");
    assert_eq!(r1.lat_udeg, 0);
    assert_eq!(r1.lon_udeg, 0);

    assert_eq!(r2.prefix, "cc");
    assert_eq!(r2.lat_udeg, 10_000_000);
    assert_eq!(r2.lon_udeg, 10_000_000);
}

#[test]
fn test_localize_ignore_non_triplets() {
    let k1 = make_repeater("0x11", 0.0, 0.0);
    let k2 = make_repeater("0x22", 0.0, 2.0);
    let known_nodes = vec![k1, k2];

    let path = vec![
        PathNode::Known(0),
        PathNode::Unknown(0xDD),
        PathNode::Unknown(0xEE),
        PathNode::Known(1),
    ];

    let paths = vec![path];

    let results = localize(&paths, &known_nodes);
    assert!(results.is_empty());
}

fn point_near_matrix(points: &Vec<(f64, f64)>, epsilon_km: f64) -> Vec<Vec<bool>> {
    let mut near = Vec::new();
    for a in points.iter() {
        let mut row = Vec::new();
        for b in points.iter() {
            row.push(haversine_km(a.0, a.1, b.0, b.1) <= epsilon_km);
        }
        near.push(row);
    }
    near
}

#[test]
fn test_dbscan_clustering_basic() {
    // Two close points and one far away, radius twenty kilometers.
    let points = vec![(0.0, 0.0), (0.0, 0.1), (10.0, 10.0)];

    let near = point_near_matrix(&points, 20.0);
    let clusters = dbscan(&near, 1);
    assert_eq!(clusters.len(), 2);
}

#[test]
fn test_dbscan_noise_filtering() {
    // With two minimum points the isolated point is noise.
    let points = vec![(0.0, 0.0), (0.0, 0.0001), (10.0, 10.0)];

    let near = point_near_matrix(&points, 1.0);
    let clusters = dbscan(&near, 2);

    assert_eq!(clusters.len(), 1);
    assert_eq!(clusters[0].len(), 2);
}

#[test]
fn localize_counts_every_triplet_once() {
    // Three triplets under two prefixes: the observation counts add up.
    let k1 = make_repeater("0x11", 0.0, 0.0);
    let k2 = make_repeater("0x22", 0.0, 0.2);
    let known_nodes = vec![k1, k2];

    let paths = vec![
        vec![PathNode::Known(0), PathNode::Unknown(0xAA), PathNode::Known(1)],
        vec![PathNode::Known(1), PathNode::Unknown(0xAA), PathNode::Known(0)],
        vec![PathNode::Known(0), PathNode::Unknown(0xBB), PathNode::Known(1)],
    ];

    let results = localize(&paths, &known_nodes);
    let total: usize = results.iter().map(|r| r.observation_count).sum();
    assert_eq!(total, 3);
    // Sorted by prefix.
    assert_eq!(results[0].prefix, "aa");
    assert_eq!(results[results.len() - 1].prefix, "bb");
}
