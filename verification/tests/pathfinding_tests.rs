use hoptrace::models::Repeater;
use hoptrace::pathfinding::find_path;

fn udeg(x: f64) -> i64 {
    (x * 1_000_000.0).round() as i64
}

fn deg(x: i64) -> f64 {
    x as f64 / 1_000_000.0
}

fn haversine_km(lat1: f64, lon1: f64, lat2: f64, lon2: f64) -> f64 {
    let lat1_rad = lat1.to_radians();
    let lon1_rad = lon1.to_radians();
    let lat2_rad = lat2.to_radians();
    let lon2_rad = lon2.to_radians();
    let dlat = lat2_rad - lat1_rad;
    let dlon = lon2_rad - lon1_rad;
    let a =
        (dlat / 2.0).sin().powi(2) + lat1_rad.cos() * lat2_rad.cos() * (dlon / 2.0).sin().powi(2);
    let c = 2.0 * a.sqrt().atan2((1.0 - a).sqrt());
    6371.0 * c
}

fn link_cost_micro(lat1: f64, lon1: f64, lat2: f64, lon2: f64) -> Option<i64> {
    let dist_km = haversine_km(lat1, lon1, lat2, lon2);
    if dist_km > 150.0 {
        return None;
    }
    let bulge_m = {
        let d_meters = dist_km * 1000.0;
        (d_meters * d_meters) / (8.0 * 6_371_000.0)
    };
    let dist_prob = 1.0 / (1.0 + (0.15 * (dist_km - 60.0)).exp());
    let bulge_prob = 1.0 / (1.0 + (0.5 * (bulge_m - 40.0)).exp());
    let combined = dist_prob * bulge_prob;
    if combined < 1e-10 {
        Some(1_000_000_000)
    } else {
        Some(((-combined.ln()) * 1_000_000.0).round() as i64)
    }
}

/// All-pairs link cost matrix in micro-units.
fn cost_matrix(nodes: &Vec<Repeater>) -> Vec<Vec<Option<i64>>> {
    let mut costs = Vec::new();
    for a in nodes.iter() {
        let mut row = Vec::new();
        for b in nodes.iter() {
            row.push(link_cost_micro(
                deg(a.lat_udeg),
                deg(a.lon_udeg),
                deg(b.lat_udeg),
                deg(b.lon_udeg),
            ));
        }
        costs.push(row);
    }
    costs
}

fn make(id: &str, name: &str, lat: f64, lon: f64) -> Repeater {
    Repeater {
        id: id.to_string(),
        name: name.to_string(),
        lat_udeg: udeg(lat),
        lon_udeg: udeg(lon),
    }
}

#[test]
fn test_dijkstra_simple_path() {
    let nodes = vec![
        make("000001", "A", 0.0, 0.0),
        make("000002", "B", 0.1, 0.0),
        make("000003", "C", 0.2, 0.0),
    ];

    let costs = cost_matrix(&nodes);
    let path = find_path(&costs, 0, 2).expect("Path should exist");
    assert_eq!(path, vec![0, 1, 2]);
}

#[test]
fn test_dijkstra_no_path() {
    let nodes = vec![
        make("000001", "A", 0.0, 0.0),
        make("000002", "B", 10.0, 0.0),
    ];

    let costs = cost_matrix(&nodes);
    let path = find_path(&costs, 0, 1);
    assert!(path.is_none());
}

#[test]
fn test_dijkstra_shortest_path() {
    let nodes = vec![
        make("00", "S", 0.0, 0.0),
        make("01", "1", 0.05, 0.05),
        make("02", "2", 0.5, 0.5),
        make("03", "E", 0.1, 0.1),
    ];

    let costs = cost_matrix(&nodes);
    let path = find_path(&costs, 0, 3).expect("Path should exist");
    assert_eq!(path, vec![0, 1, 3]);
}
