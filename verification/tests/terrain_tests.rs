use hoptrace::physics::earth_bulge;
use hoptrace::terrain::RasterError;
use hoptrace::terrain::TerrainError;
use hoptrace::terrain::TerrainMap;
use hoptrace::terrain::TerrainTile;

#[test]
fn test_terrain_tile_get_elevation() {
    // A 10 by 10 tile over one degree square, elevation gradient
    // `row + column` in meters, stored in millimeters.
    let width = 10;
    let height = 10;

    let mut data = vec![0i64; width * height];
    for r in 0..height {
        for c in 0..width {
            data[r * width + c] = ((r + c) as i64) * 1000;
        }
    }

    let tile = TerrainTile {
        min_lat: 0,
        min_lon: 0,
        max_lat: 1_000_000,
        max_lon: 1_000_000,
        width,
        height,
        data,
    };

    assert_eq!(tile.get_elevation(0, 0), 0);
    assert_eq!(tile.get_elevation(1_000_000, 1_000_000), 18_000);
    assert_eq!(tile.get_elevation(500_000, 500_000), 9_000);
}

#[test]
fn test_terrain_map_multiple_tiles() {
    let t1 = TerrainTile {
        min_lat: 0,
        max_lat: 1_000_000,
        min_lon: 0,
        max_lon: 1_000_000,
        width: 2,
        height: 2,
        data: vec![10_000, 10_000, 10_000, 10_000],
    };

    let t2 = TerrainTile {
        min_lat: 1_000_000,
        max_lat: 2_000_000,
        min_lon: 1_000_000,
        max_lon: 2_000_000,
        width: 2,
        height: 2,
        data: vec![20_000, 20_000, 20_000, 20_000],
    };

    let map = TerrainMap::new(vec![t1, t2]);

    assert_eq!(map.get_elevation(500_000, 500_000), Some(10_000));
    assert_eq!(map.get_elevation(1_500_000, 1_500_000), Some(20_000));
    assert_eq!(map.get_elevation(500_000, 1_500_000), None);
}

#[test]
fn test_earth_bulge() {
    // For 100 km the bulge is about 196 m.
    let b = earth_bulge(100_000);
    assert!((b as i64 - 196).abs() < 1);
}

#[test]
fn line_of_sight_blocked_by_wall() {
    // Flat map with a two-kilometer wall between two points thirty meters
    // above the ground.
    let width = 100;
    let height = 3;
    let mut data = vec![0i64; width * height];
    for r in 0..height {
        data[r * width + width / 2] = 2_000_000;
    }
    let tile = TerrainTile {
        min_lat: -100_000,
        max_lat: 100_000,
        min_lon: -100_000,
        max_lon: 100_000,
        width,
        height,
        data,
    };
    let map = TerrainMap::new(vec![tile]);

    // About 11 km across the wall.
    let r = map.check_line_of_sight(0, -50_000, 30_000, 0, 50_000, 30_000, 11_100);
    assert_eq!(r, Ok(false));

    // A clear ray away from the wall.
    let clear = map.check_line_of_sight(0, -90_000, 30_000, 0, -60_000, 30_000, 3_330);
    assert_eq!(clear, Ok(true));
}

#[test]
fn line_of_sight_missing_data_is_an_error() {
    let tile = TerrainTile {
        min_lat: 0,
        max_lat: 1_000_000,
        min_lon: 0,
        max_lon: 1_000_000,
        width: 2,
        height: 2,
        data: vec![0, 0, 0, 0],
    };
    let map = TerrainMap::new(vec![tile]);

    // Start point outside the tile.
    let r = map.check_line_of_sight(-500_000, 500_000, 30_000, 500_000, 500_000, 30_000, 111_000);
    assert_eq!(r, Err(TerrainError::MissingStart));

    // End point outside the tile.
    let r2 = map.check_line_of_sight(500_000, 500_000, 30_000, 1_500_000, 500_000, 30_000, 111_000);
    assert_eq!(r2, Err(TerrainError::MissingEnd));

    // A gap between two tiles is detected along the path.
    let ta = TerrainTile {
        min_lat: 0,
        max_lat: 33_000,
        min_lon: 0,
        max_lon: 1_000_000,
        width: 2,
        height: 2,
        data: vec![0, 0, 0, 0],
    };
    let tb = TerrainTile {
        min_lat: 66_000,
        max_lat: 100_000,
        min_lon: 0,
        max_lon: 1_000_000,
        width: 2,
        height: 2,
        data: vec![0, 0, 0, 0],
    };
    let gap_map = TerrainMap::new(vec![ta, tb]);
    let r3 = gap_map.check_line_of_sight(10_000, 500_000, 30_000, 90_000, 500_000, 30_000, 8_900);
    assert_eq!(r3, Err(TerrainError::MissingAlongPath));
}

#[test]
fn from_raster_flips_rows_and_derives_bounds() {
    // Two rows: the top row of the raster must land at max_lat, that is
    // at row 1 of the tile.
    let rows_top_down = vec![11, 12, 21, 22];
    let tile = TerrainTile::from_raster(0, 2_000_000, 1_000_000, 1_000_000, 2, 2, rows_top_down)
        .expect("raster should load");
    assert_eq!(tile.min_lon, 0);
    assert_eq!(tile.max_lon, 2_000_000);
    assert_eq!(tile.max_lat, 2_000_000);
    assert_eq!(tile.min_lat, 0);
    // Row 0 of the tile (at min_lat) holds the bottom raster row.
    assert_eq!(tile.data, vec![21, 22, 11, 12]);
}

#[test]
fn from_raster_rejects_bad_input() {
    assert!(matches!(
        TerrainTile::from_raster(0, 2_000_000, 0, 1_000_000, 2, 2, vec![0, 0, 0, 0]),
        Err(RasterError::BadGeometry)
    ));
    assert!(matches!(
        TerrainTile::from_raster(0, 2_000_000, 1_000_000, 1_000_000, 2, 2, vec![0, 0, 0]),
        Err(RasterError::LengthMismatch)
    ));
    assert!(matches!(
        TerrainTile::from_raster(
            0,
            2_000_000,
            1_000_000,
            1_000_000,
            2,
            2,
            vec![0, 0, 0, 60_000_000_000],
        ),
        Err(RasterError::ElevationOutOfRange)
    ));
}
