use vstd::prelude::*;

verus! {

use crate::models::valid_coords;
use crate::numeric::div_floor_i64;

use vstd::arithmetic::div_mod::lemma_div_is_ordered;
use vstd::arithmetic::div_mod::lemma_div_multiples_vanish;

/// Fixed-point scale of the interpolation fractions: elevations are
/// interpolated on a grid of 1/65536-cell positions.
pub const INTERP_Q: u64 = 65536;

/// Bound on an elevation sample, in millimeters (fifty kilometers).
pub const ELEV_LIMIT_MM: i64 = 50_000_000;

/// Largest accepted tile dimension, in samples.
pub const MAX_TILE_DIM: usize = 65536;

/// An axis-aligned rectangle of elevation samples. Bounds are in
/// microdegrees; `data` holds `height` rows of `width` samples in
/// millimeters, row-major, row 0 at `min_lat`.
pub struct TerrainTile {
    pub min_lat: i64,
    pub min_lon: i64,
    pub max_lat: i64,
    pub max_lon: i64,
    pub width: usize,
    pub height: usize,
    pub data: Vec<i64>,
}

impl TerrainTile {
    /// A geometrically sound tile: non-degenerate bounds on the WGS-84 grid,
    /// a non-empty grid of bounded samples.
    pub open spec fn wf(&self) -> bool {
        &&& valid_coords(self.min_lat, self.min_lon)
        &&& valid_coords(self.max_lat, self.max_lon)
        &&& self.min_lat < self.max_lat
        &&& self.min_lon < self.max_lon
        &&& 1 <= self.width <= MAX_TILE_DIM
        &&& 1 <= self.height <= MAX_TILE_DIM
        &&& self.data.len() == self.width * self.height
        &&& forall|k: int|
            0 <= k < self.data.len() ==> -ELEV_LIMIT_MM <= #[trigger] self.data[k]
                <= ELEV_LIMIT_MM
    }

    pub open spec fn spec_contains(&self, lat_udeg: int, lon_udeg: int) -> bool {
        &&& self.min_lat <= lat_udeg <= self.max_lat
        &&& self.min_lon <= lon_udeg <= self.max_lon
    }

    /// Whether the point lies within the tile's rectangle (closed bounds).
    pub fn contains(&self, lat_udeg: i64, lon_udeg: i64) -> (r: bool)
        ensures
            r == self.spec_contains(lat_udeg as int, lon_udeg as int),
    {
        lat_udeg >= self.min_lat && lat_udeg <= self.max_lat && lon_udeg >= self.min_lon
            && lon_udeg <= self.max_lon
    }

    /// The elevation of the point, by bilinear interpolation over the four
    /// surrounding samples on the 1/65536-cell fixed-point grid; 0 outside
    /// the tile. Row index grows with latitude.
    pub open spec fn spec_elevation(&self, lat_udeg: int, lon_udeg: int) -> int {
        if !self.spec_contains(lat_udeg, lon_udeg) {
            0
        } else {
            let q = INTERP_Q as int;
            let rq = (lat_udeg - self.min_lat) * (self.height - 1) * q / (self.max_lat
                - self.min_lat);
            let cq = (lon_udeg - self.min_lon) * (self.width - 1) * q / (self.max_lon
                - self.min_lon);
            let r0 = rq / q;
            let dr = rq % q;
            let c0 = cq / q;
            let dc = cq % q;
            let r1 = if r0 + 1 < self.height { r0 + 1 } else { self.height - 1 };
            let c1 = if c0 + 1 < self.width { c0 + 1 } else { self.width - 1 };
            let e00 = self.data[r0 * self.width + c0] as int;
            let e01 = self.data[r0 * self.width + c1] as int;
            let e10 = self.data[r1 * self.width + c0] as int;
            let e11 = self.data[r1 * self.width + c1] as int;
            let low = (q - dc) * e00 + dc * e01;
            let high = (q - dc) * e10 + dc * e11;
            ((q - dr) * low + dr * high) / (q * q)
        }
    }

    /// Elevation lookup, in millimeters.
    pub fn get_elevation(&self, lat_udeg: i64, lon_udeg: i64) -> (r: i64)
        requires
            self.wf(),
            valid_coords(lat_udeg, lon_udeg),
        ensures
            r == self.spec_elevation(lat_udeg as int, lon_udeg as int),
            -ELEV_LIMIT_MM <= r <= ELEV_LIMIT_MM,
    {
        if !self.contains(lat_udeg, lon_udeg) {
            return 0;
        }
        let q: u64 = INTERP_Q;
        let (r0, dr): (usize, u64) = axis_position(
            lat_udeg,
            self.min_lat,
            self.max_lat,
            self.height,
        );
        let (c0, dc): (usize, u64) = axis_position(lon_udeg, self.min_lon, self.max_lon, self.width);
        let r1: usize = if r0 + 1 < self.height {
            r0 + 1
        } else {
            self.height - 1
        };
        let c1: usize = if c0 + 1 < self.width {
            c0 + 1
        } else {
            self.width - 1
        };
        proof {
            lemma_grid_index(r0 as int, c0 as int, self.height as int, self.width as int);
            lemma_grid_index(r0 as int, c1 as int, self.height as int, self.width as int);
            lemma_grid_index(r1 as int, c0 as int, self.height as int, self.width as int);
            lemma_grid_index(r1 as int, c1 as int, self.height as int, self.width as int);
            assert(self.height * self.width == self.width * self.height) by (nonlinear_arith);
        }
        let e00 = self.data[r0 * self.width + c0];
        let e01 = self.data[r0 * self.width + c1];
        let e10 = self.data[r1 * self.width + c0];
        let e11 = self.data[r1 * self.width + c1];
        proof {
            lemma_weighted_sum_bound(dc as int, e00 as int, e01 as int, ELEV_LIMIT_MM as int);
            lemma_weighted_sum_bound(dc as int, e10 as int, e11 as int, ELEV_LIMIT_MM as int);
        }
        let low: i64 = (q - dc) as i64 * e00 + (dc as i64) * e01;
        let high: i64 = (q - dc) as i64 * e10 + (dc as i64) * e11;
        proof {
            lemma_weighted_sum_bound(
                dr as int,
                low as int,
                high as int,
                (INTERP_Q as int) * (ELEV_LIMIT_MM as int),
            );
        }
        let num: i64 = (q - dr) as i64 * low + (dr as i64) * high;
        let r = div_floor_i64(num, q * q);
        proof {
            lemma_interp_result_bound(num as int, (q * q) as int);
        }
        r
    }
}

/// Fixed-point position of `pos` along an axis from `lo` to `hi` with
/// `cells` samples: whole sample index and 1/65536 fraction.
fn axis_position(pos: i64, lo: i64, hi: i64, cells: usize) -> (r: (usize, u64))
    requires
        -180_000_000 <= lo < hi <= 180_000_000,
        lo <= pos <= hi,
        1 <= cells <= MAX_TILE_DIM,
    ensures
        r.0 == (pos - lo) * (cells - 1) * (INTERP_Q as int) / ((hi - lo) as int) / (
        INTERP_Q as int),
        r.1 == (pos - lo) * (cells - 1) * (INTERP_Q as int) / ((hi - lo) as int) % (
        INTERP_Q as int),
        r.0 <= cells - 1,
        r.1 < INTERP_Q,
{
    let off: u64 = (pos - lo) as u64;
    let span: u64 = (hi - lo) as u64;
    let n1: u64 = (cells - 1) as u64;
    proof {
        assert(off * n1 * (INTERP_Q as int) <= 360_000_000 * 65535 * 65536) by (nonlinear_arith)
            requires
                0 <= off <= 360_000_000,
                0 <= n1 <= 65535,
        ;
    }
    let scaled: u64 = off * n1 * INTERP_Q;
    let pq: u64 = scaled / span;
    let idx: u64 = pq / INTERP_Q;
    let frac: u64 = pq % INTERP_Q;
    proof {
        // pq <= n1 * Q, so idx <= n1
        assert(off * n1 * (INTERP_Q as int) <= span * (n1 * (INTERP_Q as int)))
            by (nonlinear_arith)
            requires
                0 <= off <= span,
                0 <= n1,
        ;
        lemma_div_is_ordered(
            off * n1 * (INTERP_Q as int),
            span * (n1 * (INTERP_Q as int)),
            span as int,
        );
        lemma_div_multiples_vanish(n1 * (INTERP_Q as int), span as int);
        lemma_div_is_ordered(pq as int, n1 * (INTERP_Q as int), INTERP_Q as int);
        lemma_div_multiples_vanish(n1 as int, INTERP_Q as int);
    }
    (idx as usize, frac)
}

proof fn lemma_grid_index(r: int, c: int, h: int, w: int)
    requires
        0 <= r < h,
        0 <= c < w,
    ensures
        0 <= r * w + c < h * w,
{
    assert(r * w + c < h * w) by (nonlinear_arith)
        requires
            r < h,
            c < w,
            0 <= r,
            0 <= c,
            0 < w,
    ;
    assert(0 <= r * w) by (nonlinear_arith)
        requires
            0 <= r,
            0 <= w,
    ;
}

/// Bound on a product of a bounded weight and a bounded value.
proof fn lemma_scaled_bound(w: int, x: int, wmax: int, m: int)
    requires
        0 <= w <= wmax,
        -m <= x <= m,
        0 <= m,
    ensures
        -(wmax * m) <= w * x <= wmax * m,
{
    assert(-(wmax * m) <= w * x <= wmax * m) by (nonlinear_arith)
        requires
            0 <= w <= wmax,
            -m <= x <= m,
            0 <= m,
    ;
}

/// Bound on a convex combination with weights summing to `INTERP_Q`.
proof fn lemma_weighted_sum_bound(d: int, x: int, y: int, m: int)
    requires
        0 <= d <= INTERP_Q,
        -m <= x <= m,
        -m <= y <= m,
        0 <= m,
    ensures
        -((INTERP_Q as int) * m) <= (INTERP_Q - d) * x + d * y <= (INTERP_Q as int) * m,
        -((INTERP_Q as int) * m) <= (INTERP_Q - d) * x <= (INTERP_Q as int) * m,
        -((INTERP_Q as int) * m) <= d * y <= (INTERP_Q as int) * m,
{
    let q = INTERP_Q as int;
    lemma_scaled_bound(q - d, x, q, m);
    lemma_scaled_bound(d, y, q, m);
    assert((q - d) * x + d * y <= q * m) by (nonlinear_arith)
        requires
            0 <= d <= q,
            -m <= x <= m,
            -m <= y <= m,
            0 <= m,
    ;
    assert(-(q * m) <= (q - d) * x + d * y) by (nonlinear_arith)
        requires
            0 <= d <= q,
            -m <= x <= m,
            -m <= y <= m,
            0 <= m,
    ;
}

proof fn lemma_interp_result_bound(num: int, qq: int)
    requires
        qq == (INTERP_Q as int) * (INTERP_Q as int),
        -qq * (ELEV_LIMIT_MM as int) <= num <= qq * (ELEV_LIMIT_MM as int),
    ensures
        -ELEV_LIMIT_MM <= num / qq <= ELEV_LIMIT_MM,
{
    let e = ELEV_LIMIT_MM as int;
    lemma_div_is_ordered(-qq * e, num, qq);
    lemma_div_is_ordered(num, qq * e, qq);
    lemma_div_multiples_vanish(e, qq);
    lemma_div_multiples_vanish(-e, qq);
    assert(qq * e == e * qq) by (nonlinear_arith);
    assert(-qq * e == -e * qq) by (nonlinear_arith);
}

/// An ordered collection of tiles; the first tile that contains a queried
/// point decides its elevation.
pub struct TerrainMap {
    pub tiles: Vec<TerrainTile>,
}

/// Elevation of the point under the first tile that contains it.
pub open spec fn spec_map_elevation(tiles: Seq<TerrainTile>, lat_udeg: int, lon_udeg: int) -> Option<
    int,
>
    decreases tiles.len(),
{
    if tiles.len() == 0 {
        None
    } else if tiles[0].spec_contains(lat_udeg, lon_udeg) {
        Some(tiles[0].spec_elevation(lat_udeg, lon_udeg))
    } else {
        spec_map_elevation(tiles.drop_first(), lat_udeg, lon_udeg)
    }
}

impl TerrainMap {
    pub open spec fn wf(&self) -> bool {
        forall|k: int| 0 <= k < self.tiles.len() ==> (#[trigger] self.tiles[k]).wf()
    }

    pub fn new(tiles: Vec<TerrainTile>) -> (m: TerrainMap)
        ensures
            m.tiles == tiles,
    {
        TerrainMap { tiles }
    }

    /// Elevation at the point in millimeters, or `None` where no tile covers
    /// it. Overlaps are resolved by the order of the tiles.
    pub fn get_elevation(&self, lat_udeg: i64, lon_udeg: i64) -> (r: Option<i64>)
        requires
            self.wf(),
            valid_coords(lat_udeg, lon_udeg),
        ensures
            match r {
                Some(e) => {
                    &&& spec_map_elevation(self.tiles@, lat_udeg as int, lon_udeg as int) == Some(
                        e as int,
                    )
                    &&& -ELEV_LIMIT_MM <= e <= ELEV_LIMIT_MM
                },
                None => spec_map_elevation(self.tiles@, lat_udeg as int, lon_udeg as int) is None,
            },
    {
        let n = self.tiles.len();
        proof {
            assert(self.tiles@.skip(0) =~= self.tiles@);
        }
        for k in 0..n
            invariant
                n == self.tiles.len(),
                self.wf(),
                valid_coords(lat_udeg, lon_udeg),
                spec_map_elevation(self.tiles@, lat_udeg as int, lon_udeg as int)
                    == spec_map_elevation(
                    self.tiles@.skip(k as int),
                    lat_udeg as int,
                    lon_udeg as int,
                ),
        {
            proof {
                assert(self.tiles@.skip(k as int)[0] == self.tiles@[k as int]);
                assert(self.tiles@.skip(k as int).drop_first() =~= self.tiles@.skip(k + 1));
            }
            if self.tiles[k].contains(lat_udeg, lon_udeg) {
                let e = self.tiles[k].get_elevation(lat_udeg, lon_udeg);
                return Some(e);
            }
        }
        proof {
            assert(self.tiles@.skip(n as int) =~= Seq::<TerrainTile>::empty());
        }
        None
    }

    /// A map holding one tile of the given geometry with every sample at
    /// zero elevation.
    pub fn new_flat(
        min_lat: i64,
        max_lat: i64,
        min_lon: i64,
        max_lon: i64,
        height: usize,
        width: usize,
    ) -> (m: TerrainMap)
        requires
            valid_coords(min_lat, min_lon),
            valid_coords(max_lat, max_lon),
            min_lat < max_lat,
            min_lon < max_lon,
            1 <= width <= MAX_TILE_DIM,
            1 <= height <= MAX_TILE_DIM,
            width * height <= usize::MAX,
        ensures
            m.wf(),
            m.tiles@.len() == 1,
            m.tiles@[0].min_lat == min_lat,
            m.tiles@[0].max_lat == max_lat,
            m.tiles@[0].min_lon == min_lon,
            m.tiles@[0].max_lon == max_lon,
            m.tiles@[0].width == width,
            m.tiles@[0].height == height,
            forall|k: int| 0 <= k < m.tiles@[0].data.len() ==> #[trigger] m.tiles@[0].data[k] == 0,
    {
        let total: usize = width * height;
        let mut data: Vec<i64> = Vec::new();
        let mut k: usize = 0;
        while k < total
            invariant
                k <= total,
                data.len() == k,
                forall|j: int| 0 <= j < k ==> #[trigger] data[j] == 0i64,
            decreases total - k,
        {
            data.push(0);
            k += 1;
        }
        let tile = TerrainTile { min_lat, min_lon, max_lat, max_lon, width, height, data };
        TerrainMap { tiles: vec![tile] }
    }

    /// Whether the straight ray between two antennas clears the terrain.
    ///
    /// The chord is sampled every 30 meters; at each interior sample the ray
    /// altitude (linear between the antenna tops) is compared against the
    /// terrain plus the curvature rise `d1 d2 / 2R`. Antenna heights are in
    /// millimeters above ground; `dist_m` is the great-circle length of the
    /// chord in meters, supplied by the caller. A missing elevation at either
    /// endpoint or along the ray is a distinguished error, never treated as
    /// clear ground.
    pub fn check_line_of_sight(
        &self,
        lat1_udeg: i64,
        lon1_udeg: i64,
        h1_mm: i64,
        lat2_udeg: i64,
        lon2_udeg: i64,
        h2_mm: i64,
        dist_m: u64,
    ) -> (r: Result<bool, TerrainError>)
        requires
            self.wf(),
            valid_coords(lat1_udeg, lon1_udeg),
            valid_coords(lat2_udeg, lon2_udeg),
            0 <= h1_mm <= 1_000_000_000,
            0 <= h2_mm <= 1_000_000_000,
            dist_m <= 40_075_000,
        ensures
            r == spec_check_los(
                self.tiles@,
                lat1_udeg as int,
                lon1_udeg as int,
                h1_mm as int,
                lat2_udeg as int,
                lon2_udeg as int,
                h2_mm as int,
                dist_m as int,
            ),
    {
        if dist_m == 0 {
            return Ok(true);
        }
        let steps: u64 = (dist_m + 29) / 30;
        if steps < 2 {
            return Ok(true);
        }
        proof {
            lemma_div_is_ordered(dist_m + 29, 40_075_029, 30);
        }
        let start_elev = match self.get_elevation(lat1_udeg, lon1_udeg) {
            Some(e) => e,
            None => {
                return Err(TerrainError::MissingStart);
            },
        };
        let end_elev = match self.get_elevation(lat2_udeg, lon2_udeg) {
            Some(e) => e,
            None => {
                return Err(TerrainError::MissingEnd);
            },
        };
        let start_total: i64 = start_elev + h1_mm;
        let end_total: i64 = end_elev + h2_mm;
        let ghost full = spec_los_from(
            self.tiles@,
            lat1_udeg as int,
            lon1_udeg as int,
            lat2_udeg as int,
            lon2_udeg as int,
            start_total as int,
            end_total as int,
            dist_m as int,
            steps as int,
            1,
        );
        let mut i: u64 = 1;
        while i < steps
            invariant
                self.wf(),
                valid_coords(lat1_udeg, lon1_udeg),
                valid_coords(lat2_udeg, lon2_udeg),
                -2_000_000_000 <= start_total <= 2_000_000_000,
                -2_000_000_000 <= end_total <= 2_000_000_000,
                0 < dist_m <= 40_075_000,
                2 <= steps <= 1_335_835,
                steps == (dist_m + 29) / 30,
                1 <= i <= steps,
                full == spec_check_los(
                    self.tiles@,
                    lat1_udeg as int,
                    lon1_udeg as int,
                    h1_mm as int,
                    lat2_udeg as int,
                    lon2_udeg as int,
                    h2_mm as int,
                    dist_m as int,
                ),
                full == spec_los_from(
                    self.tiles@,
                    lat1_udeg as int,
                    lon1_udeg as int,
                    lat2_udeg as int,
                    lon2_udeg as int,
                    start_total as int,
                    end_total as int,
                    dist_m as int,
                    steps as int,
                    i as int,
                ),
            decreases steps - i,
        {
            let lat = crate::numeric::lerp_i64(lat1_udeg, lat2_udeg, i, steps);
            let lon = crate::numeric::lerp_i64(lon1_udeg, lon2_udeg, i, steps);
            let ray = crate::numeric::lerp_i64(start_total, end_total, i, steps);
            proof {
                assert(dist_m * i <= dist_m * steps) by (nonlinear_arith)
                    requires
                        0 <= dist_m,
                        0 <= i <= steps,
                ;
                assert(dist_m * steps <= 40_075_000 * 1_335_835) by (nonlinear_arith)
                    requires
                        0 <= dist_m <= 40_075_000,
                        0 <= steps <= 1_335_835,
                ;
            }
            let d1: u64 = dist_m * i / steps;
            proof {
                lemma_div_is_ordered(dist_m * i, dist_m * (steps as int), steps as int);
                lemma_div_multiples_vanish(dist_m as int, steps as int);
            }
            let d2: u64 = dist_m - d1;
            proof {
                assert(d1 * d2 <= 40_075_000 * 40_075_000) by (nonlinear_arith)
                    requires
                        0 <= d1 <= 40_075_000,
                        0 <= d2 <= 40_075_000,
                ;
            }
            let curv_mm: u64 = d1 * d2 / 12_742;
            let terrain_mm = match self.get_elevation(lat, lon) {
                Some(e) => e,
                None => {
                    return Err(TerrainError::MissingAlongPath);
                },
            };
            if ray < terrain_mm + curv_mm as i64 {
                return Ok(false);
            }
            i += 1;
        }
        Ok(true)
    }
}

/// Failure to assemble a tile from raw raster data.
#[derive(Clone, Copy, Debug, PartialEq, Eq, Structural)]
pub enum RasterError {
    /// Dimensions or pixel scales outside the WGS-84 grid.
    BadGeometry,
    /// The sample vector does not hold `width * height` entries.
    LengthMismatch,
    /// A sample beyond the accepted elevation range.
    ElevationOutOfRange,
}

/// Row-major position of a grid cell.
pub open spec fn grid_idx(r: int, c: int, w: int) -> int {
    r * w + c
}

/// The raster origin and scales describe a sound tile on the WGS-84 grid.
pub open spec fn spec_raster_geometry_ok(
    min_lon: int,
    max_lat: int,
    scale_x: int,
    scale_y: int,
    w: int,
    h: int,
) -> bool {
    &&& 1 <= w <= MAX_TILE_DIM
    &&& 1 <= h <= MAX_TILE_DIM
    &&& 0 < scale_x <= 360_000_000
    &&& 0 < scale_y <= 360_000_000
    &&& -180_000_000 <= min_lon <= 180_000_000
    &&& -90_000_000 <= max_lat <= 90_000_000
    &&& min_lon + w * scale_x <= 180_000_000
    &&& -90_000_000 <= max_lat - h * scale_y
}

impl TerrainTile {
    /// Builds a tile from a top-down raster: `rows_top_down` holds `height`
    /// rows of `width` samples in millimeters with row 0 at `max_lat`, as a
    /// raster file stores them. The origin `(min_lon, max_lat)` is the
    /// top-left corner; the remaining bounds derive from the pixel scales,
    /// and the rows are flipped so that row 0 of the tile lies at `min_lat`.
    ///
    /// The fixed-point elevation arithmetic demands bounded inputs, so
    /// rasters a plain loader would carry are rejected here: geometry that
    /// leaves the WGS-84 grid, dimensions beyond 65536 samples, and any
    /// sample beyond fifty kilometers of elevation — which also catches a
    /// raw no-data sentinel before it could pass as ground.
    pub fn from_raster(
        min_lon: i64,
        max_lat: i64,
        scale_x_udeg: i64,
        scale_y_udeg: i64,
        width: usize,
        height: usize,
        rows_top_down: Vec<i64>,
    ) -> (r: Result<TerrainTile, RasterError>)
        ensures
            match r {
                Ok(t) => {
                    &&& spec_raster_geometry_ok(
                        min_lon as int,
                        max_lat as int,
                        scale_x_udeg as int,
                        scale_y_udeg as int,
                        width as int,
                        height as int,
                    )
                    &&& rows_top_down@.len() == width * height
                    &&& t.wf()
                    &&& t.min_lon == min_lon
                    &&& t.max_lat == max_lat
                    &&& t.max_lon == min_lon + width * scale_x_udeg
                    &&& t.min_lat == max_lat - height * scale_y_udeg
                    &&& t.width == width
                    &&& t.height == height
                    &&& forall|rr: int, cc: int|
                        0 <= rr < height && 0 <= cc < width ==> #[trigger] t.data@[grid_idx(
                            rr,
                            cc,
                            width as int,
                        )] == rows_top_down@[grid_idx(height - 1 - rr, cc, width as int)]
                },
                Err(RasterError::BadGeometry) => !spec_raster_geometry_ok(
                    min_lon as int,
                    max_lat as int,
                    scale_x_udeg as int,
                    scale_y_udeg as int,
                    width as int,
                    height as int,
                ),
                Err(RasterError::LengthMismatch) => {
                    &&& spec_raster_geometry_ok(
                        min_lon as int,
                        max_lat as int,
                        scale_x_udeg as int,
                        scale_y_udeg as int,
                        width as int,
                        height as int,
                    )
                    &&& rows_top_down@.len() != width * height
                },
                Err(RasterError::ElevationOutOfRange) => {
                    &&& rows_top_down@.len() == width * height
                    &&& exists|k: int|
                        0 <= k < rows_top_down@.len() && !(-ELEV_LIMIT_MM
                            <= #[trigger] rows_top_down@[k] <= ELEV_LIMIT_MM)
                },
            },
    {
        if !(width >= 1 && width <= MAX_TILE_DIM && height >= 1 && height <= MAX_TILE_DIM
            && scale_x_udeg > 0 && scale_x_udeg <= 360_000_000 && scale_y_udeg > 0
            && scale_y_udeg <= 360_000_000 && min_lon >= -180_000_000 && min_lon <= 180_000_000
            && max_lat >= -90_000_000 && max_lat <= 90_000_000) {
            return Err(RasterError::BadGeometry);
        }
        proof {
            assert(1 <= (width as int) * scale_x_udeg <= 65536 * 360_000_000) by (nonlinear_arith)
                requires
                    1 <= width <= 65536,
                    1 <= scale_x_udeg <= 360_000_000,
            ;
            assert(1 <= (height as int) * scale_y_udeg <= 65536 * 360_000_000)
                by (nonlinear_arith)
                requires
                    1 <= height <= 65536,
                    1 <= scale_y_udeg <= 360_000_000,
            ;
        }
        let max_lon: i64 = min_lon + (width as i64) * scale_x_udeg;
        let min_lat: i64 = max_lat - (height as i64) * scale_y_udeg;
        if !(max_lon <= 180_000_000 && min_lat >= -90_000_000) {
            return Err(RasterError::BadGeometry);
        }
        proof {
            assert((width as int) * (height as int) <= 65536 * 65536) by (nonlinear_arith)
                requires
                    1 <= width <= 65536,
                    1 <= height <= 65536,
            ;
        }
        let total: u64 = (width as u64) * (height as u64);
        if rows_top_down.len() as u64 != total {
            return Err(RasterError::LengthMismatch);
        }
        let n = rows_top_down.len();
        for k in 0..n
            invariant
                n == rows_top_down.len(),
                rows_top_down.len() == width * height,
                forall|j: int|
                    0 <= j < k ==> -ELEV_LIMIT_MM <= #[trigger] rows_top_down@[j] <= ELEV_LIMIT_MM,
        {
            let v = rows_top_down[k];
            if v < -ELEV_LIMIT_MM || v > ELEV_LIMIT_MM {
                return Err(RasterError::ElevationOutOfRange);
            }
        }
        let mut data: Vec<i64> = Vec::new();
        let mut r: usize = 0;
        while r < height
            invariant
                r <= height,
                1 <= width <= MAX_TILE_DIM,
                1 <= height <= MAX_TILE_DIM,
                rows_top_down.len() == width * height,
                data.len() == r * width,
                forall|j: int|
                    0 <= j < rows_top_down@.len() ==> -ELEV_LIMIT_MM
                        <= #[trigger] rows_top_down@[j] <= ELEV_LIMIT_MM,
                forall|j: int| 0 <= j < data.len() ==> -ELEV_LIMIT_MM <= #[trigger] data@[j]
                    <= ELEV_LIMIT_MM,
                forall|rr: int, cc: int|
                    0 <= rr < r && 0 <= cc < width ==> #[trigger] data@[grid_idx(
                        rr,
                        cc,
                        width as int,
                    )] == rows_top_down@[grid_idx(height - 1 - rr, cc, width as int)],
            decreases height - r,
        {
            proof {
                lemma_grid_index((height - 1 - r) as int, 0, height as int, width as int);
                assert(height * width == width * height) by (nonlinear_arith);
            }
            let src: usize = (height - 1 - r) * width;
            let mut c: usize = 0;
            while c < width
                invariant
                    c <= width,
                    r < height,
                    1 <= width <= MAX_TILE_DIM,
                    1 <= height <= MAX_TILE_DIM,
                    rows_top_down.len() == width * height,
                    src == (height - 1 - r) * width,
                    data.len() == r * width + c,
                    forall|j: int|
                        0 <= j < rows_top_down@.len() ==> -ELEV_LIMIT_MM
                            <= #[trigger] rows_top_down@[j] <= ELEV_LIMIT_MM,
                    forall|j: int| 0 <= j < data.len() ==> -ELEV_LIMIT_MM <= #[trigger] data@[j]
                        <= ELEV_LIMIT_MM,
                    forall|rr: int, cc: int|
                        0 <= rr < r && 0 <= cc < width ==> #[trigger] data@[grid_idx(
                            rr,
                            cc,
                            width as int,
                        )] == rows_top_down@[grid_idx(height - 1 - rr, cc, width as int)],
                    forall|cc: int|
                        0 <= cc < c ==> #[trigger] data@[grid_idx(r as int, cc, width as int)]
                            == rows_top_down@[grid_idx(height - 1 - r, cc, width as int)],
                decreases width - c,
            {
                proof {
                    lemma_grid_index((height - 1 - r) as int, c as int, height as int, width as int);
                    assert(height * width == width * height) by (nonlinear_arith);
                }
                data.push(rows_top_down[src + c]);
                proof {
                    assert forall|rr: int, cc: int| 0 <= rr < r && 0 <= cc < width implies
                        #[trigger] data@[grid_idx(rr, cc, width as int)] == rows_top_down@[grid_idx(
                        height - 1 - rr,
                        cc,
                        width as int,
                    )] by {
                        lemma_grid_index(rr, cc, r as int, width as int);
                        assert(grid_idx(rr, cc, width as int) < r * width);
                    }
                    assert forall|cc: int| 0 <= cc <= c implies #[trigger] data@[grid_idx(
                        r as int,
                        cc,
                        width as int,
                    )] == rows_top_down@[grid_idx(height - 1 - r, cc, width as int)] by {
                        if cc < c {
                            assert(grid_idx(r as int, cc, width as int) < r * width + c);
                        } else {
                            assert(grid_idx(r as int, cc, width as int) == r * width + c);
                        }
                    }
                }
                c += 1;
            }
            proof {
                assert((r + 1) * width == r * width + width) by (nonlinear_arith);
            }
            r += 1;
        }
        proof {
            assert(height * width == width * height) by (nonlinear_arith);
        }
        let tile = TerrainTile {
            min_lat,
            min_lon,
            max_lat,
            max_lon,
            width,
            height,
            data,
        };
        Ok(tile)
    }
}

/// Failure of a terrain query: elevation data missing at the start point,
/// the end point, or an interior sample of a ray.
#[derive(Clone, Copy, Debug, PartialEq, Eq, Structural)]
pub enum TerrainError {
    MissingStart,
    MissingEnd,
    MissingAlongPath,
}

/// Coordinate of the sample a fraction `i / steps` of the way from `a` to
/// `b`.
pub open spec fn spec_sample(a: int, b: int, i: int, steps: int) -> int {
    a + (b - a) * i / steps
}

/// Curvature rise of the sphere above the chord at the sample, in
/// millimeters: `d1 d2 / 2R` with both leg lengths in meters.
pub open spec fn spec_curvature_mm(d: int, i: int, steps: int) -> int {
    let d1 = d * i / steps;
    let d2 = d - d1;
    d1 * d2 / 12_742
}

/// The line-of-sight scan from interior sample `i` on: blocked as soon as
/// the ray drops below terrain plus curvature, an error as soon as a sample
/// has no elevation data, clear when the scan completes.
pub open spec fn spec_los_from(
    tiles: Seq<TerrainTile>,
    lat1: int,
    lon1: int,
    lat2: int,
    lon2: int,
    start_total: int,
    end_total: int,
    d: int,
    steps: int,
    i: int,
) -> Result<bool, TerrainError>
    decreases steps - i,
{
    if i >= steps {
        Ok(true)
    } else {
        let lat = spec_sample(lat1, lat2, i, steps);
        let lon = spec_sample(lon1, lon2, i, steps);
        match spec_map_elevation(tiles, lat, lon) {
            None => Err(TerrainError::MissingAlongPath),
            Some(th) => {
                let ray = spec_sample(start_total, end_total, i, steps);
                if ray < th + spec_curvature_mm(d, i, steps) {
                    Ok(false)
                } else {
                    spec_los_from(
                        tiles,
                        lat1,
                        lon1,
                        lat2,
                        lon2,
                        start_total,
                        end_total,
                        d,
                        steps,
                        i + 1,
                    )
                }
            },
        }
    }
}

/// The whole line-of-sight check: trivially clear under two samples,
/// otherwise an endpoint-elevation lookup followed by the interior scan.
pub open spec fn spec_check_los(
    tiles: Seq<TerrainTile>,
    lat1: int,
    lon1: int,
    h1: int,
    lat2: int,
    lon2: int,
    h2: int,
    d: int,
) -> Result<bool, TerrainError> {
    let steps = (d + 29) / 30;
    if d == 0 || steps < 2 {
        Ok(true)
    } else {
        match (spec_map_elevation(tiles, lat1, lon1), spec_map_elevation(tiles, lat2, lon2)) {
            (None, _) => Err(TerrainError::MissingStart),
            (_, None) => Err(TerrainError::MissingEnd),
            (Some(e1), Some(e2)) => spec_los_from(
                tiles,
                lat1,
                lon1,
                lat2,
                lon2,
                e1 + h1,
                e2 + h2,
                d,
                steps,
                1,
            ),
        }
    }
}

} // verus!
