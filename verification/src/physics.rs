use vstd::prelude::*;

verus! {

/// Radius of the WGS-84 reference sphere, in meters.
pub const EARTH_RADIUS_M: u64 = 6_371_000;

/// Hard cutoff on the length of a direct radio link, in meters.
pub const MAX_LINK_RANGE_M: u64 = 150_000;

/// Earth bulge: the apparent rise of the sphere's surface above the chord
/// between two points, `d^2 / (8 R)`, distance and result in meters.
pub fn earth_bulge(distance_m: u64) -> (h: u64)
    requires
        distance_m <= 4_000_000_000,
    ensures
        h == distance_m * distance_m / ((8 * EARTH_RADIUS_M) as int),
{
    proof {
        assert(distance_m * distance_m <= 4_000_000_000 * 4_000_000_000) by (nonlinear_arith)
            requires
                0 <= distance_m <= 4_000_000_000,
        ;
    }
    (distance_m * distance_m) / (8 * EARTH_RADIUS_M)
}

} // verus!
