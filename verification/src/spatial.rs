use vstd::prelude::*;

use rstar::primitives::GeomWithData;
use rstar::RTree;

verus! {

use vstd::multiset::Multiset;

/// An R-tree over `(longitude, latitude, index)` entries, coordinates in
/// microdegrees. The tree itself is rstar's; this library states its
/// contents with `index_entries` and trusts the two accessors below.
#[verifier::external_body]
pub struct SpatialIndex {
    tree: RTree<GeomWithData<[i64; 2], usize>>,
}

/// What the index holds: a multiset of `(longitude, latitude, index)`
/// entries.
pub uninterp spec fn index_entries(t: &SpatialIndex) -> Multiset<(i64, i64, usize)>;

/// An entry's point lies within the closed axis-aligned box.
pub open spec fn spec_in_box(
    e: (i64, i64, usize),
    lon_min: int,
    lat_min: int,
    lon_max: int,
    lat_max: int,
) -> bool {
    &&& lon_min <= e.0 <= lon_max
    &&& lat_min <= e.1 <= lat_max
}

impl SpatialIndex {
    /// Relies on rstar::RTree::bulk_load: the resulting tree holds exactly
    /// the elements it was loaded with.
    #[verifier::external_body]
    pub fn build(items: Vec<(i64, i64, usize)>) -> (t: SpatialIndex)
        ensures
            index_entries(&t) == items@.to_multiset(),
    {
        let elems: Vec<GeomWithData<[i64; 2], usize>> = items
            .into_iter()
            .map(|(lon, lat, idx)| GeomWithData::new([lon, lat], idx))
            .collect();
        SpatialIndex { tree: RTree::bulk_load(elems) }
    }

    /// Relies on rstar::RTree::locate_in_envelope: with an axis-aligned box
    /// it yields exactly the stored elements whose point lies within the
    /// box, bounds inclusive.
    #[verifier::external_body]
    pub fn locate_in_box(
        &self,
        lon_min: i64,
        lat_min: i64,
        lon_max: i64,
        lat_max: i64,
    ) -> (r: Vec<(i64, i64, usize)>)
        requires
            lon_min <= lon_max,
            lat_min <= lat_max,
        ensures
            forall|e: (i64, i64, usize)|
                #![trigger r@.to_multiset().count(e)]
                #![trigger index_entries(self).count(e)]
                r@.to_multiset().count(e) == if spec_in_box(
                    e,
                    lon_min as int,
                    lat_min as int,
                    lon_max as int,
                    lat_max as int,
                ) {
                    index_entries(self).count(e)
                } else {
                    0
                },
    {
        let envelope = rstar::AABB::from_corners([lon_min, lat_min], [lon_max, lat_max]);
        self.tree
            .locate_in_envelope(envelope)
            .map(|g| (g.geom()[0], g.geom()[1], g.data))
            .collect()
    }
}

} // verus!
