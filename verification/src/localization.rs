use vstd::prelude::*;

verus! {

broadcast use
    vstd::seq_lib::group_to_multiset_ensures,
    vstd::seq_lib::lemma_seq_contains_after_push,
;

use crate::models::MAX_LAT_UDEG;
use crate::models::MAX_LON_UDEG;
use crate::models::PathNode;
use crate::models::Repeater;
use crate::models::spec_hex_byte;
use crate::models::valid_coords;
use crate::numeric::div_floor_i64;

/// The rough location estimate of one hop through an unknown repeater: the
/// arithmetic midpoint of the Known repeaters on either side of it, under
/// the prefix it was observed with. Coordinates in microdegrees, rounded
/// toward negative infinity.
#[derive(Clone, Copy, Debug, PartialEq, Eq, Structural)]
pub struct Midpoint {
    pub prefix: u8,
    pub lat_udeg: i64,
    pub lon_udeg: i64,
}

/// An inferred unknown repeater: the two-hex-digit prefix it answers to
/// (as a byte and as the lowercase string), the centroid of its cluster of
/// midpoints in microdegrees, and how many midpoints support it.
#[derive(Clone, Debug, PartialEq)]
pub struct InferredRepeater {
    pub prefix: String,
    pub prefix_byte: u8,
    pub lat_udeg: i64,
    pub lon_udeg: i64,
    pub observation_count: usize,
}

/// The midpoint recorded for a `Known(a), Unknown(p), Known(b)` window.
pub open spec fn spec_mid(known: Seq<Repeater>, a: int, p: u8, b: int) -> Midpoint {
    Midpoint {
        prefix: p,
        lat_udeg: ((known[a].lat_udeg + known[b].lat_udeg) / 2) as i64,
        lon_udeg: ((known[a].lon_udeg + known[b].lon_udeg) / 2) as i64,
    }
}

/// The midpoints of one path: one per window matching
/// `Known, Unknown, Known`, in window order.
pub open spec fn spec_path_mids(known: Seq<Repeater>, path: Seq<PathNode>) -> Seq<Midpoint>
    decreases path.len(),
{
    if path.len() < 3 {
        Seq::empty()
    } else {
        let earlier = spec_path_mids(known, path.drop_last());
        let w = path.len() - 3;
        match (path[w], path[w + 1], path[w + 2]) {
            (PathNode::Known(a), PathNode::Unknown(p), PathNode::Known(b)) => earlier.push(
                spec_mid(known, a as int, p, b as int),
            ),
            _ => earlier,
        }
    }
}

/// The midpoints of all paths, in path order.
pub open spec fn spec_all_mids(known: Seq<Repeater>, paths: Seq<Vec<PathNode>>) -> Seq<Midpoint>
    decreases paths.len(),
{
    if paths.len() == 0 {
        Seq::empty()
    } else {
        spec_all_mids(known, paths.drop_last()) + spec_path_mids(known, paths.last()@)
    }
}

/// Extracts the `Known, Unknown, Known` window midpoints of every path.
pub fn collect_midpoints(paths: &Vec<Vec<PathNode>>, known: &Vec<Repeater>) -> (mids: Vec<
    Midpoint,
>)
    requires
        forall|i: int| 0 <= i < known@.len() ==> (#[trigger] known@[i]).wf(),
        forall|pi: int, k: int|
            0 <= pi < paths@.len() && 0 <= k < paths@[pi]@.len() ==> match #[trigger] paths@[pi]@[k] {
                PathNode::Known(idx) => idx < known@.len(),
                PathNode::Unknown(_) => true,
            },
    ensures
        mids@ == spec_all_mids(known@, paths@),
        forall|m: int|
            0 <= m < mids@.len() ==> valid_coords(
                (#[trigger] mids@[m]).lat_udeg,
                mids@[m].lon_udeg,
            ),
{
    let np = paths.len();
    let mut mids: Vec<Midpoint> = Vec::new();
    for pi in 0..np
        invariant
            np == paths@.len(),
            forall|i: int| 0 <= i < known@.len() ==> (#[trigger] known@[i]).wf(),
            forall|pi2: int, k: int|
                0 <= pi2 < paths@.len() && 0 <= k < paths@[pi2]@.len() ==> match #[trigger] paths@[pi2]@[k] {
                    PathNode::Known(idx) => idx < known@.len(),
                    PathNode::Unknown(_) => true,
                },
            mids@ == spec_all_mids(known@, paths@.take(pi as int)),
            forall|m: int|
                0 <= m < mids@.len() ==> valid_coords(
                    (#[trigger] mids@[m]).lat_udeg,
                    mids@[m].lon_udeg,
                ),
    {
        let path = &paths[pi];
        let plen = path.len();
        let ghost pview = path@;
        if plen >= 3 {
            for w in 0..(plen - 2)
                invariant
                    np == paths@.len(),
                    pi < np,
                    plen == pview.len(),
                    plen >= 3,
                    pview == paths@[pi as int]@,
                    forall|i: int| 0 <= i < known@.len() ==> (#[trigger] known@[i]).wf(),
                    forall|pi2: int, k: int|
                        0 <= pi2 < paths@.len() && 0 <= k < paths@[pi2]@.len() ==> match #[trigger] paths@[pi2]@[k] {
                            PathNode::Known(idx) => idx < known@.len(),
                            PathNode::Unknown(_) => true,
                        },
                    mids@ == spec_all_mids(known@, paths@.take(pi as int)) + spec_path_mids(
                        known@,
                        pview.take(w + 2),
                    ),
                    forall|m: int|
                        0 <= m < mids@.len() ==> valid_coords(
                            (#[trigger] mids@[m]).lat_udeg,
                            mids@[m].lon_udeg,
                        ),
            {
                proof {
                    assert(pview.take(w + 3).drop_last() =~= pview.take(w + 2));
                    assert(pview.take(w + 2) =~= pview.take(w + 3).drop_last());
                }
                let n0 = paths[pi][w];
                let n1 = paths[pi][w + 1];
                let n2 = paths[pi][w + 2];
                match (n0, n1, n2) {
                    (PathNode::Known(a), PathNode::Unknown(p), PathNode::Known(b)) => {
                        let ra = &known[a as usize];
                        let rb = &known[b as usize];
                        let lat = div_floor_i64(ra.lat_udeg + rb.lat_udeg, 2);
                        let lon = div_floor_i64(ra.lon_udeg + rb.lon_udeg, 2);
                        mids.push(Midpoint { prefix: p, lat_udeg: lat, lon_udeg: lon });
                        proof {
                            assert(mids@.last() == spec_mid(known@, a as int, p, b as int));
                            assert(mids@ =~= spec_all_mids(known@, paths@.take(pi as int))
                                + spec_path_mids(known@, pview.take(w + 3)));
                        }
                    },
                    _ => {
                        proof {
                            assert(spec_path_mids(known@, pview.take(w + 3)) == spec_path_mids(
                                known@,
                                pview.take(w + 2),
                            ));
                        }
                    },
                }
            }
        }
        proof {
            if plen >= 3 {
                assert(pview.take(plen as int) =~= pview);
            } else {
                assert(spec_path_mids(known@, pview) == Seq::<Midpoint>::empty());
            }
            assert(paths@.take(pi + 1).drop_last() =~= paths@.take(pi as int));
            assert(paths@.take(pi + 1).last() == paths@[pi as int]);
            assert(mids@ =~= spec_all_mids(known@, paths@.take(pi + 1)));
        }
    }
    proof {
        assert(paths@.take(np as int) =~= paths@);
    }
    mids
}

/// Visiting state of a point during clustering.
#[derive(Clone, Copy, Debug, PartialEq, Eq, Structural)]
enum PointStatus {
    Unvisited,
    Visited,
    Noise,
}

/// A square neighborhood matrix of the given size.
pub open spec fn near_wf(near: Seq<Vec<bool>>, n: int) -> bool {
    &&& near.len() == n
    &&& forall|i: int| 0 <= i < n ==> (#[trigger] near[i])@.len() == n
}

/// Every point neighbors itself (a distance of zero is within any radius).
pub open spec fn near_reflexive(near: Seq<Vec<bool>>) -> bool {
    forall|i: int| 0 <= i < near.len() ==> (#[trigger] near[i])@[i]
}

/// The neighborhood relation is symmetric, as a distance threshold is.
pub open spec fn near_symmetric(near: Seq<Vec<bool>>) -> bool {
    forall|i: int, j: int|
        0 <= i < near.len() && 0 <= j < near.len() ==> (#[trigger] near[i]@[j]) == near[j]@[i]
}

/// The neighbors of `i` among points `0..upto`, ascending.
spec fn spec_neighbors(near: Seq<Vec<bool>>, i: int, upto: int) -> Seq<usize>
    decreases upto,
{
    if upto <= 0 {
        Seq::empty()
    } else {
        let rest = spec_neighbors(near, i, upto - 1);
        if near[i]@[upto - 1] {
            rest.push((upto - 1) as usize)
        } else {
            rest
        }
    }
}

proof fn lemma_neighbors_props(near: Seq<Vec<bool>>, i: int, upto: int)
    requires
        0 <= i < near.len(),
        near_wf(near, near.len() as int),
        0 <= upto <= near.len(),
        near.len() <= usize::MAX,
    ensures
        forall|k: int|
            0 <= k < spec_neighbors(near, i, upto).len() ==> (#[trigger] spec_neighbors(
                near,
                i,
                upto,
            )[k]) < upto,
        forall|k: int|
            0 <= k < spec_neighbors(near, i, upto).len() ==> near[i]@[(#[trigger] spec_neighbors(
                near,
                i,
                upto,
            )[k]) as int],
        forall|j: int|
            0 <= j < upto && near[i]@[j] ==> spec_neighbors(near, i, upto).contains(j as usize),
    decreases upto,
{
    if upto > 0 {
        lemma_neighbors_props(near, i, upto - 1);
        let rest = spec_neighbors(near, i, upto - 1);
        assert forall|k: int| 0 <= k < spec_neighbors(near, i, upto).len() implies near[i]@[(
        #[trigger] spec_neighbors(near, i, upto)[k]) as int] by {
            if near[i]@[upto - 1] {
                if k < rest.len() {
                    assert(spec_neighbors(near, i, upto)[k] == rest[k]);
                } else {
                    assert(spec_neighbors(near, i, upto)[k] == (upto - 1) as usize);
                }
            } else {
                assert(spec_neighbors(near, i, upto)[k] == rest[k]);
            }
        }
        assert forall|j: int|
            0 <= j < upto && near[i]@[j] implies spec_neighbors(near, i, upto).contains(
            j as usize,
        ) by {
            if j < upto - 1 {
                let k = choose|k: int| 0 <= k < rest.len() && rest[k] == j as usize;
                assert(spec_neighbors(near, i, upto)[k] == j as usize);
            } else {
                assert(spec_neighbors(near, i, upto).last() == j as usize);
            }
        }
    }
}

/// The points within the neighborhood of `center`, itself included when
/// the relation is reflexive.
fn region_query(near: &Vec<Vec<bool>>, center: usize) -> (r: Vec<usize>)
    requires
        near_wf(near@, near@.len() as int),
        center < near@.len(),
    ensures
        r@ == spec_neighbors(near@, center as int, near@.len() as int),
        forall|k: int| 0 <= k < r@.len() ==> (#[trigger] r@[k]) < near@.len(),
        forall|k: int| 0 <= k < r@.len() ==> near@[center as int]@[(#[trigger] r@[k]) as int],
        forall|j: int|
            0 <= j < near@.len() && near@[center as int]@[j] ==> r@.contains(j as usize),
{
    let n = near.len();
    let mut r: Vec<usize> = Vec::new();
    for j in 0..n
        invariant
            n == near@.len(),
            center < n,
            near_wf(near@, n as int),
            r@ == spec_neighbors(near@, center as int, j as int),
            forall|k: int| 0 <= k < r@.len() ==> (#[trigger] r@[k]) < n,
    {
        if near[center][j] {
            r.push(j);
        }
    }
    proof {
        lemma_neighbors_props(near@, center as int, n as int);
    }
    r
}

/// A walk through the neighborhood relation, one neighbor at a time.
pub open spec fn near_chain(near: Seq<Vec<bool>>, ch: Seq<int>, a: int, b: int) -> bool {
    &&& ch.len() >= 1
    &&& ch[0] == a
    &&& ch.last() == b
    &&& forall|k: int| 0 <= k < ch.len() ==> 0 <= #[trigger] ch[k] < near.len()
    &&& forall|k: int| 0 <= k < ch.len() - 1 ==> near[#[trigger] ch[k]]@[ch[k + 1]]
}

/// Some walk joins the two points.
pub open spec fn near_connected(near: Seq<Vec<bool>>, a: int, b: int) -> bool {
    exists|ch: Seq<int>| near_chain(near, ch, a, b)
}

proof fn lemma_connected_refl(near: Seq<Vec<bool>>, a: int)
    requires
        0 <= a < near.len(),
    ensures
        near_connected(near, a, a),
{
    let ch = seq![a];
    assert(near_chain(near, ch, a, a));
}

proof fn lemma_connected_step(near: Seq<Vec<bool>>, a: int, b: int, c: int)
    requires
        near_connected(near, a, b),
        0 <= c < near.len(),
        near[b]@[c],
    ensures
        near_connected(near, a, c),
{
    let ch = choose|ch: Seq<int>| near_chain(near, ch, a, b);
    let ch2 = ch.push(c);
    assert forall|k: int| 0 <= k < ch2.len() - 1 implies near[#[trigger] ch2[k]]@[ch2[k + 1]] by {
        if k < ch.len() - 1 {
            assert(ch2[k] == ch[k] && ch2[k + 1] == ch[k + 1]);
        } else {
            assert(ch2[k] == ch.last() && ch2[k + 1] == c);
        }
    }
    assert(near_chain(near, ch2, a, c));
}

proof fn lemma_connected_reverse(near: Seq<Vec<bool>>, a: int, b: int)
    requires
        near_symmetric(near),
        near_connected(near, a, b),
    ensures
        near_connected(near, b, a),
{
    let ch = choose|ch: Seq<int>| near_chain(near, ch, a, b);
    let rv = ch.reverse();
    assert forall|k: int| 0 <= k < rv.len() - 1 implies near[#[trigger] rv[k]]@[rv[k + 1]] by {
        let m = ch.len() - 1 - k;
        assert(rv[k] == ch[m] && rv[k + 1] == ch[m - 1]);
        assert(near[ch[m - 1]]@[ch[m]]);
    }
    assert(rv[0] == b && rv.last() == a);
    assert(near_chain(near, rv, b, a));
}

proof fn lemma_connected_trans(near: Seq<Vec<bool>>, a: int, b: int, c: int)
    requires
        near_connected(near, a, b),
        near_connected(near, b, c),
    ensures
        near_connected(near, a, c),
{
    let ch1 = choose|ch: Seq<int>| near_chain(near, ch, a, b);
    let ch2 = choose|ch: Seq<int>| near_chain(near, ch, b, c);
    if ch2.len() == 1 {
        assert(near_chain(near, ch1, a, c));
    } else {
        let joined = ch1 + ch2.skip(1);
        assert(joined.last() == ch2.last());
        assert forall|k: int| 0 <= k < joined.len() - 1 implies near[#[trigger] joined[k]]@[joined[
            k + 1
        ]] by {
            if k < ch1.len() - 1 {
                assert(joined[k] == ch1[k] && joined[k + 1] == ch1[k + 1]);
            } else if k == ch1.len() - 1 {
                assert(joined[k] == ch1.last() && joined[k + 1] == ch2[1]);
                assert(near[ch2[0]]@[ch2[1]]);
            } else {
                let m = k - ch1.len() + 1;
                assert(joined[k] == ch2[m] && joined[k + 1] == ch2[m + 1]);
            }
        }
        assert(near_chain(near, joined, a, c));
    }
}

/// Number of visited points.
spec fn count_visited(st: Seq<PointStatus>) -> int
    decreases st.len(),
{
    if st.len() == 0 {
        0
    } else {
        count_visited(st.drop_last()) + if st.last() == PointStatus::Visited {
            1int
        } else {
            0int
        }
    }
}

proof fn lemma_count_visited_update(st: Seq<PointStatus>, i: int, v: PointStatus)
    requires
        0 <= i < st.len(),
    ensures
        count_visited(st.update(i, v)) == count_visited(st) - (
        if st[i] == PointStatus::Visited {
            1int
        } else {
            0int
        }) + (
        if v == PointStatus::Visited {
            1int
        } else {
            0int
        }),
    decreases st.len(),
{
    if st.len() > 0 {
        if i == st.len() - 1 {
            assert(st.update(i, v).drop_last() =~= st.drop_last());
        } else {
            lemma_count_visited_update(st.drop_last(), i, v);
            assert(st.update(i, v).drop_last() =~= st.drop_last().update(i, v));
        }
    }
}

proof fn lemma_count_visited_bounds(st: Seq<PointStatus>)
    ensures
        0 <= count_visited(st) <= st.len(),
        (forall|i: int| 0 <= i < st.len() ==> #[trigger] st[i] == PointStatus::Visited)
            ==> count_visited(st) == st.len(),
    decreases st.len(),
{
    if st.len() > 0 {
        lemma_count_visited_bounds(st.drop_last());
    }
}

/// Whether a value occurs in a vector of indices.
fn contains_usize(v: &Vec<usize>, x: usize) -> (b: bool)
    ensures
        b == v@.contains(x),
{
    let n = v.len();
    for k in 0..n
        invariant
            n == v@.len(),
            forall|m: int| 0 <= m < k ==> (#[trigger] v@[m]) != x,
    {
        if v[k] == x {
            proof {
                assert(v@[k as int] == x);
            }
            return true;
        }
    }
    false
}

/// With one minimum point, a reflexive relation, and no noise pending,
/// every point is its own core: the expansion never stalls, so a grown
/// cluster saturates the neighborhood of each of its members.
spec fn expansion_total(near: Seq<Vec<bool>>, st: Seq<PointStatus>, min_pts: usize) -> bool {
    &&& min_pts <= 1
    &&& near_reflexive(near)
    &&& forall|j: int| 0 <= j < st.len() ==> #[trigger] st[j] != PointStatus::Noise
}

/// Grows one cluster from a seed: every queued point joins the cluster
/// unless already visited, and a joining unvisited point that is itself
/// dense queues its own neighborhood, as classical DBSCAN expands. Every
/// member comes out connected to the seed by a chain of neighbors, and
/// under `expansion_total` the neighborhoods of all members end visited.
fn expand_cluster(
    near: &Vec<Vec<bool>>,
    status: &mut Vec<PointStatus>,
    cluster: &mut Vec<usize>,
    seed_idx: usize,
    seeds: Vec<usize>,
    min_pts: usize,
)
    requires
        near_wf(near@, near@.len() as int),
        old(status)@.len() == near@.len(),
        old(cluster)@.len() == 0,
        seed_idx < near@.len(),
        old(status)@[seed_idx as int] == PointStatus::Visited,
        forall|k: int| 0 <= k < seeds@.len() ==> (#[trigger] seeds@[k]) < near@.len(),
        forall|x: int|
            0 <= x < near@.len() && near@[seed_idx as int]@[x] ==> seeds@.contains(x as usize),
        forall|k: int|
            0 <= k < seeds@.len() ==> near_connected(
                near@,
                seed_idx as int,
                (#[trigger] seeds@[k]) as int,
            ),
    ensures
        final(status)@.len() == near@.len(),
        final(cluster)@.len() >= 1,
        final(cluster)@[0] == seed_idx,
        forall|k1: int, k2: int|
            0 <= k1 < k2 < final(cluster)@.len() ==> (#[trigger] final(cluster)@[k1])
                != (#[trigger] final(cluster)@[k2]),
        forall|k: int|
            0 <= k < final(cluster)@.len() ==> (#[trigger] final(cluster)@[k]) < near@.len(),
        forall|m: int|
            0 <= m < near@.len() && !final(cluster)@.contains(m as usize)
                ==> final(status)@[m] == old(status)@[m],
        forall|k: int|
            0 <= k < final(cluster)@.len() ==> final(status)@[(#[trigger] final(cluster)@[k]) as int]
                == PointStatus::Visited,
        forall|k: int|
            1 <= k < final(cluster)@.len() ==> old(status)@[(#[trigger] final(cluster)@[k]) as int]
                != PointStatus::Visited,
        count_visited(final(status)@) == count_visited(old(status)@) + final(cluster)@.len() - 1,
        forall|k: int|
            0 <= k < final(cluster)@.len() ==> near_connected(
                near@,
                seed_idx as int,
                (#[trigger] final(cluster)@[k]) as int,
            ),
        expansion_total(near@, old(status)@, min_pts) ==> forall|k: int, x: int|
            #![trigger final(cluster)@[k], final(status)@[x]]
            0 <= k < final(cluster)@.len() && 0 <= x < near@.len()
                && near@[final(cluster)@[k] as int]@[x] ==> final(status)@[x]
                == PointStatus::Visited,
        forall|m: int|
            0 <= m < near@.len() ==> final(status)@[m] == old(status)@[m] || final(status)@[m]
                == PointStatus::Visited,
{
    let ghost st0 = old(status)@;
    let n = near.len();
    cluster.push(seed_idx);
    let mut seeds = seeds;
    let mut i: usize = 0;
    proof {
        lemma_count_visited_bounds(status@);
        lemma_connected_refl(near@, seed_idx as int);
    }
    while i < seeds.len()
        invariant
            near_wf(near@, near@.len() as int),
            n == near@.len(),
            status@.len() == n,
            st0.len() == n,
            seed_idx < n,
            st0[seed_idx as int] == PointStatus::Visited,
            i <= seeds@.len(),
            forall|k: int| 0 <= k < seeds@.len() ==> (#[trigger] seeds@[k]) < n,
            cluster@.len() >= 1,
            cluster@[0] == seed_idx,
            forall|k1: int, k2: int|
                0 <= k1 < k2 < cluster@.len() ==> (#[trigger] cluster@[k1])
                    != (#[trigger] cluster@[k2]),
            forall|k: int| 0 <= k < cluster@.len() ==> (#[trigger] cluster@[k]) < n,
            forall|m: int|
                0 <= m < n && !cluster@.contains(m as usize) ==> status@[m] == st0[m],
            forall|k: int|
                0 <= k < cluster@.len() ==> status@[(#[trigger] cluster@[k]) as int]
                    == PointStatus::Visited,
            forall|k: int|
                1 <= k < cluster@.len() ==> st0[(#[trigger] cluster@[k]) as int]
                    != PointStatus::Visited,
            count_visited(status@) == count_visited(st0) + cluster@.len() - 1,
            count_visited(status@) <= n,
            forall|k: int|
                0 <= k < i ==> status@[(#[trigger] seeds@[k]) as int] == PointStatus::Visited,
            forall|k: int|
                0 <= k < seeds@.len() ==> near_connected(
                    near@,
                    seed_idx as int,
                    (#[trigger] seeds@[k]) as int,
                ),
            forall|k: int|
                0 <= k < cluster@.len() ==> near_connected(
                    near@,
                    seed_idx as int,
                    (#[trigger] cluster@[k]) as int,
                ),
            expansion_total(near@, st0, min_pts) ==> forall|j: int|
                0 <= j < n ==> #[trigger] status@[j] != PointStatus::Noise,
            expansion_total(near@, st0, min_pts) ==> forall|k: int, x: int|
                #![trigger cluster@[k], seeds@.contains(x as usize)]
                0 <= k < cluster@.len() && 0 <= x < n && near@[cluster@[k] as int]@[x]
                    ==> seeds@.contains(x as usize),
            forall|m: int|
                0 <= m < n ==> status@[m] == st0[m] || status@[m] == PointStatus::Visited,
        decreases n - count_visited(status@), seeds@.len() - i,
    {
        let curr = seeds[i];
        i += 1;
        if curr == seed_idx {
            proof {
                assert(status@[(cluster@[0]) as int] == PointStatus::Visited);
            }
            continue ;
        }
        let st = status[curr];
        match st {
            PointStatus::Noise => {
                proof {
                    if expansion_total(near@, st0, min_pts) {
                        assert(status@[curr as int] != PointStatus::Noise);
                        assert(false);
                    }
                    assert(!cluster@.contains(curr));
                    lemma_count_visited_update(status@, curr as int, PointStatus::Visited);
                }
                let ghost cl_old = cluster@;
                status.set(curr, PointStatus::Visited);
                cluster.push(curr);
                proof {
                    lemma_count_visited_bounds(status@);
                    assert forall|m: int|
                        0 <= m < n && !cluster@.contains(m as usize) implies status@[m]
                        == st0[m] by {
                        assert(cluster@ == cl_old.push(curr));
                        assert(!cl_old.contains(m as usize));
                        assert(m != curr);
                    }
                }
            },
            PointStatus::Unvisited => {
                proof {
                    assert(!cluster@.contains(curr));
                    lemma_count_visited_update(status@, curr as int, PointStatus::Visited);
                }
                let ghost cl_old = cluster@;
                status.set(curr, PointStatus::Visited);
                cluster.push(curr);
                proof {
                    lemma_count_visited_bounds(status@);
                    assert forall|m: int|
                        0 <= m < n && !cluster@.contains(m as usize) implies status@[m]
                        == st0[m] by {
                        assert(cluster@ == cl_old.push(curr));
                        assert(!cl_old.contains(m as usize));
                        assert(m != curr);
                    }
                }
                let neighbors = region_query(near, curr);
                if neighbors.len() >= min_pts {
                    let nn = neighbors.len();
                    for t in 0..nn
                        invariant
                            nn == neighbors@.len(),
                            curr < n,
                            forall|k: int|
                                0 <= k < neighbors@.len() ==> (#[trigger] neighbors@[k]) < n,
                            forall|k: int|
                                0 <= k < neighbors@.len() ==> near@[curr as int]@[(
                                #[trigger] neighbors@[k]) as int],
                            n == near@.len(),
                            i <= seeds@.len(),
                            near_connected(near@, seed_idx as int, curr as int),
                            forall|k: int| 0 <= k < seeds@.len() ==> (#[trigger] seeds@[k]) < n,
                            forall|k: int|
                                0 <= k < i ==> status@[(#[trigger] seeds@[k]) as int]
                                    == PointStatus::Visited,
                            forall|k: int|
                                0 <= k < seeds@.len() ==> near_connected(
                                    near@,
                                    seed_idx as int,
                                    (#[trigger] seeds@[k]) as int,
                                ),
                            cluster@.len() >= 1,
                            cluster@[cluster@.len() - 1] == curr,
                            expansion_total(near@, st0, min_pts) ==> forall|k: int, x: int|
                                #![trigger cluster@[k], seeds@.contains(x as usize)]
                                0 <= k < cluster@.len() - 1 && 0 <= x < n
                                    && near@[cluster@[k] as int]@[x] ==> seeds@.contains(
                                    x as usize,
                                ),
                            forall|t2: int|
                                0 <= t2 < t ==> seeds@.contains(#[trigger] neighbors@[t2]),
                    {
                        let nb = neighbors[t];
                        proof {
                            lemma_connected_step(near@, seed_idx as int, curr as int, nb as int);
                        }
                        if !contains_usize(&seeds, nb) {
                            seeds.push(nb);
                        }
                    }
                    proof {
                        assert forall|x: int|
                            0 <= x < n && near@[curr as int]@[x] implies seeds@.contains(
                            x as usize,
                        ) by {
                            assert(neighbors@.contains(x as usize));
                            let t2 = choose|t2: int|
                                0 <= t2 < neighbors@.len() && neighbors@[t2] == x as usize;
                        }
                        if expansion_total(near@, st0, min_pts) {
                            assert forall|k: int, x: int|
                                #![trigger cluster@[k], seeds@.contains(x as usize)]
                                0 <= k < cluster@.len() && 0 <= x < n
                                    && near@[cluster@[k] as int]@[x] implies seeds@.contains(
                                x as usize,
                            ) by {
                                if k == cluster@.len() - 1 {
                                    assert(cluster@[k] == curr);
                                }
                            }
                        }
                    }
                } else {
                    proof {
                        if expansion_total(near@, st0, min_pts) {
                            assert(near@[curr as int]@[curr as int]);
                            assert(neighbors@.contains(curr));
                            assert(neighbors@.len() >= 1);
                            assert(false);
                        }
                    }
                }
            },
            PointStatus::Visited => {},
        }
    }
    proof {
        if expansion_total(near@, st0, min_pts) {
            assert forall|k: int, x: int|
                #![trigger cluster@[k], status@[x]]
                0 <= k < cluster@.len() && 0 <= x < near@.len()
                    && near@[cluster@[k] as int]@[x] implies status@[x]
                == PointStatus::Visited by {
                assert(seeds@.contains(x as usize));
                let t2 = choose|t2: int| 0 <= t2 < seeds@.len() && seeds@[t2] == x as usize;
            }
        }
    }
}

/// Some cluster holds point `m`.
pub open spec fn in_some_cluster(clusters: Seq<Vec<usize>>, m: int) -> bool {
    exists|c: int| 0 <= c < clusters.len() && (#[trigger] clusters[c])@.contains(m as usize)
}

/// Clusters are nonempty, hold only points below `n`, repeat no point
/// within a cluster, and share no point between two clusters.
pub open spec fn clusters_partition_wf(clusters: Seq<Vec<usize>>, n: int) -> bool {
    &&& forall|c: int| 0 <= c < clusters.len() ==> (#[trigger] clusters[c])@.len() >= 1
    &&& forall|c: int, k: int|
        0 <= c < clusters.len() && 0 <= k < clusters[c]@.len() ==> (#[trigger] clusters[c]@[k]) < n
    &&& forall|c: int, k1: int, k2: int|
        0 <= c < clusters.len() && 0 <= k1 < k2 < clusters[c]@.len() ==> (
        #[trigger] clusters[c]@[k1]) != (#[trigger] clusters[c]@[k2])
    &&& forall|c1: int, k1: int, c2: int, k2: int|
        0 <= c1 < c2 < clusters.len() && 0 <= k1 < clusters[c1]@.len() && 0 <= k2
            < clusters[c2]@.len() ==> (#[trigger] clusters[c1]@[k1]) != (
        #[trigger] clusters[c2]@[k2])
}

/// Total size of the clusters.
pub open spec fn sum_sizes(clusters: Seq<Vec<usize>>) -> int
    decreases clusters.len(),
{
    if clusters.len() == 0 {
        0
    } else {
        sum_sizes(clusters.drop_last()) + clusters.last()@.len()
    }
}

/// Density clustering over a neighborhood matrix, classical DBSCAN: each
/// unvisited point with a dense neighborhood seeds a cluster that expands
/// through dense members; sparser points become noise. The clusters are
/// disjoint and duplicate-free. With `min_pts <= 1` and a reflexive
/// relation, every point is its own core, so the clusters partition the
/// points: each point lies in one of them and the sizes add up to the
/// point count; with a symmetric relation besides, the clusters are
/// exactly the connected components of the relation — members of one
/// cluster are chain-joined, and a neighbor of a member belongs to the
/// same cluster.
pub fn dbscan(near: &Vec<Vec<bool>>, min_pts: usize) -> (clusters: Vec<Vec<usize>>)
    requires
        near_wf(near@, near@.len() as int),
    ensures
        clusters_partition_wf(clusters@, near@.len() as int),
        (min_pts <= 1 && near_reflexive(near@)) ==> forall|m: int|
            0 <= m < near@.len() ==> #[trigger] in_some_cluster(clusters@, m),
        (min_pts <= 1 && near_reflexive(near@)) ==> sum_sizes(clusters@) == near@.len(),
        (min_pts <= 1 && near_reflexive(near@) && near_symmetric(near@)) ==> forall|
            c: int,
            k: int,
            x: int,
        |
            #![trigger clusters@[c]@[k], clusters@[c]@.contains(x as usize)]
            0 <= c < clusters@.len() && 0 <= k < clusters@[c]@.len() && 0 <= x < near@.len()
                && near@[clusters@[c]@[k] as int]@[x] ==> clusters@[c]@.contains(x as usize),
        (min_pts <= 1 && near_reflexive(near@) && near_symmetric(near@)) ==> forall|
            c: int,
            k1: int,
            k2: int,
        |
            #![trigger clusters@[c]@[k1], clusters@[c]@[k2]]
            0 <= c < clusters@.len() && 0 <= k1 < clusters@[c]@.len() && 0 <= k2
                < clusters@[c]@.len() ==> near_connected(
                near@,
                clusters@[c]@[k1] as int,
                clusters@[c]@[k2] as int,
            ),
{
    let n = near.len();
    let mut status: Vec<PointStatus> = Vec::new();
    for k in 0..n
        invariant
            status@.len() == k,
            forall|j: int| 0 <= j < k ==> #[trigger] status@[j] == PointStatus::Unvisited,
    {
        status.push(PointStatus::Unvisited);
    }
    proof {
        lemma_count_visited_bounds(status@);
        assert(count_visited(status@) == 0) by {
            lemma_count_zero_when_none_visited(status@);
        }
    }
    let mut clusters: Vec<Vec<usize>> = Vec::new();
    for i in 0..n
        invariant
            n == near@.len(),
            near_wf(near@, n as int),
            status@.len() == n,
            clusters_partition_wf(clusters@, n as int),
            forall|c: int, k: int|
                0 <= c < clusters@.len() && 0 <= k < clusters@[c]@.len()
                    ==> status@[(#[trigger] clusters@[c]@[k]) as int] == PointStatus::Visited,
            forall|m: int|
                0 <= m < n && #[trigger] status@[m] == PointStatus::Visited ==> exists|c: int, k: int|
                    0 <= c < clusters@.len() && 0 <= k < clusters@[c]@.len() && clusters@[c]@[k]
                        == m as usize,
            sum_sizes(clusters@) == count_visited(status@),
            (min_pts <= 1 && near_reflexive(near@)) ==> forall|j: int|
                0 <= j < i ==> #[trigger] status@[j] == PointStatus::Visited,
            (min_pts <= 1 && near_reflexive(near@)) ==> forall|j: int|
                0 <= j < n ==> #[trigger] status@[j] != PointStatus::Noise,
            (min_pts <= 1 && near_reflexive(near@) && near_symmetric(near@)) ==> forall|
                c: int,
                k: int,
                x: int,
            |
                #![trigger clusters@[c]@[k], clusters@[c]@.contains(x as usize)]
                0 <= c < clusters@.len() && 0 <= k < clusters@[c]@.len() && 0 <= x < n
                    && near@[clusters@[c]@[k] as int]@[x] ==> clusters@[c]@.contains(x as usize),
            (min_pts <= 1 && near_reflexive(near@) && near_symmetric(near@)) ==> forall|
                c: int,
                k1: int,
                k2: int,
            |
                #![trigger clusters@[c]@[k1], clusters@[c]@[k2]]
                0 <= c < clusters@.len() && 0 <= k1 < clusters@[c]@.len() && 0 <= k2
                    < clusters@[c]@.len() ==> near_connected(
                    near@,
                    clusters@[c]@[k1] as int,
                    clusters@[c]@[k2] as int,
                ),
    {
        let st = status[i];
        if st == PointStatus::Unvisited {
            let ghost st_loop = status@;
            let ghost clusters_loop = clusters@;
            proof {
                lemma_count_visited_update(status@, i as int, PointStatus::Visited);
            }
            status.set(i, PointStatus::Visited);
            let neighbors = region_query(near, i);
            if neighbors.len() < min_pts {
                proof {
                    lemma_count_visited_update(status@, i as int, PointStatus::Noise);
                    if min_pts <= 1 && near_reflexive(near@) {
                        lemma_neighbors_props(near@, i as int, n as int);
                        assert(near@[i as int]@[i as int]);
                        assert(neighbors@.contains(i as usize));
                        assert(false);
                    }
                }
                status.set(i, PointStatus::Noise);
            } else {
                let mut cluster: Vec<usize> = Vec::new();
                let ghost st_before = status@;
                let ghost clusters_before = clusters@;
                proof {
                    lemma_connected_refl(near@, i as int);
                    assert forall|k: int| 0 <= k < neighbors@.len() implies near_connected(
                        near@,
                        i as int,
                        (#[trigger] neighbors@[k]) as int,
                    ) by {
                        lemma_connected_step(near@, i as int, i as int, neighbors@[k] as int);
                    }
                }
                expand_cluster(near, &mut status, &mut cluster, i, neighbors, min_pts);
                let ghost clv = cluster@;
                proof {
                    assert(st_before =~= st_loop.update(i as int, PointStatus::Visited));
                    assert(clusters_before == clusters_loop);
                    assert forall|c: int, k: int|
                        0 <= c < clusters_before.len() && 0 <= k < clusters_before[c]@.len() implies
                        status@[(#[trigger] clusters_before[c]@[k]) as int]
                        == PointStatus::Visited by {
                        let m = clusters_before[c]@[k];
                        if !clv.contains(m) {
                            assert(status@[m as int] == st_before[m as int]);
                        }
                    }
                }
                clusters.push(cluster);
                proof {
                    assert(clusters_partition_wf(clusters_before, n as int));
                    assert(clusters@.drop_last() =~= clusters_before);
                    assert(clusters@[clusters@.len() - 1]@ == clv);
                    assert forall|m: int|
                        0 <= m < n && #[trigger] status@[m] == PointStatus::Visited implies exists|
                        c: int,
                        k: int,
                    |
                        0 <= c < clusters@.len() && 0 <= k < clusters@[c]@.len() && clusters@[c]@[k]
                            == m as usize by {
                        let cl = clusters@.len() - 1;
                        if clv.contains(m as usize) {
                            let k = choose|k: int| 0 <= k < clv.len() && clv[k] == m as usize;
                            assert(clusters@[cl]@[k] == m as usize);
                        } else {
                            assert(status@[m] == st_before[m]);
                            if m == i {
                                assert(clv[0] == i as usize);
                                assert(clv.contains(i as usize));
                            }
                            assert(st_before[m] == PointStatus::Visited);
                            assert(st_loop[m] == PointStatus::Visited);
                            let (c, k) = choose|c: int, k: int|
                                0 <= c < clusters_before.len() && 0 <= k < clusters_before[c]@.len()
                                    && clusters_before[c]@[k] == m as usize;
                            assert(clusters@[c]@[k] == m as usize);
                        }
                    }
                    // disjointness of the new cluster from the old ones
                    assert forall|c1: int, k1: int, c2: int, k2: int|
                        0 <= c1 < c2 < clusters@.len() && 0 <= k1 < clusters@[c1]@.len() && 0 <= k2
                            < clusters@[c2]@.len() implies (#[trigger] clusters@[c1]@[k1])
                        != (#[trigger] clusters@[c2]@[k2]) by {
                        assert(clusters@[c1]@ == clusters_before[c1]@);
                        if c2 == clusters@.len() - 1 {
                            let m = clusters_before[c1]@[k1];
                            assert(clusters@[c1]@[k1] == m);
                            assert(st_loop[m as int] == PointStatus::Visited);
                            assert(m != i as usize);
                            assert(st_before[m as int] == PointStatus::Visited);
                            assert(clusters@[c2]@[k2] == clv[k2]);
                            if k2 >= 1 {
                                assert(st_before[(clv[k2]) as int] != PointStatus::Visited);
                            } else {
                                assert(clv[0] == i as usize);
                            }
                        } else {
                            assert(clusters@[c2]@ == clusters_before[c2]@);
                        }
                    }
                    // the seed is in the new cluster, so point i is covered
                    assert(clv[0] == i as usize);
                    assert(clusters_partition_wf(clusters@, n as int));
                    if min_pts <= 1 && near_reflexive(near@) && near_symmetric(near@) {
                        assert(expansion_total(near@, st_before, min_pts));
                        let cl = clusters@.len() - 1;
                        // neighborhood closure: a neighbor of a new member
                        // was left visited by the expansion, and a visited
                        // point of an older cluster would drag the member
                        // into that cluster, against disjointness.
                        assert forall|c: int, k: int, x: int|
                            #![trigger clusters@[c]@[k], clusters@[c]@.contains(x as usize)]
                            0 <= c < clusters@.len() && 0 <= k < clusters@[c]@.len() && 0 <= x < n
                                && near@[clusters@[c]@[k] as int]@[x] implies clusters@[c]@.contains(
                            x as usize,
                        ) by {
                            if c == cl {
                                let m = clv[k];
                                assert(near@[clv[k] as int]@[x]);
                                assert(status@[x] == PointStatus::Visited);
                                let (c2, k2) = choose|c2: int, k2: int|
                                    0 <= c2 < clusters@.len() && 0 <= k2 < clusters@[c2]@.len()
                                        && clusters@[c2]@[k2] == x as usize;
                                if c2 == cl {
                                    assert(clusters@[cl]@[k2] == x as usize);
                                    assert(clusters@[cl]@.contains(x as usize));
                                } else {
                                    // x sits in an older cluster; by symmetry
                                    // and that cluster's closure, so would m.
                                    assert(clusters@[c2]@ == clusters_before[c2]@);
                                    assert(clusters_before[c2]@[k2] == x as usize);
                                    assert(near@[x]@[m as int]);
                                    assert(clusters_before[c2]@.contains(m));
                                    let km = choose|km: int|
                                        0 <= km < clusters_before[c2]@.len()
                                            && clusters_before[c2]@[km] == m;
                                    assert(st_loop[m as int] == PointStatus::Visited);
                                    if k >= 1 {
                                        assert(st_before[m as int] != PointStatus::Visited);
                                        assert(st_before == st_loop.update(
                                            i as int,
                                            PointStatus::Visited,
                                        ));
                                        assert(false);
                                    } else {
                                        assert(m == i as usize);
                                        assert(st_loop[i as int] == PointStatus::Unvisited);
                                        assert(false);
                                    }
                                }
                            } else {
                                assert(clusters@[c]@ == clusters_before[c]@);
                                assert(clusters_before[c]@[k] == clusters@[c]@[k]);
                                assert(clusters_before[c]@.contains(x as usize));
                            }
                        }
                        // pairwise connectivity through the seed
                        assert forall|c: int, k1: int, k2: int|
                            #![trigger clusters@[c]@[k1], clusters@[c]@[k2]]
                            0 <= c < clusters@.len() && 0 <= k1 < clusters@[c]@.len() && 0 <= k2
                                < clusters@[c]@.len() implies near_connected(
                            near@,
                            clusters@[c]@[k1] as int,
                            clusters@[c]@[k2] as int,
                        ) by {
                            if c == cl {
                                assert(near_connected(near@, i as int, clv[k1] as int));
                                assert(near_connected(near@, i as int, clv[k2] as int));
                                lemma_connected_reverse(near@, i as int, clv[k1] as int);
                                lemma_connected_trans(
                                    near@,
                                    clv[k1] as int,
                                    i as int,
                                    clv[k2] as int,
                                );
                            } else {
                                assert(clusters@[c]@ == clusters_before[c]@);
                                assert(clusters_before[c]@[k1] == clusters@[c]@[k1]);
                                assert(clusters_before[c]@[k2] == clusters@[c]@[k2]);
                            }
                        }
                    }
                }
            }
        }
        proof {
            if min_pts <= 1 && near_reflexive(near@) {
                assert(status@[i as int] == PointStatus::Visited);
            }
        }
    }
    proof {
        if min_pts <= 1 && near_reflexive(near@) {
            lemma_count_visited_bounds(status@);
            assert forall|m: int| 0 <= m < near@.len() implies #[trigger] in_some_cluster(
                clusters@,
                m,
            ) by {
                assert(status@[m] == PointStatus::Visited);
                let (c, k) = choose|c: int, k: int|
                    0 <= c < clusters@.len() && 0 <= k < clusters@[c]@.len() && clusters@[c]@[k]
                        == m as usize;
                assert(clusters@[c]@.contains(m as usize));
            }
        }
    }
    clusters
}

/// Total of the observation counts of a report.
pub open spec fn sum_counts(rs: Seq<InferredRepeater>) -> int
    decreases rs.len(),
{
    if rs.len() == 0 {
        0
    } else {
        sum_counts(rs.drop_last()) + rs.last().observation_count
    }
}

/// Number of midpoints carrying prefix `p`.
pub open spec fn count_prefix_eq(mids: Seq<Midpoint>, p: int) -> int
    decreases mids.len(),
{
    if mids.len() == 0 {
        0
    } else {
        count_prefix_eq(mids.drop_last(), p) + if mids.last().prefix == p {
            1int
        } else {
            0int
        }
    }
}

/// Number of midpoints carrying a prefix below `pmax`.
pub open spec fn count_prefix_lt(mids: Seq<Midpoint>, pmax: int) -> int
    decreases mids.len(),
{
    if mids.len() == 0 {
        0
    } else {
        count_prefix_lt(mids.drop_last(), pmax) + if mids.last().prefix < pmax {
            1int
        } else {
            0int
        }
    }
}

proof fn lemma_count_prefix_lt_succ(mids: Seq<Midpoint>, p: int)
    ensures
        count_prefix_lt(mids, p + 1) == count_prefix_lt(mids, p) + count_prefix_eq(mids, p),
    decreases mids.len(),
{
    if mids.len() > 0 {
        lemma_count_prefix_lt_succ(mids.drop_last(), p);
    }
}

proof fn lemma_count_prefix_lt_all(mids: Seq<Midpoint>)
    ensures
        count_prefix_lt(mids, 256) == mids.len(),
        count_prefix_lt(mids, 0) == 0,
    decreases mids.len(),
{
    if mids.len() > 0 {
        lemma_count_prefix_lt_all(mids.drop_last());
    }
}

/// The positions of the midpoints carrying prefix `p` among the first
/// `upto`, ascending.
spec fn spec_group(mids: Seq<Midpoint>, p: int, upto: int) -> Seq<usize>
    decreases upto,
{
    if upto <= 0 {
        Seq::empty()
    } else {
        let rest = spec_group(mids, p, upto - 1);
        if mids[upto - 1].prefix == p {
            rest.push((upto - 1) as usize)
        } else {
            rest
        }
    }
}

proof fn lemma_group_props(mids: Seq<Midpoint>, p: int, upto: int)
    requires
        0 <= upto <= mids.len(),
        mids.len() <= 0x1_0000_0000,
    ensures
        spec_group(mids, p, upto).len() == count_prefix_eq(mids.take(upto), p),
        forall|k: int|
            0 <= k < spec_group(mids, p, upto).len() ==> (#[trigger] spec_group(mids, p, upto)[k])
                < upto,
        forall|k: int|
            0 <= k < spec_group(mids, p, upto).len() ==> mids[(#[trigger] spec_group(
                mids,
                p,
                upto,
            )[k]) as int].prefix == p,
        forall|k1: int, k2: int|
            0 <= k1 < k2 < spec_group(mids, p, upto).len() ==> (#[trigger] spec_group(
                mids,
                p,
                upto,
            )[k1]) < (#[trigger] spec_group(mids, p, upto)[k2]),
        forall|m: int|
            0 <= m < upto && mids[m].prefix == p ==> spec_group(mids, p, upto).contains(
                m as usize,
            ),
    decreases upto,
{
    if upto > 0 {
        lemma_group_props(mids, p, upto - 1);
        assert(mids.take(upto).drop_last() =~= mids.take(upto - 1));
        assert(mids.take(upto).last() == mids[upto - 1]);
        let rest = spec_group(mids, p, upto - 1);
        let whole = spec_group(mids, p, upto);
        assert forall|k1: int, k2: int| 0 <= k1 < k2 < whole.len() implies (#[trigger] whole[k1])
            < (#[trigger] whole[k2]) by {
            if mids[upto - 1].prefix == p {
                if k2 < rest.len() {
                    assert(whole[k1] == rest[k1] && whole[k2] == rest[k2]);
                } else {
                    assert(whole[k1] == rest[k1] && whole[k2] == (upto - 1) as usize);
                }
            } else {
                assert(whole[k1] == rest[k1] && whole[k2] == rest[k2]);
            }
        }
        assert forall|m: int| 0 <= m < upto && mids[m].prefix == p implies whole.contains(
            m as usize,
        ) by {
            if m < upto - 1 {
                let k = choose|k: int| 0 <= k < rest.len() && rest[k] == m as usize;
                assert(whole[k] == m as usize);
            } else {
                assert(whole.last() == m as usize);
            }
        }
    }
}

proof fn lemma_sum_counts_remove(rs: Seq<InferredRepeater>, i: int)
    requires
        0 <= i < rs.len(),
    ensures
        sum_counts(rs.remove(i)) == sum_counts(rs) - rs[i].observation_count,
    decreases rs.len(),
{
    if rs.len() > 0 {
        if i == rs.len() - 1 {
            assert(rs.remove(i) =~= rs.drop_last());
        } else {
            lemma_sum_counts_remove(rs.drop_last(), i);
            assert(rs.remove(i).drop_last() =~= rs.drop_last().remove(i));
            assert(rs.remove(i).last() == rs.last());
        }
    }
}

/// Sorts a report block by latitude ascending, by repeated extraction of
/// the least remaining entry; the entries and the count total are kept.
fn sort_by_lat(block: Vec<InferredRepeater>) -> (r: Vec<InferredRepeater>)
    ensures
        r@.len() == block@.len(),
        r@.to_multiset() == block@.to_multiset(),
        sum_counts(r@) == sum_counts(block@),
        forall|k: int|
            0 <= k < r@.len() ==> exists|k0: int|
                0 <= k0 < block@.len() && #[trigger] r@[k] == #[trigger] block@[k0],
        forall|i: int, j: int|
            0 <= i < j < r@.len() ==> (#[trigger] r@[i]).lat_udeg <= (#[trigger] r@[j]).lat_udeg,
{
    let ghost orig = block@;
    let mut src = block;
    let mut out: Vec<InferredRepeater> = Vec::new();
    proof {
        assert forall|k: int| 0 <= k < src@.len() implies exists|k0: int|
            0 <= k0 < orig.len() && #[trigger] src@[k] == #[trigger] orig[k0] by {
            assert(src@[k] == orig[k]);
        }
    }
    while src.len() > 0
        invariant
            out@.to_multiset().add(src@.to_multiset()) == orig.to_multiset(),
            sum_counts(out@) + sum_counts(src@) == sum_counts(orig),
            out@.len() + src@.len() == orig.len(),
            forall|i: int, j: int|
                0 <= i < j < out@.len() ==> (#[trigger] out@[i]).lat_udeg <= (
                #[trigger] out@[j]).lat_udeg,
            forall|i: int, j: int|
                0 <= i < out@.len() && 0 <= j < src@.len() ==> (#[trigger] out@[i]).lat_udeg <= (
                #[trigger] src@[j]).lat_udeg,
            forall|k: int|
                0 <= k < out@.len() ==> exists|k0: int|
                    0 <= k0 < orig.len() && #[trigger] out@[k] == #[trigger] orig[k0],
            forall|k: int|
                0 <= k < src@.len() ==> exists|k0: int|
                    0 <= k0 < orig.len() && #[trigger] src@[k] == #[trigger] orig[k0],
        decreases src@.len(),
    {
        let m = src.len();
        let mut min_idx: usize = 0;
        for k in 1..m
            invariant
                m == src@.len(),
                min_idx < m,
                forall|k2: int|
                    0 <= k2 < k ==> (#[trigger] src@[k2]).lat_udeg >= src@[min_idx as int].lat_udeg,
        {
            if src[k].lat_udeg < src[min_idx].lat_udeg {
                min_idx = k;
            }
        }
        let ghost src_old = src@;
        proof {
            lemma_sum_counts_remove(src@, min_idx as int);
            src_old.to_multiset_ensures();
        }
        let e = src.remove(min_idx);
        proof {
            assert forall|k: int| 0 <= k < src@.len() implies exists|k0: int|
                0 <= k0 < orig.len() && #[trigger] src@[k] == #[trigger] orig[k0] by {
                if k < min_idx {
                    assert(src@[k] == src_old[k]);
                } else {
                    assert(src@[k] == src_old[k + 1]);
                }
            }
            assert forall|k: int| 0 <= k < src@.len() implies (#[trigger] src@[k]).lat_udeg
                >= e.lat_udeg by {
                if k < min_idx {
                    assert(src@[k] == src_old[k]);
                } else {
                    assert(src@[k] == src_old[k + 1]);
                }
            }
        }
        let ghost out_old = out@;
        out.push(e);
        proof {
            assert(out@.drop_last() =~= out_old);
            assert(sum_counts(out@) == sum_counts(out_old) + e.observation_count);
            assert(out@ == out_old.push(e));
            assert(out@.to_multiset() =~= out_old.to_multiset().insert(e));
            assert(src_old.to_multiset() =~= src@.to_multiset().insert(e));
            assert(out@.to_multiset().add(src@.to_multiset()) =~= orig.to_multiset());
        }
    }
    proof {
        src@.to_multiset_ensures();
        assert(src@.to_multiset().len() == 0);
        assert(out@.to_multiset().add(src@.to_multiset()) =~= out@.to_multiset());
    }
    out
}

proof fn lemma_count_zero_when_none_visited(st: Seq<PointStatus>)
    requires
        forall|j: int| 0 <= j < st.len() ==> #[trigger] st[j] != PointStatus::Visited,
    ensures
        count_visited(st) == 0,
    decreases st.len(),
{
    if st.len() > 0 {
        lemma_count_zero_when_none_visited(st.drop_last());
    }
}

proof fn lemma_sum_sizes_nonneg(clusters: Seq<Vec<usize>>)
    ensures
        sum_sizes(clusters) >= 0,
    decreases clusters.len(),
{
    if clusters.len() > 0 {
        lemma_sum_sizes_nonneg(clusters.drop_last());
    }
}

proof fn lemma_size_le_sum(clusters: Seq<Vec<usize>>, ci: int)
    requires
        0 <= ci < clusters.len(),
    ensures
        clusters[ci]@.len() <= sum_sizes(clusters),
    decreases clusters.len(),
{
    lemma_sum_sizes_nonneg(clusters.drop_last());
    if ci == clusters.len() - 1 {
    } else {
        lemma_size_le_sum(clusters.drop_last(), ci);
    }
}

proof fn lemma_count_le_sum(clusters: Seq<Vec<usize>>)
    requires
        forall|c: int| 0 <= c < clusters.len() ==> (#[trigger] clusters[c])@.len() >= 1,
    ensures
        clusters.len() <= sum_sizes(clusters),
    decreases clusters.len(),
{
    if clusters.len() > 0 {
        lemma_count_le_sum(clusters.drop_last());
    }
}

/// Sum of the latitudes of the listed midpoints, in microdegrees.
pub open spec fn spec_sum_lat(mids: Seq<Midpoint>, members: Seq<usize>) -> int
    decreases members.len(),
{
    if members.len() == 0 {
        0
    } else {
        spec_sum_lat(mids, members.drop_last()) + mids[members.last() as int].lat_udeg
    }
}

/// Sum of the longitudes of the listed midpoints, in microdegrees.
pub open spec fn spec_sum_lon(mids: Seq<Midpoint>, members: Seq<usize>) -> int
    decreases members.len(),
{
    if members.len() == 0 {
        0
    } else {
        spec_sum_lon(mids, members.drop_last()) + mids[members.last() as int].lon_udeg
    }
}

/// A walk through the neighborhood relation that keeps to midpoints of
/// one prefix.
pub open spec fn prefix_chain(
    near: Seq<Vec<bool>>,
    mids: Seq<Midpoint>,
    p: u8,
    ch: Seq<int>,
    a: int,
    b: int,
) -> bool {
    &&& ch.len() >= 1
    &&& ch[0] == a
    &&& ch.last() == b
    &&& forall|k: int|
        0 <= k < ch.len() ==> 0 <= #[trigger] ch[k] < mids.len() && mids[ch[k]].prefix == p
    &&& forall|k: int| 0 <= k < ch.len() - 1 ==> near[#[trigger] ch[k]]@[ch[k + 1]]
}

/// Some walk of one prefix joins the two midpoints.
pub open spec fn prefix_connected(
    near: Seq<Vec<bool>>,
    mids: Seq<Midpoint>,
    p: u8,
    a: int,
    b: int,
) -> bool {
    exists|ch: Seq<int>| prefix_chain(near, mids, p, ch, a, b)
}

/// A report entry traced to its cluster: `members` lists distinct
/// midpoints of the entry's prefix, one per observation counted; the
/// entry sits at their floor-mean; the members are pairwise joined by
/// same-prefix walks, and every same-prefix midpoint neighboring a member
/// is itself a member — the cluster is a whole connected component.
pub open spec fn report_entry_from(
    e: InferredRepeater,
    mids: Seq<Midpoint>,
    near: Seq<Vec<bool>>,
    members: Seq<usize>,
) -> bool {
    &&& members.len() >= 1
    &&& e.observation_count == members.len()
    &&& forall|k: int|
        0 <= k < members.len() ==> (#[trigger] members[k]) < mids.len() && mids[members[k] as int].prefix
            == e.prefix_byte
    &&& forall|k1: int, k2: int|
        0 <= k1 < k2 < members.len() ==> (#[trigger] members[k1]) != (#[trigger] members[k2])
    &&& e.lat_udeg == spec_sum_lat(mids, members) / members.len() as int
    &&& e.lon_udeg == spec_sum_lon(mids, members) / members.len() as int
    &&& forall|k: int, x: int|
        #![trigger members[k], members.contains(x as usize)]
        0 <= k < members.len() && 0 <= x < mids.len() && mids[x].prefix == e.prefix_byte
            && near[members[k] as int]@[x] ==> members.contains(x as usize)
    &&& forall|k1: int, k2: int|
        #![trigger members[k1], members[k2]]
        0 <= k1 < members.len() && 0 <= k2 < members.len() ==> prefix_connected(
            near,
            mids,
            e.prefix_byte,
            members[k1] as int,
            members[k2] as int,
        )
}

/// Some cluster of midpoints traces the entry.
pub open spec fn entry_traceable(
    e: InferredRepeater,
    mids: Seq<Midpoint>,
    near: Seq<Vec<bool>>,
) -> bool {
    exists|members: Seq<usize>| report_entry_from(e, mids, near, members)
}

/// Total of the observation counts reported under one prefix.
pub open spec fn sum_counts_prefix(rs: Seq<InferredRepeater>, p: int) -> int
    decreases rs.len(),
{
    if rs.len() == 0 {
        0
    } else {
        sum_counts_prefix(rs.drop_last(), p) + if rs.last().prefix_byte == p {
            rs.last().observation_count as int
        } else {
            0int
        }
    }
}

/// Report order: by prefix byte, then latitude, ascending.
pub open spec fn spec_report_le(a: InferredRepeater, b: InferredRepeater) -> bool {
    ||| a.prefix_byte < b.prefix_byte
    ||| (a.prefix_byte == b.prefix_byte && a.lat_udeg <= b.lat_udeg)
}

proof fn lemma_div_bound(x: int, d: int, m: int)
    requires
        d > 0,
        0 <= m,
        -(d * m) <= x <= d * m,
    ensures
        -m <= x / d <= m,
{
    lemma_div_is_ordered_loc(x, d * m, d);
    lemma_div_is_ordered_loc(-(d * m), x, d);
    vstd::arithmetic::div_mod::lemma_div_multiples_vanish(m, d);
    vstd::arithmetic::div_mod::lemma_div_multiples_vanish(-m, d);
    assert(d * m == m * d) by (nonlinear_arith);
    assert(-(d * m) == -m * d) by (nonlinear_arith);
}

proof fn lemma_div_is_ordered_loc(x: int, y: int, z: int)
    requires
        x <= y,
        0 < z,
    ensures
        x / z <= y / z,
{
    vstd::arithmetic::div_mod::lemma_div_is_ordered(x, y, z);
}

/// A chain of the per-prefix matrix lifts to a same-prefix chain of the
/// full matrix through the group's index mapping.
proof fn lemma_lift_chain(
    near: Seq<Vec<bool>>,
    mids: Seq<Midpoint>,
    p: u8,
    group: Seq<usize>,
    nlv: Seq<Vec<bool>>,
    a_l: int,
    b_l: int,
)
    requires
        near_connected(nlv, a_l, b_l),
        nlv.len() == group.len(),
        forall|a2: int, b2: int|
            0 <= a2 < group.len() && 0 <= b2 < group.len() ==> (#[trigger] nlv[a2]@[b2])
                == near[group[a2] as int]@[group[b2] as int],
        forall|k: int|
            0 <= k < group.len() ==> (#[trigger] group[k]) < mids.len() && mids[group[k] as int].prefix
                == p,
        0 <= a_l < group.len(),
        0 <= b_l < group.len(),
    ensures
        prefix_connected(near, mids, p, group[a_l] as int, group[b_l] as int),
{
    let lch = choose|ch: Seq<int>| near_chain(nlv, ch, a_l, b_l);
    let gch = Seq::new(lch.len(), |t: int| group[lch[t]] as int);
    assert forall|k: int| 0 <= k < gch.len() implies 0 <= #[trigger] gch[k] < mids.len() && mids[
        gch[k]
    ].prefix == p by {
        assert(0 <= lch[k] < group.len());
    }
    assert forall|k: int| 0 <= k < gch.len() - 1 implies near[#[trigger] gch[k]]@[gch[k + 1]] by {
        assert(nlv[lch[k]]@[lch[k + 1]]);
    }
    assert(gch[0] == group[a_l] as int);
    assert(gch.last() == group[b_l] as int);
    assert(prefix_chain(near, mids, p, gch, group[a_l] as int, group[b_l] as int));
}

/// Locates unknown repeaters: the midpoints of each prefix are clustered
/// with DBSCAN at one minimum point over the given neighborhood matrix,
/// each cluster is reported at the centroid of its midpoints (rounded
/// toward negative infinity), and the report is sorted by prefix, then
/// latitude, ascending. `near` says of each pair of midpoints whether
/// their distance is within the clustering radius: square, reflexive and
/// symmetric. Every midpoint lands in exactly one cluster, so the
/// observation counts of the report add up to the number of midpoints,
/// prefix by prefix; and every entry is traceable to a whole connected
/// component of same-prefix midpoints whose floor-mean it reports.
#[verifier::rlimit(100)]
pub fn localize_unknowns(mids: &Vec<Midpoint>, near: &Vec<Vec<bool>>) -> (out: Vec<
    InferredRepeater,
>)
    requires
        near_wf(near@, mids@.len() as int),
        near_reflexive(near@),
        near_symmetric(near@),
        mids@.len() <= 0x1_0000_0000,
        forall|m: int|
            0 <= m < mids@.len() ==> valid_coords(
                (#[trigger] mids@[m]).lat_udeg,
                mids@[m].lon_udeg,
            ),
    ensures
        sum_counts(out@) == mids@.len(),
        forall|i: int, j: int|
            0 <= i < j < out@.len() ==> spec_report_le(#[trigger] out@[i], #[trigger] out@[j]),
        forall|k: int|
            0 <= k < out@.len() ==> {
                let e = #[trigger] out@[k];
                &&& e.observation_count >= 1
                &&& e.prefix@ == spec_hex_byte(e.prefix_byte)
                &&& valid_coords(e.lat_udeg, e.lon_udeg)
            },
        forall|pp: int|
            0 <= pp < 256 ==> #[trigger] sum_counts_prefix(out@, pp) == count_prefix_eq(mids@, pp),
        forall|k: int|
            0 <= k < out@.len() ==> #[trigger] entry_traceable(out@[k], mids@, near@),
{
    let n = mids.len();
    let mut out: Vec<InferredRepeater> = Vec::new();
    let mut p: usize = 0;
    proof {
        lemma_count_prefix_lt_all(mids@);
    }
    while p < 256
        invariant
            n == mids@.len(),
            n <= 0x1_0000_0000,
            p <= 256,
            near_wf(near@, n as int),
            near_reflexive(near@),
            near_symmetric(near@),
            forall|m: int|
                0 <= m < mids@.len() ==> valid_coords(
                    (#[trigger] mids@[m]).lat_udeg,
                    mids@[m].lon_udeg,
                ),
            sum_counts(out@) == count_prefix_lt(mids@, p as int),
            forall|i: int, j: int|
                0 <= i < j < out@.len() ==> spec_report_le(#[trigger] out@[i], #[trigger] out@[j]),
            forall|k: int|
                0 <= k < out@.len() ==> {
                    let e = #[trigger] out@[k];
                    &&& e.observation_count >= 1
                    &&& e.prefix@ == spec_hex_byte(e.prefix_byte)
                    &&& valid_coords(e.lat_udeg, e.lon_udeg)
                    &&& (e.prefix_byte as int) < p
                },
            forall|pp: int|
                0 <= pp < p ==> #[trigger] sum_counts_prefix(out@, pp) == count_prefix_eq(
                    mids@,
                    pp,
                ),
            forall|pp: int|
                p <= pp < 256 ==> #[trigger] sum_counts_prefix(out@, pp) == 0,
            forall|k: int|
                0 <= k < out@.len() ==> #[trigger] entry_traceable(out@[k], mids@, near@),
        decreases 256 - p,
    {
        let mut group: Vec<usize> = Vec::new();
        for m in 0..n
            invariant
                n == mids@.len(),
                p < 256,
                group@ == spec_group(mids@, p as int, m as int),
                group@.len() <= m,
        {
            if mids[m].prefix as usize == p {
                group.push(m);
            }
        }
        proof {
            lemma_group_props(mids@, p as int, n as int);
            assert(mids@.take(n as int) =~= mids@);
            lemma_count_prefix_lt_succ(mids@, p as int);
        }
        let glen = group.len();
        if glen > 0 {
            let mut near_l: Vec<Vec<bool>> = Vec::new();
            for a in 0..glen
                invariant
                    n == mids@.len(),
                    glen == group@.len(),
                    near_wf(near@, n as int),
                    forall|k: int| 0 <= k < group@.len() ==> (#[trigger] group@[k]) < n,
                    near_l@.len() == a,
                    forall|a2: int|
                        0 <= a2 < a ==> (#[trigger] near_l@[a2])@.len() == glen,
                    forall|a2: int, b2: int|
                        0 <= a2 < a && 0 <= b2 < glen ==> (#[trigger] near_l@[a2]@[b2])
                            == near@[group@[a2] as int]@[group@[b2] as int],
            {
                let mut rowv: Vec<bool> = Vec::new();
                for b in 0..glen
                    invariant
                        n == mids@.len(),
                        glen == group@.len(),
                        a < glen,
                        near_wf(near@, n as int),
                        forall|k: int| 0 <= k < group@.len() ==> (#[trigger] group@[k]) < n,
                        rowv@.len() == b,
                        forall|b2: int|
                            0 <= b2 < b ==> (#[trigger] rowv@[b2]) == near@[group@[a as int] as int]@[group@[b2] as int],
                {
                    rowv.push(near[group[a]][group[b]]);
                }
                near_l.push(rowv);
            }
            proof {
                assert(near_wf(near_l@, glen as int));
                assert forall|i: int| 0 <= i < near_l@.len() implies (#[trigger] near_l@[i])@[i] by {
                    assert(near_l@[i]@[i] == near@[group@[i] as int]@[group@[i] as int]);
                }
                assert forall|i: int, j: int|
                    0 <= i < near_l@.len() && 0 <= j < near_l@.len() implies (
                #[trigger] near_l@[i]@[j]) == near_l@[j]@[i] by {
                    assert(near_l@[i]@[j] == near@[group@[i] as int]@[group@[j] as int]);
                    assert(near_l@[j]@[i] == near@[group@[j] as int]@[group@[i] as int]);
                }
            }
            let clusters = dbscan(&near_l, 1);
            proof {
                assert(sum_sizes(clusters@) == glen);
                lemma_count_le_sum(clusters@);
                assert forall|ci: int| 0 <= ci < clusters@.len() implies (#[trigger] clusters@[ci])@.len()
                    <= glen by {
                    lemma_size_le_sum(clusters@, ci);
                }
            }
            let mut block: Vec<InferredRepeater> = Vec::new();
            let nc = clusters.len();
            for ci in 0..nc
                invariant
                    n == mids@.len(),
                    n <= 0x1_0000_0000,
                    p < 256,
                    glen == group@.len(),
                    glen <= n,
                    nc == clusters@.len(),
                    nc <= glen,
                    clusters_partition_wf(clusters@, glen as int),
                    forall|ci2: int|
                        0 <= ci2 < clusters@.len() ==> (#[trigger] clusters@[ci2])@.len() <= glen,
                    forall|k: int| 0 <= k < group@.len() ==> (#[trigger] group@[k]) < n,
                    forall|m: int|
                        0 <= m < mids@.len() ==> valid_coords(
                            (#[trigger] mids@[m]).lat_udeg,
                            mids@[m].lon_udeg,
                        ),
                    block@.len() == ci,
                    sum_counts(block@) == sum_sizes(clusters@.take(ci as int)),
                    forall|k: int|
                        0 <= k < block@.len() ==> {
                            let e = #[trigger] block@[k];
                            &&& e.observation_count >= 1
                            &&& e.prefix@ == spec_hex_byte(e.prefix_byte)
                            &&& valid_coords(e.lat_udeg, e.lon_udeg)
                            &&& e.prefix_byte == p as u8
                        },
                    group@ == spec_group(mids@, p as int, n as int),
                    near_l@.len() == glen,
                    forall|a2: int, b2: int|
                        0 <= a2 < glen && 0 <= b2 < glen ==> (#[trigger] near_l@[a2]@[b2])
                            == near@[group@[a2] as int]@[group@[b2] as int],
                    forall|c: int, k: int, x: int|
                        #![trigger clusters@[c]@[k], clusters@[c]@.contains(x as usize)]
                        0 <= c < clusters@.len() && 0 <= k < clusters@[c]@.len() && 0 <= x < glen
                            && near_l@[clusters@[c]@[k] as int]@[x] ==> clusters@[c]@.contains(
                            x as usize,
                        ),
                    forall|c: int, k1: int, k2: int|
                        #![trigger clusters@[c]@[k1], clusters@[c]@[k2]]
                        0 <= c < clusters@.len() && 0 <= k1 < clusters@[c]@.len() && 0 <= k2
                            < clusters@[c]@.len() ==> near_connected(
                            near_l@,
                            clusters@[c]@[k1] as int,
                            clusters@[c]@[k2] as int,
                        ),
                    forall|k: int|
                        0 <= k < block@.len() ==> #[trigger] entry_traceable(
                            block@[k],
                            mids@,
                            near@,
                        ),
            {
                let cluster = &clusters[ci];
                let csize = cluster.len();
                let mut lat_sum: i64 = 0;
                let mut lon_sum: i64 = 0;
                let ghost mut mapped: Seq<usize> = Seq::empty();
                for k in 0..csize
                    invariant
                        mapped.len() == k,
                        forall|t: int|
                            0 <= t < k ==> #[trigger] mapped[t] == group@[cluster@[t] as int],
                        lat_sum == spec_sum_lat(mids@, mapped),
                        lon_sum == spec_sum_lon(mids@, mapped),
                        n == mids@.len(),
                        n <= 0x1_0000_0000,
                        glen == group@.len(),
                        glen <= n,
                        ci < nc,
                        nc == clusters@.len(),
                        csize == clusters@[ci as int]@.len(),
                        csize <= glen,
                        clusters_partition_wf(clusters@, glen as int),
                        cluster@ == clusters@[ci as int]@,
                        forall|k2: int| 0 <= k2 < group@.len() ==> (#[trigger] group@[k2]) < n,
                        forall|m: int|
                            0 <= m < mids@.len() ==> valid_coords(
                                (#[trigger] mids@[m]).lat_udeg,
                                mids@[m].lon_udeg,
                            ),
                        -(k as int) * MAX_LAT_UDEG <= lat_sum <= (k as int) * MAX_LAT_UDEG,
                        -(k as int) * MAX_LON_UDEG <= lon_sum <= (k as int) * MAX_LON_UDEG,
                {
                    proof {
                        assert((k as int) * MAX_LAT_UDEG + MAX_LAT_UDEG == (k + 1)
                            * MAX_LAT_UDEG) by (nonlinear_arith);
                        assert((k as int) * MAX_LON_UDEG + MAX_LON_UDEG == (k + 1)
                            * MAX_LON_UDEG) by (nonlinear_arith);
                        assert((k + 1) * MAX_LAT_UDEG <= 0x1_0000_0001 * MAX_LAT_UDEG)
                            by (nonlinear_arith)
                            requires
                                0 <= k < 0x1_0000_0000,
                        ;
                        assert((k + 1) * MAX_LON_UDEG <= 0x1_0000_0001 * MAX_LON_UDEG)
                            by (nonlinear_arith)
                            requires
                                0 <= k < 0x1_0000_0000,
                        ;
                        assert(-(0x1_0000_0001 * MAX_LAT_UDEG) <= -((k + 1) * MAX_LAT_UDEG))
                            by (nonlinear_arith)
                            requires
                                0 <= k < 0x1_0000_0000,
                        ;
                        assert(-(0x1_0000_0001 * MAX_LON_UDEG) <= -((k + 1) * MAX_LON_UDEG))
                            by (nonlinear_arith)
                            requires
                                0 <= k < 0x1_0000_0000,
                        ;
                    }
                    let li = cluster[k];
                    let gi = group[li];
                    proof {
                        let prev = mapped;
                        mapped = mapped.push(gi);
                        assert(mapped.drop_last() =~= prev);
                    }
                    lat_sum = lat_sum + mids[gi].lat_udeg;
                    lon_sum = lon_sum + mids[gi].lon_udeg;
                }
                proof {
                    assert(csize >= 1);
                    assert((csize as int) * MAX_LAT_UDEG <= 0x1_0000_0000 * MAX_LAT_UDEG)
                        by (nonlinear_arith)
                        requires
                            0 <= csize <= 0x1_0000_0000,
                    ;
                    assert((csize as int) * MAX_LON_UDEG <= 0x1_0000_0000 * MAX_LON_UDEG)
                        by (nonlinear_arith)
                        requires
                            0 <= csize <= 0x1_0000_0000,
                    ;
                }
                let lat_c = div_floor_i64(lat_sum, csize as u64);
                let lon_c = div_floor_i64(lon_sum, csize as u64);
                proof {
                    lemma_div_bound(lat_sum as int, csize as int, MAX_LAT_UDEG as int);
                    lemma_div_bound(lon_sum as int, csize as int, MAX_LON_UDEG as int);
                }
                let e = InferredRepeater {
                    prefix: crate::models::hex_byte_string(p as u8),
                    prefix_byte: p as u8,
                    lat_udeg: lat_c,
                    lon_udeg: lon_c,
                    observation_count: csize,
                };
                proof {
                    lemma_group_props(mids@, p as int, n as int);
                    assert(mids@.take(n as int) =~= mids@);
                    // the cluster's members, mapped through the group, trace
                    // the entry to its midpoints
                    assert forall|k1: int, k2: int|
                        0 <= k1 < k2 < mapped.len() implies (#[trigger] mapped[k1])
                        != (#[trigger] mapped[k2]) by {
                        assert(cluster@[k1] != cluster@[k2]);
                        if cluster@[k1] < cluster@[k2] {
                            assert(group@[cluster@[k1] as int] < group@[cluster@[k2] as int]);
                        } else {
                            assert(group@[cluster@[k2] as int] < group@[cluster@[k1] as int]);
                        }
                    }
                    assert forall|k: int, x: int|
                        #![trigger mapped[k], mapped.contains(x as usize)]
                        0 <= k < mapped.len() && 0 <= x < mids@.len() && mids@[x].prefix == (
                        p as u8) && near@[mapped[k] as int]@[x] implies mapped.contains(
                        x as usize,
                    ) by {
                        assert(group@.contains(x as usize));
                        let lx = choose|lx: int|
                            0 <= lx < group@.len() && group@[lx] == x as usize;
                        assert(mapped[k] == group@[cluster@[k] as int]);
                        assert(near_l@[cluster@[k] as int]@[lx] == near@[mapped[k] as int]@[x]);
                        assert(clusters@[ci as int]@[k] == cluster@[k]);
                        assert(clusters@[ci as int]@.contains(lx as usize));
                        let t = choose|t: int|
                            0 <= t < clusters@[ci as int]@.len() && clusters@[ci as int]@[t]
                                == lx as usize;
                        assert(mapped[t] == group@[lx]);
                    }
                    assert forall|k1: int, k2: int|
                        #![trigger mapped[k1], mapped[k2]]
                        0 <= k1 < mapped.len() && 0 <= k2 < mapped.len() implies prefix_connected(
                        near@,
                        mids@,
                        p as u8,
                        mapped[k1] as int,
                        mapped[k2] as int,
                    ) by {
                        assert(clusters@[ci as int]@[k1] == cluster@[k1]);
                        assert(clusters@[ci as int]@[k2] == cluster@[k2]);
                        assert(near_connected(
                            near_l@,
                            cluster@[k1] as int,
                            cluster@[k2] as int,
                        ));
                        lemma_lift_chain(
                            near@,
                            mids@,
                            p as u8,
                            group@,
                            near_l@,
                            cluster@[k1] as int,
                            cluster@[k2] as int,
                        );
                        assert(mapped[k1] == group@[cluster@[k1] as int]);
                        assert(mapped[k2] == group@[cluster@[k2] as int]);
                    }
                    assert(report_entry_from(e, mids@, near@, mapped));
                }
                let ghost block_old = block@;
                block.push(e);
                proof {
                    assert(block@.drop_last() =~= block_old);
                    assert(clusters@.take(ci + 1).drop_last() =~= clusters@.take(ci as int));
                    assert(clusters@.take(ci + 1).last() == clusters@[ci as int]);
                    assert(sum_counts(block@) == sum_sizes(clusters@.take(ci + 1)));
                    assert forall|k: int| 0 <= k < block@.len() implies #[trigger] entry_traceable(
                        block@[k],
                        mids@,
                        near@,
                    ) by {
                        if k < block_old.len() {
                            assert(block@[k] == block_old[k]);
                        } else {
                            assert(block@[k] == e);
                            assert(report_entry_from(block@[k], mids@, near@, mapped));
                        }
                    }
                }
            }
            proof {
                assert(clusters@.take(nc as int) =~= clusters@);
            }
            let ghost blockv = block@;
            let mut rest = sort_by_lat(block);
            let ghost sv = rest@;
            let ghost out_pre = out@;
            proof {
                assert forall|k: int| 0 <= k < sv.len() implies #[trigger] entry_traceable(
                    sv[k],
                    mids@,
                    near@,
                ) by {
                    let k0 = choose|k0: int| 0 <= k0 < blockv.len() && sv[k] == blockv[k0];
                    assert(entry_traceable(blockv[k0], mids@, near@));
                }
            }
            while rest.len() > 0
                invariant
                    sv.len() <= 0x1_0000_0000,
                    rest@ == sv.skip(sv.len() - rest@.len()),
                    rest@.len() <= sv.len(),
                    out@.len() == out_pre.len() + (sv.len() - rest@.len()),
                    out@.take(out_pre.len() as int) == out_pre,
                    forall|k: int|
                        0 <= k < sv.len() - rest@.len() ==> #[trigger] out@[out_pre.len() + k]
                            == sv[k],
                    sum_counts(out@) == sum_counts(out_pre) + sum_counts(
                        sv.take(sv.len() - rest@.len()),
                    ),
                    forall|i: int, j: int|
                        0 <= i < j < sv.len() ==> (#[trigger] sv[i]).lat_udeg <= (
                        #[trigger] sv[j]).lat_udeg,
                    forall|k: int|
                        0 <= k < sv.len() ==> {
                            let e = #[trigger] sv[k];
                            &&& e.observation_count >= 1
                            &&& e.prefix@ == spec_hex_byte(e.prefix_byte)
                            &&& valid_coords(e.lat_udeg, e.lon_udeg)
                            &&& e.prefix_byte == p as u8
                        },
                    forall|k: int|
                        0 <= k < out_pre.len() ==> {
                            let e = #[trigger] out_pre[k];
                            &&& e.observation_count >= 1
                            &&& e.prefix@ == spec_hex_byte(e.prefix_byte)
                            &&& valid_coords(e.lat_udeg, e.lon_udeg)
                            &&& (e.prefix_byte as int) < p
                        },
                    forall|i: int, j: int|
                        0 <= i < j < out_pre.len() ==> spec_report_le(
                            #[trigger] out_pre[i],
                            #[trigger] out_pre[j],
                        ),
                    p < 256,
                    forall|pp: int|
                        0 <= pp < 256 && pp != p ==> #[trigger] sum_counts_prefix(out@, pp)
                            == sum_counts_prefix(out_pre, pp),
                    sum_counts_prefix(out@, p as int) == sum_counts_prefix(out_pre, p as int)
                        + sum_counts(sv.take(sv.len() - rest@.len())),
                    forall|k: int|
                        0 <= k < sv.len() ==> #[trigger] entry_traceable(sv[k], mids@, near@),
                    forall|k: int|
                        0 <= k < out@.len() ==> #[trigger] entry_traceable(out@[k], mids@, near@),
                decreases rest@.len(),
            {
                let ghost done = sv.len() - rest@.len();
                proof {
                    lemma_sum_counts_remove(rest@, 0);
                    assert(rest@[0] == sv[done]);
                    assert(sv.take(done + 1).drop_last() =~= sv.take(done));
                    assert(sv.take(done + 1).last() == sv[done]);
                }
                let e = rest.remove(0);
                proof {
                    assert(rest@ =~= sv.skip(done + 1));
                }
                let ghost out_before = out@;
                out.push(e);
                proof {
                    assert(out@.drop_last() =~= out_before);
                    assert(out@.take(out_pre.len() as int) =~= out_pre);
                    assert(sum_counts(out@) == sum_counts(out_before) + e.observation_count);
                    assert(e == sv[done]);
                    assert forall|pp: int| 0 <= pp < 256 implies #[trigger] sum_counts_prefix(
                        out@,
                        pp,
                    ) == sum_counts_prefix(out_before, pp) + (
                    if pp == p {
                        e.observation_count as int
                    } else {
                        0int
                    }) by {
                        assert(out@.last() == e);
                    }
                    assert forall|k: int| 0 <= k < out@.len() implies #[trigger] entry_traceable(
                        out@[k],
                        mids@,
                        near@,
                    ) by {
                        if k < out_before.len() {
                            assert(out@[k] == out_before[k]);
                        } else {
                            assert(out@[k] == sv[done]);
                        }
                    }
                }
            }
            proof {
                assert(sv.take(sv.len() as int) =~= sv);
                assert(sum_counts(sv) == sum_sizes(clusters@));
                assert(sum_counts(out@) == count_prefix_lt(mids@, p as int) + glen);
                assert(glen == count_prefix_eq(mids@, p as int));
                assert(sum_counts(out@) == count_prefix_lt(mids@, p + 1));
                assert forall|i: int, j: int| 0 <= i < j < out@.len() implies spec_report_le(
                    #[trigger] out@[i],
                    #[trigger] out@[j],
                ) by {
                    if j >= out_pre.len() {
                        let kj = j - out_pre.len();
                        assert(out@[out_pre.len() + kj] == sv[kj]);
                        assert(out@[j] == sv[kj]);
                        if i >= out_pre.len() {
                            let ki = i - out_pre.len();
                            assert(out@[out_pre.len() + ki] == sv[ki]);
                            assert(out@[i] == sv[ki]);
                        } else {
                            assert(out@[i] == out_pre[i]);
                        }
                    } else {
                        assert(out@[i] == out_pre[i]);
                        assert(out@[j] == out_pre[j]);
                    }
                }
                assert forall|k: int| 0 <= k < out@.len() implies {
                    let e = #[trigger] out@[k];
                    &&& e.observation_count >= 1
                    &&& e.prefix@ == spec_hex_byte(e.prefix_byte)
                    &&& valid_coords(e.lat_udeg, e.lon_udeg)
                    &&& (e.prefix_byte as int) <= p
                } by {
                    if k < out_pre.len() {
                        assert(out@[k] == out_pre[k]);
                    } else {
                        let kk = k - out_pre.len();
                        assert(out@[out_pre.len() + kk] == sv[kk]);
                        assert(out@[k] == sv[kk]);
                    }
                }
                assert(sum_counts_prefix(out@, p as int) == count_prefix_eq(mids@, p as int));
            }
        } else {
            proof {
                assert(count_prefix_eq(mids@, p as int) == 0);
            }
        }
        p = p + 1;
    }
    proof {
        lemma_count_prefix_lt_all(mids@);
        assert(count_prefix_lt(mids@, 256) == mids@.len());
    }
    out
}

} // verus!
