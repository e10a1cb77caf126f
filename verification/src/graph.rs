use vstd::prelude::*;

verus! {

broadcast use
    vstd::seq_lib::group_to_multiset_ensures,
    vstd::seq_lib::lemma_seq_contains_after_push,
;

use crate::models::PathNode;
use crate::models::Repeater;
use crate::models::spec_prefix_of;
use crate::spatial::SpatialIndex;
use crate::spatial::index_entries;
use crate::spatial::spec_in_box;
use crate::viterbi::COST_KNOWN_TO_UNKNOWN_MICRO;
use crate::viterbi::COST_START_KNOWN_MICRO;
use crate::viterbi::COST_UNKNOWN_TO_KNOWN_MICRO;
use crate::viterbi::COST_UNKNOWN_TO_UNKNOWN_MICRO;
use crate::viterbi::DecodeError;
use crate::viterbi::entry_pred;
use crate::viterbi::lemma_backtrack_len;
use crate::viterbi::lemma_row_ok;
use crate::viterbi::row_view;
use crate::viterbi::spec_backtrack;
use crate::viterbi::spec_best_upto;
use crate::viterbi::spec_decode;
use crate::viterbi::spec_empty_row;
use crate::viterbi::spec_final_state;
use crate::viterbi::spec_init_row;
use crate::viterbi::spec_process_pred;
use crate::viterbi::spec_relax;
use crate::viterbi::spec_relax_adj;
use crate::viterbi::spec_relax_byp;
use crate::viterbi::spec_row;
use crate::viterbi::spec_state_node;
use crate::viterbi::spec_step_row;
use crate::viterbi::spec_step_upto;

/// Finite links cost strictly less than this; costs are in micro-units
/// (one million per unit of penalty), so this is a penalty of 1000.
pub const COST_CAP_MICRO: i64 = 1_000_000_000;

/// Half-width of the rectangle searched for neighbor candidates, in
/// microdegrees: the 150 km cutoff at 111 km per degree, widened by a
/// fifth for safety and rounded up.
pub const SEARCH_HALF_WIDTH_UDEG: i64 = 1_621_622;

/// The repeater network: the repeater table, a sparse adjacency list of
/// `(neighbor, cost)` pairs per repeater, and the repeaters grouped by
/// their one-byte prefix.
pub struct NetworkGraph {
    nodes: Vec<Repeater>,
    adjacency: Vec<Vec<(usize, i64)>>,
    nodes_by_prefix: Vec<Vec<usize>>,
}

/// The adjacency row of repeater `i`: the links leaving `i`, in input
/// order, that cost strictly less than the cap.
pub open spec fn spec_adj_row(links: Seq<(usize, usize, i64)>, i: int) -> Seq<(usize, i64)>
    decreases links.len(),
{
    if links.len() == 0 {
        Seq::empty()
    } else {
        let rest = spec_adj_row(links.drop_last(), i);
        let l = links.last();
        if l.0 == i && l.2 < COST_CAP_MICRO {
            rest.push((l.1, l.2))
        } else {
            rest
        }
    }
}

/// The prefix group of `p`: the indices of the repeaters whose identifier
/// encodes prefix `p`, in ascending order.
pub open spec fn spec_prefix_row(nodes: Seq<Repeater>, p: int) -> Seq<usize>
    decreases nodes.len(),
{
    if nodes.len() == 0 {
        Seq::empty()
    } else {
        let rest = spec_prefix_row(nodes.drop_last(), p);
        if spec_prefix_of(nodes.last().id@) == p {
            rest.push((nodes.len() - 1) as usize)
        } else {
            rest
        }
    }
}

/// Structural soundness of a graph: adjacency rows point at real, distinct
/// repeaters with bounded nonnegative costs, and the prefix table has one
/// group per byte holding exactly the matching repeaters.
pub open spec fn graph_inv(
    nodes: Seq<Repeater>,
    adj: Seq<Seq<(usize, i64)>>,
    byp: Seq<Seq<usize>>,
) -> bool {
    &&& nodes.len() < 0xFFFF_FFFF
    &&& adj.len() == nodes.len()
    &&& forall|i: int| 0 <= i < nodes.len() ==> (#[trigger] nodes[i]).wf()
    &&& forall|i: int, k: int|
        0 <= i < adj.len() && 0 <= k < adj[i].len() ==> {
            let (j, c) = #[trigger] adj[i][k];
            &&& j < nodes.len()
            &&& j != i
            &&& 0 <= c < COST_CAP_MICRO
        }
    &&& byp.len() == 256
    &&& forall|p: int| 0 <= p < 256 ==> #[trigger] byp[p] == spec_prefix_row(nodes, p)
}

impl NetworkGraph {
    pub closed spec fn spec_nodes(&self) -> Seq<Repeater> {
        self.nodes@
    }

    pub closed spec fn spec_adj(&self) -> Seq<Seq<(usize, i64)>> {
        self.adjacency@.map_values(|v: Vec<(usize, i64)>| v@)
    }

    pub closed spec fn spec_byp(&self) -> Seq<Seq<usize>> {
        self.nodes_by_prefix@.map_values(|v: Vec<usize>| v@)
    }

    pub open spec fn wf(&self) -> bool {
        graph_inv(self.spec_nodes(), self.spec_adj(), self.spec_byp())
    }

    /// The number of repeaters in the graph.
    pub fn node_count(&self) -> (n: usize)
        ensures
            n == self.spec_nodes().len(),
    {
        self.nodes.len()
    }

    /// Builds the graph from the repeater table and a list of candidate
    /// links `(from, to, cost)` in micro-units. A link enters the adjacency
    /// exactly when its cost is strictly below the cap; rows keep the input
    /// order. The prefix table groups repeater indices by prefix in
    /// ascending order.
    pub fn new(nodes: Vec<Repeater>, links: Vec<(usize, usize, i64)>) -> (g: NetworkGraph)
        requires
            nodes@.len() < 0xFFFF_FFFF,
            forall|i: int| 0 <= i < nodes@.len() ==> (#[trigger] nodes@[i]).wf(),
            forall|k: int|
                0 <= k < links@.len() ==> {
                    let (a, b, c) = #[trigger] links@[k];
                    &&& a < nodes@.len()
                    &&& b < nodes@.len()
                    &&& a != b
                    &&& c >= 0
                },
        ensures
            g.wf(),
            g.spec_nodes() == nodes@,
            forall|i: int|
                0 <= i < nodes@.len() ==> #[trigger] g.spec_adj()[i] == spec_adj_row(links@, i),
    {
        let n = nodes.len();
        let mut adjacency: Vec<Vec<(usize, i64)>> = Vec::new();
        for i in 0..n
            invariant
                n == nodes.len(),
                adjacency.len() == i,
                forall|k: int|
                    0 <= k < links@.len() ==> {
                        let (a, b, c) = #[trigger] links@[k];
                        &&& a < nodes@.len()
                        &&& b < nodes@.len()
                        &&& a != b
                        &&& c >= 0
                    },
                forall|m: int|
                    0 <= m < i ==> #[trigger] adjacency@[m]@ == spec_adj_row(links@, m),
        {
            let mut row: Vec<(usize, i64)> = Vec::new();
            let nl = links.len();
            for k in 0..nl
                invariant
                    nl == links.len(),
                    forall|k2: int|
                        0 <= k2 < links@.len() ==> {
                            let (a, b, c) = #[trigger] links@[k2];
                            &&& a < nodes@.len()
                            &&& b < nodes@.len()
                            &&& a != b
                            &&& c >= 0
                        },
                    row@ == spec_adj_row(links@.take(k as int), i as int),
            {
                proof {
                    assert(links@.take(k + 1).drop_last() =~= links@.take(k as int));
                    assert(links@.take(k + 1).last() == links@[k as int]);
                }
                let (a, b, c) = links[k];
                if a == i && c < COST_CAP_MICRO {
                    row.push((b, c));
                }
            }
            proof {
                assert(links@.take(nl as int) =~= links@);
            }
            adjacency.push(row);
        }
        let mut nodes_by_prefix: Vec<Vec<usize>> = Vec::new();
        for p in 0..256usize
            invariant
                n == nodes.len(),
                nodes_by_prefix.len() == p,
                forall|m: int|
                    0 <= m < p ==> #[trigger] nodes_by_prefix@[m]@ == spec_prefix_row(nodes@, m),
        {
            let mut group: Vec<usize> = Vec::new();
            for j in 0..n
                invariant
                    n == nodes.len(),
                    group@ == spec_prefix_row(nodes@.take(j as int), p as int),
            {
                proof {
                    assert(nodes@.take(j + 1).drop_last() =~= nodes@.take(j as int));
                    assert(nodes@.take(j + 1).last() == nodes@[j as int]);
                }
                if nodes[j].prefix() as usize == p {
                    group.push(j);
                }
            }
            proof {
                assert(nodes@.take(n as int) =~= nodes@);
            }
            nodes_by_prefix.push(group);
        }
        let g = NetworkGraph { nodes, adjacency, nodes_by_prefix };
        proof {
            lemma_adj_row_sound(links@, g.spec_nodes().len() as int);
        }
        g
    }
}

/// Every entry of an adjacency row inherits the bounds of the links it was
/// filtered from.
proof fn lemma_adj_row_sound(links: Seq<(usize, usize, i64)>, n: int)
    requires
        forall|k: int|
            0 <= k < links.len() ==> {
                let (a, b, c) = #[trigger] links[k];
                &&& a < n
                &&& b < n
                &&& a != b
                &&& c >= 0
            },
    ensures
        forall|i: int, k: int|
            0 <= k < spec_adj_row(links, i).len() ==> {
                let (j, c) = #[trigger] spec_adj_row(links, i)[k];
                &&& j < n
                &&& j != i
                &&& 0 <= c < COST_CAP_MICRO
            },
    decreases links.len(),
{
    if links.len() > 0 {
        lemma_adj_row_sound(links.drop_last(), n);
        assert forall|i: int, k: int| 0 <= k < spec_adj_row(links, i).len() implies {
            let (j, c) = #[trigger] spec_adj_row(links, i)[k];
            &&& j < n
            &&& j != i
            &&& 0 <= c < COST_CAP_MICRO
        } by {
            let rest = spec_adj_row(links.drop_last(), i);
            if k < rest.len() {
                assert(spec_adj_row(links, i)[k] == rest[k]);
            } else {
                assert(links.contains(links.last()));
            }
        }
    }
}

/// A link list offers the reverse of each of its links at the same cost,
/// as a list built from a symmetric cost model does.
pub open spec fn links_symmetric(links: Seq<(usize, usize, i64)>) -> bool {
    forall|k: int|
        0 <= k < links.len() ==> exists|k2: int|
            0 <= k2 < links.len() && #[trigger] links[k2] == ((#[trigger] links[k]).1,
            links[k].0,
            links[k].2,
            )
}

/// An adjacency row holds a link exactly when the link list offers it
/// below the cost cap.
proof fn lemma_adj_row_contains(links: Seq<(usize, usize, i64)>, i: usize, j: usize, c: i64)
    ensures
        spec_adj_row(links, i as int).contains((j, c)) <==> ((exists|k: int|
            0 <= k < links.len() && #[trigger] links[k] == (i, j, c)) && c < COST_CAP_MICRO),
    decreases links.len(),
{
    if links.len() > 0 {
        lemma_adj_row_contains(links.drop_last(), i, j, c);
        let rest = spec_adj_row(links.drop_last(), i as int);
        let row = spec_adj_row(links, i as int);
        let l = links.last();
        if row.contains((j, c)) {
            if rest.contains((j, c)) {
                let k = choose|k: int|
                    0 <= k < links.drop_last().len() && links.drop_last()[k] == (i, j, c);
                assert(links[k] == (i, j, c));
            } else {
                let t = choose|t: int| 0 <= t < row.len() && row[t] == (j, c);
                assert(row[row.len() - 1] == (j, c));
                assert(links[links.len() - 1] == (i, j, c));
            }
        }
        if (exists|k: int| 0 <= k < links.len() && links[k] == (i, j, c)) && c < COST_CAP_MICRO {
            let k = choose|k: int| 0 <= k < links.len() && links[k] == (i, j, c);
            if k < links.len() - 1 {
                assert(links.drop_last()[k] == (i, j, c));
                assert(rest.contains((j, c)));
                if l.0 == i && l.2 < COST_CAP_MICRO {
                    let t = choose|t: int| 0 <= t < rest.len() && rest[t] == (j, c);
                    assert(row[t] == (j, c));
                } else {
                    assert(row == rest);
                }
            } else {
                assert(l == (i, j, c));
                assert(row[row.len() - 1] == (j, c));
            }
        }
    }
}

/// The law of the builder over a symmetric link model: the adjacency it
/// produces offers the reverse of every edge at the same cost.
pub proof fn lemma_adjacency_symmetric(
    links: Seq<(usize, usize, i64)>,
    i: usize,
    j: usize,
    c: i64,
)
    requires
        links_symmetric(links),
        spec_adj_row(links, i as int).contains((j, c)),
    ensures
        spec_adj_row(links, j as int).contains((i, c)),
{
    lemma_adj_row_contains(links, i, j, c);
    let k = choose|k: int| 0 <= k < links.len() && links[k] == (i, j, c);
    assert(exists|k2: int|
        0 <= k2 < links.len() && #[trigger] links[k2] == (links[k].1, links[k].0, links[k].2));
    lemma_adj_row_contains(links, j, i, c);
}

/// The candidate neighbor pairs: for each repeater, every other repeater
/// whose position lies within the search rectangle around it, by an R-tree
/// envelope query. The list holds `(i, j)` exactly for the pairs with
/// `i != j` and `j` inside the box of `i`.
pub fn candidate_pairs(nodes: &Vec<Repeater>) -> (pairs: Vec<(usize, usize)>)
    requires
        forall|i: int| 0 <= i < nodes@.len() ==> (#[trigger] nodes@[i]).wf(),
    ensures
        forall|p: int|
            0 <= p < pairs@.len() ==> {
                let (i, j) = #[trigger] pairs@[p];
                &&& i < nodes@.len()
                &&& j < nodes@.len()
                &&& i != j
                &&& spec_in_box(
                    (nodes@[j as int].lon_udeg, nodes@[j as int].lat_udeg, j),
                    nodes@[i as int].lon_udeg - SEARCH_HALF_WIDTH_UDEG,
                    nodes@[i as int].lat_udeg - SEARCH_HALF_WIDTH_UDEG,
                    nodes@[i as int].lon_udeg + SEARCH_HALF_WIDTH_UDEG,
                    nodes@[i as int].lat_udeg + SEARCH_HALF_WIDTH_UDEG,
                )
            },
        forall|i: usize, j: usize|
            i < nodes@.len() && j < nodes@.len() && i != j && spec_in_box(
                (nodes@[j as int].lon_udeg, nodes@[j as int].lat_udeg, j),
                nodes@[i as int].lon_udeg - SEARCH_HALF_WIDTH_UDEG,
                nodes@[i as int].lat_udeg - SEARCH_HALF_WIDTH_UDEG,
                nodes@[i as int].lon_udeg + SEARCH_HALF_WIDTH_UDEG,
                nodes@[i as int].lat_udeg + SEARCH_HALF_WIDTH_UDEG,
            ) ==> pairs@.contains((i, j)),
{
    let n = nodes.len();
    let mut items: Vec<(i64, i64, usize)> = Vec::new();
    for k in 0..n
        invariant
            n == nodes.len(),
            items@.len() == k,
            forall|m: int|
                0 <= m < k ==> #[trigger] items@[m] == (
                    nodes@[m].lon_udeg,
                    nodes@[m].lat_udeg,
                    m as usize,
                ),
    {
        items.push((nodes[k].lon_udeg, nodes[k].lat_udeg, k));
    }
    let index = SpatialIndex::build(items);
    let ghost items_view = items@;
    let mut pairs: Vec<(usize, usize)> = Vec::new();
    for i in 0..n
        invariant
            n == nodes.len(),
            forall|m: int| 0 <= m < nodes@.len() ==> (#[trigger] nodes@[m]).wf(),
            items_view.len() == n,
            forall|m: int|
                0 <= m < n ==> #[trigger] items_view[m] == (
                    nodes@[m].lon_udeg,
                    nodes@[m].lat_udeg,
                    m as usize,
                ),
            index_entries(&index) == items_view.to_multiset(),
            forall|p: int|
                0 <= p < pairs@.len() ==> {
                    let (a, b) = #[trigger] pairs@[p];
                    &&& a < nodes@.len()
                    &&& b < nodes@.len()
                    &&& a != b
                    &&& spec_in_box(
                        (nodes@[b as int].lon_udeg, nodes@[b as int].lat_udeg, b),
                        nodes@[a as int].lon_udeg - SEARCH_HALF_WIDTH_UDEG,
                        nodes@[a as int].lat_udeg - SEARCH_HALF_WIDTH_UDEG,
                        nodes@[a as int].lon_udeg + SEARCH_HALF_WIDTH_UDEG,
                        nodes@[a as int].lat_udeg + SEARCH_HALF_WIDTH_UDEG,
                    )
                },
            forall|a: usize, b: usize|
                a < i && b < nodes@.len() && a != b && spec_in_box(
                    (nodes@[b as int].lon_udeg, nodes@[b as int].lat_udeg, b),
                    nodes@[a as int].lon_udeg - SEARCH_HALF_WIDTH_UDEG,
                    nodes@[a as int].lat_udeg - SEARCH_HALF_WIDTH_UDEG,
                    nodes@[a as int].lon_udeg + SEARCH_HALF_WIDTH_UDEG,
                    nodes@[a as int].lat_udeg + SEARCH_HALF_WIDTH_UDEG,
                ) ==> pairs@.contains((a, b)),
    {
        let lon = nodes[i].lon_udeg;
        let lat = nodes[i].lat_udeg;
        let found = index.locate_in_box(
            lon - SEARCH_HALF_WIDTH_UDEG,
            lat - SEARCH_HALF_WIDTH_UDEG,
            lon + SEARCH_HALF_WIDTH_UDEG,
            lat + SEARCH_HALF_WIDTH_UDEG,
        );
        let nf = found.len();
        for t in 0..nf
            invariant
                nf == found.len(),
                n == nodes.len(),
                i < n,
                lon == nodes@[i as int].lon_udeg,
                lat == nodes@[i as int].lat_udeg,
                forall|m: int| 0 <= m < nodes@.len() ==> (#[trigger] nodes@[m]).wf(),
                items_view.len() == n,
                forall|m: int|
                    0 <= m < n ==> #[trigger] items_view[m] == (
                        nodes@[m].lon_udeg,
                        nodes@[m].lat_udeg,
                        m as usize,
                    ),
                forall|e: (i64, i64, usize)|
                    #![trigger found@.to_multiset().count(e)]
                    found@.to_multiset().count(e) == if spec_in_box(
                        e,
                        lon - SEARCH_HALF_WIDTH_UDEG,
                        lat - SEARCH_HALF_WIDTH_UDEG,
                        lon + SEARCH_HALF_WIDTH_UDEG,
                        lat + SEARCH_HALF_WIDTH_UDEG,
                    ) {
                        items_view.to_multiset().count(e)
                    } else {
                        0
                    },
                forall|p: int|
                    0 <= p < pairs@.len() ==> {
                        let (a, b) = #[trigger] pairs@[p];
                        &&& a < nodes@.len()
                        &&& b < nodes@.len()
                        &&& a != b
                        &&& spec_in_box(
                            (nodes@[b as int].lon_udeg, nodes@[b as int].lat_udeg, b),
                            nodes@[a as int].lon_udeg - SEARCH_HALF_WIDTH_UDEG,
                            nodes@[a as int].lat_udeg - SEARCH_HALF_WIDTH_UDEG,
                            nodes@[a as int].lon_udeg + SEARCH_HALF_WIDTH_UDEG,
                            nodes@[a as int].lat_udeg + SEARCH_HALF_WIDTH_UDEG,
                        )
                    },
                forall|a: usize, b: usize|
                    a < i && b < nodes@.len() && a != b && spec_in_box(
                        (nodes@[b as int].lon_udeg, nodes@[b as int].lat_udeg, b),
                        nodes@[a as int].lon_udeg - SEARCH_HALF_WIDTH_UDEG,
                        nodes@[a as int].lat_udeg - SEARCH_HALF_WIDTH_UDEG,
                        nodes@[a as int].lon_udeg + SEARCH_HALF_WIDTH_UDEG,
                        nodes@[a as int].lat_udeg + SEARCH_HALF_WIDTH_UDEG,
                    ) ==> pairs@.contains((a, b)),
                forall|t2: int|
                    0 <= t2 < t && (#[trigger] found@[t2]).2 != i ==> pairs@.contains(
                        (i, found@[t2].2),
                    ),
        {
            let e = found[t];
            proof {
                assert(found@.contains(found@[t as int]));
                assert(found@.to_multiset().count(e) > 0);
                assert(items_view.to_multiset().count(e) > 0);
                assert(items_view.contains(e));
                let m = choose|m: int| 0 <= m < items_view.len() && items_view[m] == e;
                assert(items_view[m] == (nodes@[m].lon_udeg, nodes@[m].lat_udeg, m as usize));
            }
            let j = e.2;
            if j != i {
                pairs.push((i, j));
            }
            proof {
                assert forall|t2: int|
                    0 <= t2 < t + 1 && (#[trigger] found@[t2]).2 != i implies pairs@.contains(
                    (i, found@[t2].2),
                ) by {
                    if t2 == t {
                        assert(pairs@.last() == (i, found@[t2].2));
                    }
                }
            }
        }
        proof {
            assert forall|a: usize, b: usize|
                a < i + 1 && b < nodes@.len() && a != b && spec_in_box(
                    (nodes@[b as int].lon_udeg, nodes@[b as int].lat_udeg, b),
                    nodes@[a as int].lon_udeg - SEARCH_HALF_WIDTH_UDEG,
                    nodes@[a as int].lat_udeg - SEARCH_HALF_WIDTH_UDEG,
                    nodes@[a as int].lon_udeg + SEARCH_HALF_WIDTH_UDEG,
                    nodes@[a as int].lat_udeg + SEARCH_HALF_WIDTH_UDEG,
                ) implies pairs@.contains((a, b)) by {
                if a == i {
                    let e = (nodes@[b as int].lon_udeg, nodes@[b as int].lat_udeg, b);
                    assert(items_view[b as int] == e);
                    assert(items_view.contains(e));
                    assert(items_view.to_multiset().count(e) > 0);
                    assert(found@.to_multiset().count(e) > 0);
                    assert(found@.contains(e));
                    let t2 = choose|t2: int| 0 <= t2 < found@.len() && found@[t2] == e;
                    assert(found@[t2].2 == b && b != i);
                }
            }
        }
    }
    pairs
}

/// One trellis relaxation: state `s` takes cost `cand` reached from
/// `pred` if that strictly improves on what it holds.
fn exec_relax(row: &mut Vec<Option<(i64, usize)>>, s: usize, cand: i64, pred: usize)
    requires
        s < old(row)@.len(),
    ensures
        final(row)@.len() == old(row)@.len(),
        row_view(final(row)@) == spec_relax(
            row_view(old(row)@),
            s as int,
            cand as int,
            pred as int,
        ),
{
    let cur = row[s];
    match cur {
        None => {
            row.set(s, Some((cand, pred)));
            proof {
                assert(row_view(row@) =~= spec_relax(
                    row_view(old(row)@),
                    s as int,
                    cand as int,
                    pred as int,
                ));
            }
        },
        Some((c, _)) => {
            if cand < c {
                row.set(s, Some((cand, pred)));
                proof {
                    assert(row_view(row@) =~= spec_relax(
                        row_view(old(row)@),
                        s as int,
                        cand as int,
                        pred as int,
                    ));
                }
            } else {
                proof {
                    assert(row_view(row@) =~= spec_relax(
                        row_view(old(row)@),
                        s as int,
                        cand as int,
                        pred as int,
                    ));
                }
            }
        },
    }
}

impl NetworkGraph {
    /// One forward step of the trellis: the row for the next observation,
    /// by relaxing every transition out of each reachable predecessor, in
    /// ascending state order.
    fn step_row(&self, prev: &Vec<Option<(i64, usize)>>, o: u8) -> (next: Vec<
        Option<(i64, usize)>,
    >)
        requires
            self.wf(),
            prev@.len() == self.spec_nodes().len() + 1,
            forall|s: int|
                0 <= s < prev@.len() ==> match #[trigger] prev@[s] {
                    Some(p) => -100_000 <= p.0 <= 0x1000_0000_0000_0000i64,
                    None => true,
                },
        ensures
            next@.len() == prev@.len(),
            row_view(next@) == spec_step_row(
                self.spec_nodes(),
                self.spec_adj(),
                self.spec_byp(),
                row_view(prev@),
                o,
            ),
    {
        let ghost nodes = self.spec_nodes();
        let ghost adjv = self.spec_adj();
        let ghost bypv = self.spec_byp();
        let ghost pview = row_view(prev@);
        let n = self.nodes.len();
        let mut next: Vec<Option<(i64, usize)>> = Vec::new();
        for s in 0..(n + 1)
            invariant
                next@.len() == s,
                forall|j: int| 0 <= j < s ==> (#[trigger] next@[j]) is None,
        {
            next.push(None);
        }
        proof {
            assert(row_view(next@) =~= spec_empty_row(n as int));
        }
        for sp in 0..(n + 1)
            invariant
                self.wf(),
                nodes == self.spec_nodes(),
                adjv == self.spec_adj(),
                bypv == self.spec_byp(),
                pview == row_view(prev@),
                n == self.nodes@.len(),
                prev@.len() == n + 1,
                next@.len() == n + 1,
                forall|s: int|
                    0 <= s < prev@.len() ==> match #[trigger] prev@[s] {
                        Some(p) => -100_000 <= p.0 <= 0x1000_0000_0000_0000i64,
                        None => true,
                    },
                row_view(next@) == spec_step_upto(nodes, adjv, bypv, pview, o, sp as int),
        {
            let entry = prev[sp];
            match entry {
                None => {
                    proof {
                        assert(pview[sp as int] is None);
                        assert(spec_step_upto(nodes, adjv, bypv, pview, o, sp + 1)
                            == spec_process_pred(
                            spec_step_upto(nodes, adjv, bypv, pview, o, sp as int),
                            nodes,
                            adjv,
                            bypv,
                            pview,
                            o,
                            sp as int,
                        ));
                    }
                },
                Some((pc, bp0)) => {
                    let ghost base = spec_step_upto(nodes, adjv, bypv, pview, o, sp as int);
                    proof {
                        assert(pview[sp as int] == Some((pc as int, bp0 as int)));
                    }
                    if sp < n {
                        let deg = self.adjacency[sp].len();
                        for k in 0..deg
                            invariant
                                self.wf(),
                                nodes == self.spec_nodes(),
                                adjv == self.spec_adj(),
                                bypv == self.spec_byp(),
                                n == self.nodes@.len(),
                                sp < n,
                                next@.len() == n + 1,
                                deg == adjv[sp as int].len(),
                                -100_000 <= pc <= 0x1000_0000_0000_0000i64,
                                row_view(next@) == spec_relax_adj(
                                    base,
                                    nodes,
                                    adjv[sp as int],
                                    pc as int,
                                    o,
                                    sp as int,
                                    k as int,
                                ),
                        {
                            let (j, c) = self.adjacency[sp][k];
                            proof {
                                assert(adjv[sp as int][k as int] == (j, c));
                                assert(j < n && 0 <= c < COST_CAP_MICRO);
                            }
                            if self.nodes[j].prefix() == o {
                                exec_relax(&mut next, j, pc + c, sp);
                            }
                        }
                        exec_relax(&mut next, n, pc + COST_KNOWN_TO_UNKNOWN_MICRO, sp);
                        proof {
                            assert(spec_step_upto(nodes, adjv, bypv, pview, o, sp + 1)
                                == spec_process_pred(base, nodes, adjv, bypv, pview, o, sp as int));
                        }
                    } else {
                        let glen = self.nodes_by_prefix[o as usize].len();
                        proof {
                            crate::viterbi::lemma_prefix_row_props(nodes, o as int);
                            assert(bypv[o as int] == spec_prefix_row(nodes, o as int));
                        }
                        for k in 0..glen
                            invariant
                                self.wf(),
                                nodes == self.spec_nodes(),
                                adjv == self.spec_adj(),
                                bypv == self.spec_byp(),
                                n == self.nodes@.len(),
                                sp == n,
                                next@.len() == n + 1,
                                glen == bypv[o as int].len(),
                                -100_000 <= pc <= 0x1000_0000_0000_0000i64,
                                forall|m: int|
                                    0 <= m < bypv[o as int].len() ==> (#[trigger] bypv[o as int][m])
                                        < n,
                                row_view(next@) == spec_relax_byp(
                                    base,
                                    bypv[o as int],
                                    pc as int,
                                    n as int,
                                    k as int,
                                ),
                        {
                            let j = self.nodes_by_prefix[o as usize][k];
                            proof {
                                assert(bypv[o as int][k as int] == j);
                            }
                            exec_relax(&mut next, j, pc + COST_UNKNOWN_TO_KNOWN_MICRO, n);
                        }
                        exec_relax(&mut next, n, pc + COST_UNKNOWN_TO_UNKNOWN_MICRO, sp);
                        proof {
                            assert(spec_step_upto(nodes, adjv, bypv, pview, o, sp + 1)
                                == spec_process_pred(base, nodes, adjv, bypv, pview, o, sp as int));
                        }
                    }
                },
            }
        }
        next
    }
}

impl NetworkGraph {
    /// Decodes an observation stream into the minimum-cost state sequence:
    /// a Viterbi forward pass over the trellis of Known states plus the
    /// Unknown wildcard, then a backtrack from the cheapest final state,
    /// earliest state on ties. An empty stream decodes to an empty path.
    /// The Unknown state is reachable at every step, so the decode always
    /// succeeds; the result is a pure function of the graph and the
    /// observations.
    pub fn decode_path(&self, observations: &Vec<u8>) -> (r: Result<Vec<PathNode>, DecodeError>)
        requires
            self.wf(),
            observations@.len() <= 0x4000_0000,
        ensures
            r is Ok,
            match r {
                Ok(path) => {
                    &&& path@ == spec_decode(
                        self.spec_nodes(),
                        self.spec_adj(),
                        self.spec_byp(),
                        observations@,
                    )
                    &&& path@.len() == observations@.len()
                    &&& forall|u: int|
                        0 <= u < path@.len() ==> match #[trigger] path@[u] {
                            PathNode::Known(k) => k < self.spec_nodes().len()
                                && crate::viterbi::spec_prefix_at(self.spec_nodes(), k as int)
                                == observations@[u],
                            PathNode::Unknown(p) => p == observations@[u],
                        }
                },
                Err(_) => false,
            },
    {
        let ghost nodes = self.spec_nodes();
        let ghost adjv = self.spec_adj();
        let ghost bypv = self.spec_byp();
        let ghost obs = observations@;
        let n = self.nodes.len();
        let tsteps = observations.len();
        if tsteps == 0 {
            return Ok(Vec::new());
        }
        let o0 = observations[0];
        let mut row0: Vec<Option<(i64, usize)>> = Vec::new();
        for s in 0..n
            invariant
                self.wf(),
                nodes == self.spec_nodes(),
                n == self.nodes@.len(),
                o0 == obs[0],
                row0@.len() == s,
                forall|j: int|
                    0 <= j < s ==> #[trigger] row0@[j] == if crate::viterbi::spec_prefix_at(
                        nodes,
                        j,
                    ) == o0 {
                        Some((COST_START_KNOWN_MICRO, 0usize))
                    } else {
                        None::<(i64, usize)>
                    },
        {
            if self.nodes[s].prefix() == o0 {
                row0.push(Some((COST_START_KNOWN_MICRO, 0)));
            } else {
                row0.push(None);
            }
        }
        row0.push(Some((0, 0)));
        proof {
            assert(row_view(row0@) =~= spec_init_row(nodes, o0));
        }
        let mut trellis: Vec<Vec<Option<(i64, usize)>>> = Vec::new();
        trellis.push(row0);
        for t in 1..tsteps
            invariant
                self.wf(),
                nodes == self.spec_nodes(),
                adjv == self.spec_adj(),
                bypv == self.spec_byp(),
                obs == observations@,
                n == self.nodes@.len(),
                1 <= tsteps <= 0x4000_0000,
                tsteps == obs.len(),
                trellis@.len() == t,
                forall|u: int| 0 <= u < t ==> (#[trigger] trellis@[u])@.len() == n + 1,
                forall|u: int|
                    0 <= u < t ==> row_view((#[trigger] trellis@[u])@) == spec_row(
                        nodes,
                        adjv,
                        bypv,
                        obs,
                        u,
                    ),
        {
            let o = observations[t];
            proof {
                lemma_row_ok(nodes, adjv, bypv, obs, t - 1);
                assert((t - 1) * COST_CAP_MICRO <= 0x4000_0000i64 * 1_000_000_000)
                    by (nonlinear_arith)
                    requires
                        0 <= t - 1 <= 0x4000_0000,
                ;
                assert forall|s: int| 0 <= s < trellis@[t - 1]@.len() implies match #[trigger] trellis@[t
                    - 1]@[s] {
                    Some(p) => -100_000 <= p.0 <= 0x1000_0000_0000_0000i64,
                    None => true,
                } by {
                    assert(row_view(trellis@[t - 1]@)[s] == spec_row(nodes, adjv, bypv, obs, t - 1)[s]);
                }
            }
            let next = self.step_row(&trellis[t - 1], o);
            proof {
                assert(row_view(next@) == spec_row(nodes, adjv, bypv, obs, t as int));
            }
            let mut any = false;
            let nr = next.len();
            for s2 in 0..nr
                invariant
                    nr == next@.len(),
                    any == exists|j: int| 0 <= j < s2 && (#[trigger] next@[j]) is Some,
            {
                if next[s2].is_some() {
                    proof {
                        assert(next@[s2 as int] is Some);
                    }
                    any = true;
                }
            }
            if !any {
                proof {
                    lemma_row_ok(nodes, adjv, bypv, obs, t as int);
                    assert(row_view(next@)[n as int] is Some);
                    assert(next@[n as int] is Some);
                }
                return Err(DecodeError::Stuck { step: t });
            }
            trellis.push(next);
        }
        let last = tsteps - 1;
        let ghost lrow = spec_row(nodes, adjv, bypv, obs, last as int);
        let mut best: Option<(usize, i64)> = None;
        for s in 0..(n + 1)
            invariant
                n == self.nodes@.len(),
                tsteps == obs.len(),
                last == tsteps - 1,
                trellis@.len() == tsteps,
                trellis@[last as int]@.len() == n + 1,
                row_view(trellis@[last as int]@) == lrow,
                match best {
                    None => spec_best_upto(lrow, s as int) is None,
                    Some((bs, bc)) => {
                        &&& spec_best_upto(lrow, s as int) == Some((bs as int, bc as int))
                        &&& bs <= n
                        &&& trellis@[last as int]@[bs as int] is Some
                    },
                },
                (exists|j: int|
                    0 <= j < s && (#[trigger] trellis@[last as int]@[j]) is Some) ==> best is Some,
        {
            let e = trellis[last][s];
            proof {
                assert(lrow[s as int] == row_view(trellis@[last as int]@)[s as int]);
            }
            match e {
                Some((c, _)) => {
                    proof {
                        assert(trellis@[last as int]@[s as int] is Some);
                    }
                    match best {
                        None => {
                            best = Some((s, c));
                        },
                        Some((_bs2, bc2)) => {
                            if c < bc2 {
                                best = Some((s, c));
                            }
                        },
                    }
                },
                None => {},
            }
        }
        proof {
            lemma_row_ok(nodes, adjv, bypv, obs, last as int);
            assert(row_view(trellis@[last as int]@)[n as int] is Some);
            assert(trellis@[last as int]@[n as int] is Some);
        }
        let (best_state, _best_cost) = match best {
            Some(p) => p,
            None => {
                proof {
                    assert(false);
                }
                return Err(DecodeError::NoFinalState);
            },
        };
        let ghost fs = best_state as int;
        proof {
            assert(spec_final_state(nodes, adjv, bypv, obs) == fs);
            lemma_backtrack_len(nodes, adjv, bypv, obs, last as int, fs);
        }
        let ghost bt = spec_backtrack(nodes, adjv, bypv, obs, last as int, fs);
        let mut path_rev: Vec<PathNode> = Vec::new();
        let mut cur: usize = best_state;
        let first_node = if cur < n {
            PathNode::Known(cur as u32)
        } else {
            PathNode::Unknown(observations[last])
        };
        path_rev.push(first_node);
        proof {
            assert(bt.last() == spec_state_node(fs, n as int, obs[last as int]));
            assert(path_rev@ =~= bt.skip(last as int).reverse());
            assert(bt.take(last + 1) =~= bt);
        }
        let mut t2: usize = last;
        while t2 >= 1
            invariant
                self.wf(),
                nodes == self.spec_nodes(),
                adjv == self.spec_adj(),
                bypv == self.spec_byp(),
                obs == observations@,
                n == self.nodes@.len(),
                1 <= tsteps <= 0x4000_0000,
                tsteps == obs.len(),
                last == tsteps - 1,
                t2 <= last,
                trellis@.len() == tsteps,
                forall|u: int| 0 <= u < tsteps ==> (#[trigger] trellis@[u])@.len() == n + 1,
                forall|u: int|
                    0 <= u < tsteps ==> row_view((#[trigger] trellis@[u])@) == spec_row(
                        nodes,
                        adjv,
                        bypv,
                        obs,
                        u,
                    ),
                cur <= n,
                spec_row(nodes, adjv, bypv, obs, t2 as int)[cur as int] is Some,
                bt.len() == last + 1,
                bt.take(t2 + 1) == spec_backtrack(nodes, adjv, bypv, obs, t2 as int, cur as int),
                path_rev@ == bt.skip(t2 as int).reverse(),
            decreases t2,
        {
            let e = trellis[t2][cur];
            proof {
                assert(row_view(trellis@[t2 as int]@)[cur as int] == spec_row(
                    nodes,
                    adjv,
                    bypv,
                    obs,
                    t2 as int,
                )[cur as int]);
            }
            let b = match e {
                Some((_, b)) => b,
                None => {
                    proof {
                        assert(false);
                    }
                    return Err(DecodeError::BrokenBackpointer { step: t2 });
                },
            };
            proof {
                lemma_row_ok(nodes, adjv, bypv, obs, t2 as int);
                assert(entry_pred(spec_row(nodes, adjv, bypv, obs, t2 as int)[cur as int])
                    == b as int);
                assert(spec_row(nodes, adjv, bypv, obs, t2 - 1)[b as int] is Some);
                lemma_backtrack_len(nodes, adjv, bypv, obs, t2 - 1, b as int);
                assert(spec_backtrack(nodes, adjv, bypv, obs, t2 as int, cur as int)
                    == spec_backtrack(nodes, adjv, bypv, obs, t2 - 1, b as int).push(
                    spec_state_node(cur as int, n as int, obs[t2 as int]),
                ));
                assert(bt.take(t2 as int) =~= spec_backtrack(nodes, adjv, bypv, obs, t2 - 1, b as int));
                assert(spec_backtrack(nodes, adjv, bypv, obs, t2 - 1, b as int).last()
                    == spec_state_node(b as int, n as int, obs[t2 - 1]));
                assert(bt[t2 - 1] == spec_state_node(b as int, n as int, obs[t2 - 1]));
            }
            let node = if b < n {
                PathNode::Known(b as u32)
            } else {
                PathNode::Unknown(observations[t2 - 1])
            };
            path_rev.push(node);
            proof {
                assert(path_rev@ =~= bt.skip(t2 - 1).reverse());
            }
            cur = b;
            t2 = t2 - 1;
        }
        proof {
            assert(bt.skip(0) =~= bt);
        }
        let m = path_rev.len();
        let mut path: Vec<PathNode> = Vec::new();
        for k in 0..m
            invariant
                m == path_rev@.len(),
                m == bt.len(),
                path_rev@ == bt.reverse(),
                path@.len() == k,
                forall|idx: int| 0 <= idx < k ==> #[trigger] path@[idx] == bt[idx],
        {
            path.push(path_rev[m - 1 - k]);
        }
        proof {
            assert(path@ =~= bt);
            crate::viterbi::lemma_backtrack_consistent(nodes, adjv, bypv, obs, last as int, fs);
        }
        Ok(path)
    }
}

} // verus!
