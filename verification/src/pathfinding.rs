use vstd::prelude::*;

verus! {

/// Largest link cost Dijkstra will walk over, in micro-units (a penalty
/// of 500): costlier links are treated as absent when building ground
/// truth paths.
pub const PATH_COST_LIMIT_MICRO: i64 = 500_000_000;

/// A usable hop of the ground-truth graph: a finite link of acceptable
/// cost between two distinct repeaters.
pub open spec fn edge_ok(costs: Seq<Vec<Option<i64>>>, i: int, j: int) -> bool {
    &&& 0 <= i < costs.len()
    &&& 0 <= j < costs.len()
    &&& i != j
    &&& match costs[i]@[j] {
        Some(c) => 0 <= c <= PATH_COST_LIMIT_MICRO,
        None => false,
    }
}

/// A walk from `start` to `endv` over usable hops.
pub open spec fn path_ok(
    costs: Seq<Vec<Option<i64>>>,
    path: Seq<usize>,
    start: int,
    endv: int,
) -> bool {
    &&& path.len() >= 1
    &&& path[0] == start
    &&& path.last() == endv
    &&& forall|k: int|
        0 <= k < path.len() - 1 ==> edge_ok(costs, #[trigger] path[k] as int, path[k + 1] as int)
}

/// Some walk over usable hops joins the two repeaters.
pub open spec fn spec_connected(costs: Seq<Vec<Option<i64>>>, start: int, endv: int) -> bool {
    exists|p: Seq<usize>| path_ok(costs, p, start, endv)
}

/// The cost of one hop (0 where the matrix has no link; a walk over
/// usable hops never reads that case).
pub open spec fn edge_cost(costs: Seq<Vec<Option<i64>>>, i: int, j: int) -> int {
    match costs[i]@[j] {
        Some(c) => c as int,
        None => 0,
    }
}

/// The summed cost of the hops of a walk.
pub open spec fn path_cost(costs: Seq<Vec<Option<i64>>>, path: Seq<usize>) -> int
    decreases path.len(),
{
    if path.len() <= 1 {
        0
    } else {
        path_cost(costs, path.drop_last()) + edge_cost(
            costs,
            path[path.len() - 2] as int,
            path[path.len() - 1] as int,
        )
    }
}

/// The matrix offers no negative link cost.
pub open spec fn costs_nonneg(costs: Seq<Vec<Option<i64>>>) -> bool {
    forall|i: int, j: int|
        0 <= i < costs.len() && 0 <= j < costs.len() ==> match #[trigger] costs[i]@[j] {
            Some(c) => c >= 0,
            None => true,
        }
}

/// A prefix of a walk is a walk, no costlier than the whole.
proof fn lemma_path_cost_prefix(costs: Seq<Vec<Option<i64>>>, q: Seq<usize>, m: int)
    requires
        costs_nonneg(costs),
        forall|k: int|
            0 <= k < q.len() - 1 ==> edge_ok(costs, #[trigger] q[k] as int, q[k + 1] as int),
        1 <= m <= q.len(),
    ensures
        path_cost(costs, q.take(m)) <= path_cost(costs, q),
        forall|k: int|
            0 <= k < m - 1 ==> edge_ok(costs, #[trigger] q.take(m)[k] as int, q.take(m)[k
                + 1] as int),
    decreases q.len() - m,
{
    assert forall|k: int| 0 <= k < m - 1 implies edge_ok(
        costs,
        #[trigger] q.take(m)[k] as int,
        q.take(m)[k + 1] as int,
    ) by {
        assert(q.take(m)[k] == q[k] && q.take(m)[k + 1] == q[k + 1]);
    }
    if m == q.len() {
        assert(q.take(m) =~= q);
    } else {
        lemma_path_cost_prefix(costs, q, m + 1);
        assert(q.take(m + 1).drop_last() =~= q.take(m));
        assert(q.take(m + 1)[m - 1] == q[m - 1] && q.take(m + 1)[m] == q[m]);
        assert(edge_ok(costs, q[m - 1] as int, q[m] as int));
        assert(edge_cost(costs, q[m - 1] as int, q[m] as int) >= 0);
        assert(path_cost(costs, q.take(m + 1)) == path_cost(costs, q.take(m)) + edge_cost(
            costs,
            q[m - 1] as int,
            q[m] as int,
        ));
    }
}

/// A walk over usable hops costs at least nothing.
proof fn lemma_path_cost_nonneg(costs: Seq<Vec<Option<i64>>>, q: Seq<usize>)
    requires
        costs_nonneg(costs),
        forall|k: int|
            0 <= k < q.len() - 1 ==> edge_ok(costs, #[trigger] q[k] as int, q[k + 1] as int),
    ensures
        path_cost(costs, q) >= 0,
    decreases q.len(),
{
    if q.len() > 1 {
        lemma_path_cost_nonneg(costs, q.drop_last());
        assert(edge_ok(costs, q[q.len() - 2] as int, q[q.len() - 1] as int));
    }
}

/// Index of the first node of the walk not yet finished.
spec fn first_unvisited(visited: Seq<bool>, q: Seq<usize>, k: int) -> int
    decreases q.len() - k,
{
    if k < 0 || k >= q.len() {
        k
    } else if !visited[q[k] as int] {
        k
    } else {
        first_unvisited(visited, q, k + 1)
    }
}

proof fn lemma_first_unvisited(visited: Seq<bool>, q: Seq<usize>, k: int)
    requires
        0 <= k < q.len(),
        forall|m: int| 0 <= m < q.len() ==> (#[trigger] q[m]) < visited.len(),
        !visited[q.last() as int],
    ensures
        k <= first_unvisited(visited, q, k) < q.len(),
        !visited[q[first_unvisited(visited, q, k)] as int],
        forall|m: int| k <= m < first_unvisited(visited, q, k) ==> visited[(#[trigger] q[m]) as int],
    decreases q.len() - k,
{
    if visited[q[k] as int] {
        assert(k < q.len() - 1);
        lemma_first_unvisited(visited, q, k + 1);
    }
}

/// The greedy pick is optimal: when every reached node is finished with a
/// cost below all its walks, every finished node prices its unfinished
/// neighbors, and `u` is the cheapest unfinished reached node, then no
/// walk to `u` beats `u`'s cost.
proof fn lemma_pop_is_minimal(
    costs: Seq<Vec<Option<i64>>>,
    dist: Seq<Option<i64>>,
    visited: Seq<bool>,
    start: int,
    u: int,
    du: int,
    q: Seq<usize>,
)
    requires
        costs_nonneg(costs),
        dist.len() == costs.len(),
        visited.len() == costs.len(),
        0 <= start < costs.len(),
        0 <= u < costs.len(),
        !visited[u],
        dist[u] is Some,
        du == dist[u]->Some_0,
        dist[start] is Some,
        dist[start]->Some_0 == 0,
        forall|w: int|
            0 <= w < dist.len() && !visited[w] && (#[trigger] dist[w]) is Some ==> du
                <= dist[w]->Some_0,
        forall|w: int, qq: Seq<usize>|
            0 <= w < visited.len() && visited[w] && #[trigger] path_ok(costs, qq, start, w)
                ==> dist[w] is Some && dist[w]->Some_0 <= path_cost(costs, qq),
        forall|w: int, v: int|
            0 <= w < visited.len() && #[trigger] visited[w] && 0 <= v < dist.len() && !(
            #[trigger] visited[v]) && edge_ok(costs, w, v) ==> dist[v] is Some && dist[v]->Some_0
                <= dist[w]->Some_0 + edge_cost(costs, w, v),
        path_ok(costs, q, start, u),
    ensures
        du <= path_cost(costs, q),
{
    lemma_first_unvisited(visited, q, 0);
    let j = first_unvisited(visited, q, 0);
    lemma_path_cost_nonneg(costs, q);
    if j == 0 {
        assert(q[0] == start && !visited[start]);
        assert(du <= dist[start]->Some_0);
    } else {
        let w = q[j - 1] as int;
        let v = q[j] as int;
        assert(visited[w]);
        assert(edge_ok(costs, w, v));
        lemma_path_cost_prefix(costs, q, j);
        assert(q.take(j).last() == q[j - 1]);
        assert(q.take(j)[0] == q[0]);
        assert(path_ok(costs, q.take(j), start, w));
        assert(dist[w] is Some && dist[w]->Some_0 <= path_cost(costs, q.take(j)));
        assert(dist[v] is Some && dist[v]->Some_0 <= dist[w]->Some_0 + edge_cost(costs, w, v));
        assert(du <= dist[v]->Some_0);
        lemma_path_cost_prefix(costs, q, j + 1);
        assert(q.take(j + 1).drop_last() =~= q.take(j));
        assert(q.take(j + 1)[j - 1] == q[j - 1] && q.take(j + 1)[j] == q[j]);
        assert(path_cost(costs, q.take(j + 1)) == path_cost(costs, q.take(j)) + edge_cost(
            costs,
            w,
            v,
        ));
    }
}

/// Number of visited flags set.
spec fn count_true(s: Seq<bool>) -> int
    decreases s.len(),
{
    if s.len() == 0 {
        0
    } else {
        count_true(s.drop_last()) + if s.last() {
            1int
        } else {
            0int
        }
    }
}

proof fn lemma_count_true_update(s: Seq<bool>, i: int, v: bool)
    requires
        0 <= i < s.len(),
    ensures
        count_true(s.update(i, v)) == count_true(s) - (
        if s[i] {
            1int
        } else {
            0int
        }) + (
        if v {
            1int
        } else {
            0int
        }),
    decreases s.len(),
{
    if s.len() > 0 {
        if i == s.len() - 1 {
            assert(s.update(i, v).drop_last() =~= s.drop_last());
        } else {
            lemma_count_true_update(s.drop_last(), i, v);
            assert(s.update(i, v).drop_last() =~= s.drop_last().update(i, v));
        }
    }
}

proof fn lemma_count_true_missing_one(s: Seq<bool>, i: int)
    requires
        0 <= i < s.len(),
        !s[i],
    ensures
        count_true(s) <= s.len() - 1,
    decreases s.len(),
{
    if i == s.len() - 1 {
        lemma_count_true_bound(s.drop_last());
    } else {
        lemma_count_true_missing_one(s.drop_last(), i);
    }
}

proof fn lemma_count_true_bound(s: Seq<bool>)
    ensures
        0 <= count_true(s) <= s.len(),
    decreases s.len(),
{
    if s.len() > 0 {
        lemma_count_true_bound(s.drop_last());
    }
}

/// When the searched set is closed — the start is reached, every reached
/// node is finished, and every finished node reaches its neighbors — a
/// walk cannot leave it: its endpoint is reached too.
proof fn lemma_walk_stays_reached(
    costs: Seq<Vec<Option<i64>>>,
    dist: Seq<Option<i64>>,
    visited: Seq<bool>,
    p: Seq<usize>,
    start: int,
    m: int,
)
    requires
        dist.len() == costs.len(),
        visited.len() == costs.len(),
        0 <= start < costs.len(),
        p.len() >= 1,
        p[0] == start,
        forall|k: int|
            0 <= k < p.len() - 1 ==> edge_ok(costs, #[trigger] p[k] as int, p[k + 1] as int),
        dist[start] is Some,
        forall|u: int| 0 <= u < dist.len() && (#[trigger] dist[u]) is Some ==> visited[u],
        forall|u: int, v: int|
            0 <= u < visited.len() && #[trigger] visited[u] && 0 <= v < dist.len() && edge_ok(
                costs,
                u,
                v,
            ) ==> (#[trigger] dist[v]) is Some,
        0 <= m < p.len(),
    ensures
        dist[p[m] as int] is Some,
    decreases m,
{
    if m > 0 {
        lemma_walk_stays_reached(costs, dist, visited, p, start, m - 1);
        assert(edge_ok(costs, p[m - 1] as int, p[m] as int));
    }
}

/// A copy of an index vector.
fn copy_indices(v: &Vec<usize>) -> (r: Vec<usize>)
    ensures
        r@ == v@,
{
    let n = v.len();
    let mut r: Vec<usize> = Vec::new();
    for k in 0..n
        invariant
            n == v@.len(),
            r@ == v@.take(k as int),
    {
        r.push(v[k]);
        proof {
            assert(r@ =~= v@.take(k + 1));
        }
    }
    proof {
        assert(v@.take(n as int) =~= v@);
    }
    r
}

/// The lowest-cost route between two repeaters over the cost matrix, by
/// Dijkstra's algorithm with the costlier-than-limit and missing links
/// skipped. A returned route starts at `start`, ends at `end`, takes only
/// usable hops, and costs no more than any other such route; `None` comes
/// back exactly when no route of usable hops joins the two.
pub fn find_path(costs: &Vec<Vec<Option<i64>>>, start: usize, end: usize) -> (r: Option<
    Vec<usize>,
>)
    requires
        costs@.len() <= 1_000_000,
        forall|i: int| 0 <= i < costs@.len() ==> (#[trigger] costs@[i])@.len() == costs@.len(),
        forall|i: int, j: int|
            0 <= i < costs@.len() && 0 <= j < costs@.len() ==> match #[trigger] costs@[i]@[j] {
                Some(c) => c >= 0,
                None => true,
            },
        start < costs@.len(),
        end < costs@.len(),
    ensures
        match r {
            Some(path) => path_ok(costs@, path@, start as int, end as int) && forall|q: Seq<usize>|
                #[trigger] path_ok(costs@, q, start as int, end as int) ==> path_cost(
                    costs@,
                    path@,
                ) <= path_cost(costs@, q),
            None => !spec_connected(costs@, start as int, end as int),
        },
{
    let n = costs.len();
    let mut dist: Vec<Option<i64>> = Vec::new();
    let mut paths: Vec<Option<Vec<usize>>> = Vec::new();
    let mut visited: Vec<bool> = Vec::new();
    for k in 0..n
        invariant
            dist@.len() == k,
            paths@.len() == k,
            visited@.len() == k,
            forall|v: int| 0 <= v < k ==> (#[trigger] dist@[v]) is None,
            forall|v: int| 0 <= v < k ==> (#[trigger] paths@[v]) is None,
            forall|v: int| 0 <= v < k ==> !(#[trigger] visited@[v]),
    {
        dist.push(None);
        paths.push(None);
        visited.push(false);
    }
    proof {
        lemma_count_all_false(visited@);
    }
    dist.set(start, Some(0));
    let mut start_path: Vec<usize> = Vec::new();
    start_path.push(start);
    paths.set(start, Some(start_path));
    let mut settled: usize = 0;
    while settled < n
        invariant
            n == costs@.len(),
            n <= 1_000_000,
            start < n,
            end < n,
            settled <= n,
            dist@.len() == n,
            paths@.len() == n,
            visited@.len() == n,
            forall|i: int| 0 <= i < costs@.len() ==> (#[trigger] costs@[i])@.len() == costs@.len(),
            forall|i: int, j: int|
                0 <= i < costs@.len() && 0 <= j < costs@.len() ==> match #[trigger] costs@[i]@[j] {
                    Some(c) => c >= 0,
                    None => true,
                },
            forall|v: int| 0 <= v < n ==> ((#[trigger] dist@[v]) is Some <==> paths@[v] is Some),
            forall|v: int|
                0 <= v < n && (#[trigger] dist@[v]) is Some ==> {
                    &&& paths@[v]->Some_0@.len() >= 1
                    &&& paths@[v]->Some_0@.len() <= settled + 1
                    &&& path_ok(costs@, paths@[v]->Some_0@, start as int, v)
                    &&& 0 <= dist@[v]->Some_0 <= (paths@[v]->Some_0@.len() - 1)
                        * PATH_COST_LIMIT_MICRO
                    &&& dist@[v]->Some_0 == path_cost(costs@, paths@[v]->Some_0@)
                },
            dist@[start as int] is Some,
            dist@[start as int]->Some_0 == 0,
            !visited@[end as int],
            count_true(visited@) == settled,
            forall|u: int, v: int|
                0 <= u < n && #[trigger] visited@[u] && 0 <= v < n && edge_ok(costs@, u, v) ==> (
                #[trigger] dist@[v]) is Some,
            forall|w: int| 0 <= w < n && #[trigger] visited@[w] ==> dist@[w] is Some,
            forall|w: int, qq: Seq<usize>|
                0 <= w < n && visited@[w] && #[trigger] path_ok(costs@, qq, start as int, w)
                    ==> dist@[w] is Some && dist@[w]->Some_0 <= path_cost(costs@, qq),
            forall|w: int, v: int|
                0 <= w < n && #[trigger] visited@[w] && 0 <= v < n && !(#[trigger] visited@[v])
                    && edge_ok(costs@, w, v) ==> dist@[v] is Some && dist@[v]->Some_0
                    <= dist@[w]->Some_0 + edge_cost(costs@, w, v),
        decreases n - settled,
    {
        let mut best: Option<(usize, i64)> = None;
        for v in 0..n
            invariant
                n == dist@.len(),
                n == visited@.len(),
                match best {
                    None => forall|v2: int|
                        0 <= v2 < v ==> (#[trigger] visited@[v2] || dist@[v2] is None),
                    Some((bv, bd)) => bv < n && !visited@[bv as int] && dist@[bv as int] == Some(
                        bd,
                    ) && forall|v2: int|
                        0 <= v2 < v && !visited@[v2] && (#[trigger] dist@[v2]) is Some ==> bd as int
                            <= dist@[v2]->Some_0,
                },
        {
            if !visited[v] {
                if let Some(d) = dist[v] {
                    match best {
                        None => {
                            best = Some((v, d));
                        },
                        Some((_bv, bd)) => {
                            if d < bd {
                                best = Some((v, d));
                            }
                        },
                    }
                }
            }
        }
        let (u, du) = match best {
            Some(p) => p,
            None => {
                proof {
                    if spec_connected(costs@, start as int, end as int) {
                        let p = choose|p: Seq<usize>|
                            path_ok(costs@, p, start as int, end as int);
                        lemma_walk_stays_reached(
                            costs@,
                            dist@,
                            visited@,
                            p,
                            start as int,
                            p.len() - 1,
                        );
                        assert(visited@[end as int]);
                    }
                }
                return None;
            },
        };
        proof {
            assert forall|q: Seq<usize>|
                #[trigger] path_ok(costs@, q, start as int, u as int) implies du as int
                <= path_cost(costs@, q) by {
                lemma_pop_is_minimal(
                    costs@,
                    dist@,
                    visited@,
                    start as int,
                    u as int,
                    du as int,
                    q,
                );
            }
        }
        if u == end {
            let ghost pu = paths@[u as int];
            let p = paths.swap_remove(u);
            proof {
                assert(p == pu);
                assert(du == path_cost(costs@, pu->Some_0@));
            }
            return p;
        }
        let ghost du_path_len = paths@[u as int]->Some_0@.len();
        let up = match &paths[u] {
            Some(p) => copy_indices(p),
            None => {
                proof {
                    assert(false);
                }
                return None;
            },
        };
        for v in 0..n
            invariant
                n == costs@.len(),
                n <= 1_000_000,
                start < n,
                end < n,
                settled < n,
                u < n,
                u != end,
                dist@.len() == n,
                paths@.len() == n,
                visited@.len() == n,
                forall|i: int|
                    0 <= i < costs@.len() ==> (#[trigger] costs@[i])@.len() == costs@.len(),
                forall|i: int, j: int|
                    0 <= i < costs@.len() && 0 <= j < costs@.len() ==> match #[trigger] costs@[i]@[j] {
                        Some(c) => c >= 0,
                        None => true,
                    },
                up@.len() == du_path_len,
                up@.len() >= 1,
                up@.len() <= settled + 1,
                path_ok(costs@, up@, start as int, u as int),
                0 <= du,
                du <= (up@.len() - 1) * PATH_COST_LIMIT_MICRO,
                forall|w: int| 0 <= w < n ==> ((#[trigger] dist@[w]) is Some <==> paths@[w] is Some),
                forall|w: int|
                    0 <= w < n && (#[trigger] dist@[w]) is Some ==> {
                        &&& paths@[w]->Some_0@.len() >= 1
                        &&& paths@[w]->Some_0@.len() <= settled + 2
                        &&& path_ok(costs@, paths@[w]->Some_0@, start as int, w)
                        &&& 0 <= dist@[w]->Some_0 <= (paths@[w]->Some_0@.len() - 1)
                            * PATH_COST_LIMIT_MICRO
                        &&& dist@[w]->Some_0 == path_cost(costs@, paths@[w]->Some_0@)
                    },
                dist@[start as int] is Some,
                dist@[start as int]->Some_0 == 0,
                dist@[u as int] is Some,
                dist@[u as int] == Some(du),
                du == path_cost(costs@, up@),
                !visited@[u as int],
                !visited@[end as int],
                count_true(visited@) == settled,
                forall|u2: int, v2: int|
                    0 <= u2 < n && #[trigger] visited@[u2] && 0 <= v2 < n && edge_ok(
                        costs@,
                        u2,
                        v2,
                    ) ==> (#[trigger] dist@[v2]) is Some,
                forall|w: int| 0 <= w < n && #[trigger] visited@[w] ==> dist@[w] is Some,
                forall|w: int, qq: Seq<usize>|
                    0 <= w < n && visited@[w] && #[trigger] path_ok(costs@, qq, start as int, w)
                        ==> dist@[w] is Some && dist@[w]->Some_0 <= path_cost(costs@, qq),
                forall|w: int, v2: int|
                    0 <= w < n && #[trigger] visited@[w] && 0 <= v2 < n && !(
                    #[trigger] visited@[v2]) && edge_ok(costs@, w, v2) ==> dist@[v2] is Some
                        && dist@[v2]->Some_0 <= dist@[w]->Some_0 + edge_cost(costs@, w, v2),
                forall|q: Seq<usize>|
                    #[trigger] path_ok(costs@, q, start as int, u as int) ==> du as int
                        <= path_cost(costs@, q),
                forall|v2: int|
                    0 <= v2 < v && edge_ok(costs@, u as int, v2) ==> (#[trigger] dist@[v2]) is Some,
                forall|v2: int|
                    0 <= v2 < v && !(#[trigger] visited@[v2]) && edge_ok(costs@, u as int, v2)
                        ==> dist@[v2]->Some_0 <= du + edge_cost(costs@, u as int, v2),
        {
            if v != u && !visited[v] {
                if let Some(c) = costs[u][v] {
                    if c <= PATH_COST_LIMIT_MICRO {
                        proof {
                            assert((up@.len() - 1) * PATH_COST_LIMIT_MICRO + PATH_COST_LIMIT_MICRO
                                == (up@.len() as int) * PATH_COST_LIMIT_MICRO) by (nonlinear_arith);
                            assert((up@.len() as int) * PATH_COST_LIMIT_MICRO <= 1_000_001
                                * PATH_COST_LIMIT_MICRO) by (nonlinear_arith)
                                requires
                                    0 <= up@.len() <= 1_000_001,
                            ;
                        }
                        let nd = du + c;
                        let better = match dist[v] {
                            None => true,
                            Some(dv) => nd < dv,
                        };
                        if better {
                            let mut np = copy_indices(&up);
                            np.push(v);
                            proof {
                                assert(np@.last() == v);
                                assert(np@[0] == start);
                                assert forall|k: int| 0 <= k < np@.len() - 1 implies edge_ok(
                                    costs@,
                                    #[trigger] np@[k] as int,
                                    np@[k + 1] as int,
                                ) by {
                                    if k < up@.len() - 1 {
                                        assert(np@[k] == up@[k] && np@[k + 1] == up@[k + 1]);
                                    } else {
                                        assert(np@[k] == u && np@[k + 1] == v);
                                    }
                                }
                                assert(np@.drop_last() =~= up@);
                                assert(np@[np@.len() - 2] == u && np@[np@.len() - 1] == v);
                                assert(edge_cost(costs@, u as int, v as int) == c);
                                assert(path_cost(costs@, np@) == path_cost(costs@, up@) + c);
                            }
                            dist.set(v, Some(nd));
                            paths.set(v, Some(np));
                        }
                    }
                }
            }
        }
        proof {
            lemma_count_true_update(visited@, u as int, true);
        }
        let ghost vis_old = visited@;
        visited.set(u, true);
        settled = settled + 1;
        proof {
            assert forall|w: int| 0 <= w < n && (#[trigger] dist@[w]) is Some implies {
                &&& paths@[w]->Some_0@.len() >= 1
                &&& paths@[w]->Some_0@.len() <= settled + 1
                &&& path_ok(costs@, paths@[w]->Some_0@, start as int, w)
                &&& 0 <= dist@[w]->Some_0 <= (paths@[w]->Some_0@.len() - 1) * PATH_COST_LIMIT_MICRO
            } by {}
            assert forall|u2: int, v2: int|
                0 <= u2 < n && #[trigger] visited@[u2] && 0 <= v2 < n && edge_ok(
                    costs@,
                    u2,
                    v2,
                ) implies (#[trigger] dist@[v2]) is Some by {
                if u2 == u {
                    assert(edge_ok(costs@, u as int, v2));
                }
            }
            assert forall|w: int, qq: Seq<usize>|
                0 <= w < n && visited@[w] && #[trigger] path_ok(costs@, qq, start as int, w) implies
                dist@[w] is Some && dist@[w]->Some_0 <= path_cost(costs@, qq) by {
                if w == u as int {
                    assert(du as int <= path_cost(costs@, qq));
                } else {
                    assert(vis_old[w]);
                }
            }
            assert forall|w: int, v2: int|
                0 <= w < n && #[trigger] visited@[w] && 0 <= v2 < n && !(#[trigger] visited@[v2])
                    && edge_ok(costs@, w, v2) implies dist@[v2] is Some && dist@[v2]->Some_0
                <= dist@[w]->Some_0 + edge_cost(costs@, w, v2) by {
                if w == u as int {
                    assert(!vis_old[v2]);
                } else {
                    assert(vis_old[w] && !vis_old[v2]);
                }
            }
        }
    }
    proof {
        lemma_count_true_missing_one(visited@, end as int);
    }
    None
}

proof fn lemma_count_all_false(s: Seq<bool>)
    requires
        forall|v: int| 0 <= v < s.len() ==> !(#[trigger] s[v]),
    ensures
        count_true(s) == 0,
    decreases s.len(),
{
    if s.len() > 0 {
        lemma_count_all_false(s.drop_last());
    }
}

} // verus!
