use vstd::prelude::*;

verus! {

use crate::graph::COST_CAP_MICRO;
use crate::graph::graph_inv;
use crate::models::PathNode;
use crate::models::Repeater;
use crate::models::spec_prefix_of;

/// Cost of staying in the Unknown state, in micro-units (a penalty of 8).
pub const COST_UNKNOWN_TO_UNKNOWN_MICRO: i64 = 8_000_000;

/// Cost of snapping back from Unknown to a Known repeater: one micro-unit
/// under the stay-unknown cost, so that at equal nominal cost the decoder
/// prefers to leave the Unknown state.
pub const COST_UNKNOWN_TO_KNOWN_MICRO: i64 = 7_999_999;

/// Cost of entering the Unknown state from a Known repeater: two
/// micro-units under the stay-unknown cost, so that a grounded start is
/// preferred over wandering unknown territory.
pub const COST_KNOWN_TO_UNKNOWN_MICRO: i64 = 7_999_998;

/// Starting bonus of a Known repeater matching the first observation.
pub const COST_START_KNOWN_MICRO: i64 = -100_000;

/// Failure of a decode: the trellis had no reachable state at a step, or a
/// back-pointer was missing during backtracking. Neither can occur — the
/// Unknown state is reachable at every step, and every trellis entry
/// carries the pointer it was reached by — and `decode_path` proves its
/// result is never one of these.
#[derive(Clone, Copy, Debug, PartialEq, Eq, Structural)]
pub enum DecodeError {
    Stuck { step: usize },
    BrokenBackpointer { step: usize },
    NoFinalState,
}

/// The prefix of repeater `j`.
pub open spec fn spec_prefix_at(nodes: Seq<Repeater>, j: int) -> u8 {
    spec_prefix_of(nodes[j].id@)
}

/// Ghost image of a trellis row: per state, the accumulated cost and the
/// predecessor state it was reached by.
pub open spec fn row_view(r: Seq<Option<(i64, usize)>>) -> Seq<Option<(int, int)>> {
    r.map_values(
        |e: Option<(i64, usize)>|
            match e {
                Some(p) => Some((p.0 as int, p.1 as int)),
                None => None,
            },
    )
}

/// The first trellis row: Known repeaters matching the first observation
/// start with the grounded-start bonus, the Unknown state starts at zero,
/// every other state is unreachable.
pub open spec fn spec_init_row(nodes: Seq<Repeater>, o: u8) -> Seq<Option<(int, int)>> {
    Seq::new(
        nodes.len() + 1,
        |s: int|
            if s == nodes.len() {
                Some((0int, 0int))
            } else if spec_prefix_at(nodes, s) == o {
                Some((COST_START_KNOWN_MICRO as int, 0int))
            } else {
                None
            },
    )
}

/// One relaxation: state `s` takes cost `cand` reached from `pred` if that
/// strictly improves on what it holds.
pub open spec fn spec_relax(
    row: Seq<Option<(int, int)>>,
    s: int,
    cand: int,
    pred: int,
) -> Seq<Option<(int, int)>> {
    match row[s] {
        None => row.update(s, Some((cand, pred))),
        Some((c, b)) => if cand < c {
            row.update(s, Some((cand, pred)))
        } else {
            row
        },
    }
}

/// Relaxations of the first `upto` adjacency links of Known predecessor
/// `i`, in list order; only links to repeaters matching the observation
/// count.
pub open spec fn spec_relax_adj(
    row: Seq<Option<(int, int)>>,
    nodes: Seq<Repeater>,
    adj_i: Seq<(usize, i64)>,
    pc: int,
    o: u8,
    i: int,
    upto: int,
) -> Seq<Option<(int, int)>>
    decreases upto,
{
    if upto <= 0 {
        row
    } else {
        let prev = spec_relax_adj(row, nodes, adj_i, pc, o, i, upto - 1);
        let (j, c) = adj_i[upto - 1];
        if spec_prefix_at(nodes, j as int) == o {
            spec_relax(prev, j as int, pc + c, i)
        } else {
            prev
        }
    }
}

/// Relaxations from the Unknown predecessor into the first `upto` members
/// of the observation's prefix group, in group order.
pub open spec fn spec_relax_byp(
    row: Seq<Option<(int, int)>>,
    byp_o: Seq<usize>,
    pc: int,
    n: int,
    upto: int,
) -> Seq<Option<(int, int)>>
    decreases upto,
{
    if upto <= 0 {
        row
    } else {
        let prev = spec_relax_byp(row, byp_o, pc, n, upto - 1);
        spec_relax(prev, byp_o[upto - 1] as int, pc + COST_UNKNOWN_TO_KNOWN_MICRO, n)
    }
}

/// All relaxations leaving predecessor `sp`: nothing if `sp` is
/// unreachable; else its adjacency links plus the enter-unknown move for a
/// Known `sp`, or the prefix group plus the stay-unknown move for the
/// Unknown `sp`.
pub open spec fn spec_process_pred(
    row: Seq<Option<(int, int)>>,
    nodes: Seq<Repeater>,
    adj: Seq<Seq<(usize, i64)>>,
    byp: Seq<Seq<usize>>,
    prevrow: Seq<Option<(int, int)>>,
    o: u8,
    sp: int,
) -> Seq<Option<(int, int)>> {
    let n = nodes.len() as int;
    match prevrow[sp] {
        None => row,
        Some((pc, b)) => {
            if sp < n {
                let r1 = spec_relax_adj(row, nodes, adj[sp], pc, o, sp, adj[sp].len() as int);
                spec_relax(r1, n, pc + COST_KNOWN_TO_UNKNOWN_MICRO, sp)
            } else {
                let r1 = spec_relax_byp(row, byp[o as int], pc, n, byp[o as int].len() as int);
                spec_relax(r1, n, pc + COST_UNKNOWN_TO_UNKNOWN_MICRO, sp)
            }
        },
    }
}

/// A row of unreachable states.
pub open spec fn spec_empty_row(n: int) -> Seq<Option<(int, int)>> {
    Seq::new((n + 1) as nat, |s: int| None)
}

/// The next trellis row after processing predecessors `0..upto` in
/// ascending order.
pub open spec fn spec_step_upto(
    nodes: Seq<Repeater>,
    adj: Seq<Seq<(usize, i64)>>,
    byp: Seq<Seq<usize>>,
    prevrow: Seq<Option<(int, int)>>,
    o: u8,
    upto: int,
) -> Seq<Option<(int, int)>>
    decreases upto,
{
    if upto <= 0 {
        spec_empty_row(nodes.len() as int)
    } else {
        spec_process_pred(
            spec_step_upto(nodes, adj, byp, prevrow, o, upto - 1),
            nodes,
            adj,
            byp,
            prevrow,
            o,
            upto - 1,
        )
    }
}

/// The next trellis row: all predecessors processed.
pub open spec fn spec_step_row(
    nodes: Seq<Repeater>,
    adj: Seq<Seq<(usize, i64)>>,
    byp: Seq<Seq<usize>>,
    prevrow: Seq<Option<(int, int)>>,
    o: u8,
) -> Seq<Option<(int, int)>> {
    spec_step_upto(nodes, adj, byp, prevrow, o, nodes.len() + 1 as int)
}

/// The trellis row at step `t` (0-based).
pub open spec fn spec_row(
    nodes: Seq<Repeater>,
    adj: Seq<Seq<(usize, i64)>>,
    byp: Seq<Seq<usize>>,
    obs: Seq<u8>,
    t: int,
) -> Seq<Option<(int, int)>>
    decreases t,
{
    if t <= 0 {
        spec_init_row(nodes, obs[0])
    } else {
        spec_step_row(nodes, adj, byp, spec_row(nodes, adj, byp, obs, t - 1), obs[t])
    }
}

/// The best final state among `0..upto`: minimum cost, earliest state on
/// ties, as `(state, cost)`.
pub open spec fn spec_best_upto(row: Seq<Option<(int, int)>>, upto: int) -> Option<(int, int)>
    decreases upto,
{
    if upto <= 0 {
        None
    } else {
        let prev = spec_best_upto(row, upto - 1);
        match row[upto - 1] {
            None => prev,
            Some((c, b)) => match prev {
                None => Some((upto - 1, c)),
                Some((sb, cb)) => if c < cb {
                    Some((upto - 1, c))
                } else {
                    prev
                },
            },
        }
    }
}

/// The state the decoder ends in: the best state of the last row.
pub open spec fn spec_final_state(
    nodes: Seq<Repeater>,
    adj: Seq<Seq<(usize, i64)>>,
    byp: Seq<Seq<usize>>,
    obs: Seq<u8>,
) -> int {
    let last = obs.len() - 1;
    match spec_best_upto(spec_row(nodes, adj, byp, obs, last), nodes.len() + 1 as int) {
        Some((s, c)) => s,
        None => nodes.len() as int,
    }
}

/// The path node a state stands for at a step.
pub open spec fn spec_state_node(s: int, n: int, o: u8) -> PathNode {
    if s < n {
        PathNode::Known(s as u32)
    } else {
        PathNode::Unknown(o)
    }
}

/// Predecessor stored for state `s` in a row (0 where unreachable).
pub open spec fn entry_pred(e: Option<(int, int)>) -> int {
    match e {
        Some((c, b)) => b,
        None => 0,
    }
}

/// Cost stored for state `s` in a row (0 where unreachable).
pub open spec fn entry_cost(e: Option<(int, int)>) -> int {
    match e {
        Some((c, b)) => c,
        None => 0,
    }
}

/// The decoded path up to step `t`, ending in state `s`, following the
/// stored predecessors back to the start.
pub open spec fn spec_backtrack(
    nodes: Seq<Repeater>,
    adj: Seq<Seq<(usize, i64)>>,
    byp: Seq<Seq<usize>>,
    obs: Seq<u8>,
    t: int,
    s: int,
) -> Seq<PathNode>
    decreases t,
{
    let node = spec_state_node(s, nodes.len() as int, obs[t]);
    if t <= 0 {
        seq![node]
    } else {
        let b = entry_pred(spec_row(nodes, adj, byp, obs, t)[s]);
        spec_backtrack(nodes, adj, byp, obs, t - 1, b).push(node)
    }
}

/// The decoded path: empty for an empty observation stream, otherwise the
/// backtrack from the best final state.
pub open spec fn spec_decode(
    nodes: Seq<Repeater>,
    adj: Seq<Seq<(usize, i64)>>,
    byp: Seq<Seq<usize>>,
    obs: Seq<u8>,
) -> Seq<PathNode> {
    if obs.len() == 0 {
        Seq::empty()
    } else {
        let last = obs.len() - 1;
        spec_backtrack(nodes, adj, byp, obs, last, spec_final_state(nodes, adj, byp, obs))
    }
}

/// Soundness of a row against its predecessor row: every reachable entry
/// has a cost within the bounds and a stored predecessor that is itself
/// reachable one step earlier.
pub open spec fn entries_ok(
    row: Seq<Option<(int, int)>>,
    prevrow: Seq<Option<(int, int)>>,
    lo: int,
    hi: int,
) -> bool {
    forall|s: int|
        0 <= s < row.len() ==> match #[trigger] row[s] {
            Some((c, b)) => {
                &&& 0 <= b < prevrow.len()
                &&& prevrow[b] is Some
                &&& lo <= c <= hi
            },
            None => true,
        }
}

proof fn lemma_relax_ok(
    row: Seq<Option<(int, int)>>,
    prevrow: Seq<Option<(int, int)>>,
    lo: int,
    hi: int,
    s: int,
    cand: int,
    pred: int,
)
    requires
        entries_ok(row, prevrow, lo, hi),
        0 <= s < row.len(),
        0 <= pred < prevrow.len(),
        prevrow[pred] is Some,
        lo <= cand <= hi,
    ensures
        entries_ok(spec_relax(row, s, cand, pred), prevrow, lo, hi),
        spec_relax(row, s, cand, pred).len() == row.len(),
        spec_relax(row, s, cand, pred)[s] is Some,
        forall|s2: int|
            0 <= s2 < row.len() && row[s2] is Some ==> #[trigger] spec_relax(
                row,
                s,
                cand,
                pred,
            )[s2] is Some,
{
}

proof fn lemma_relax_adj_ok(
    row: Seq<Option<(int, int)>>,
    prevrow: Seq<Option<(int, int)>>,
    lo: int,
    hi: int,
    nodes: Seq<Repeater>,
    adj_i: Seq<(usize, i64)>,
    pc: int,
    o: u8,
    i: int,
    upto: int,
)
    requires
        entries_ok(row, prevrow, lo, hi),
        row.len() == nodes.len() + 1,
        prevrow.len() == nodes.len() + 1,
        0 <= i < prevrow.len(),
        prevrow[i] is Some,
        0 <= upto <= adj_i.len(),
        forall|k: int|
            0 <= k < adj_i.len() ==> {
                let (j, c) = #[trigger] adj_i[k];
                &&& j < nodes.len()
                &&& 0 <= c < COST_CAP_MICRO
            },
        lo <= pc,
        pc + COST_CAP_MICRO <= hi,
    ensures
        entries_ok(spec_relax_adj(row, nodes, adj_i, pc, o, i, upto), prevrow, lo, hi),
        spec_relax_adj(row, nodes, adj_i, pc, o, i, upto).len() == row.len(),
        forall|s2: int|
            0 <= s2 < row.len() && row[s2] is Some ==> #[trigger] spec_relax_adj(
                row,
                nodes,
                adj_i,
                pc,
                o,
                i,
                upto,
            )[s2] is Some,
    decreases upto,
{
    if upto > 0 {
        lemma_relax_adj_ok(row, prevrow, lo, hi, nodes, adj_i, pc, o, i, upto - 1);
        let prev = spec_relax_adj(row, nodes, adj_i, pc, o, i, upto - 1);
        let (j, c) = adj_i[upto - 1];
        if spec_prefix_at(nodes, j as int) == o {
            lemma_relax_ok(prev, prevrow, lo, hi, j as int, pc + c, i);
        }
    }
}

proof fn lemma_relax_byp_ok(
    row: Seq<Option<(int, int)>>,
    prevrow: Seq<Option<(int, int)>>,
    lo: int,
    hi: int,
    byp_o: Seq<usize>,
    pc: int,
    n: int,
    upto: int,
)
    requires
        entries_ok(row, prevrow, lo, hi),
        row.len() == n + 1,
        prevrow.len() == n + 1,
        0 <= n,
        prevrow[n] is Some,
        0 <= upto <= byp_o.len(),
        forall|k: int| 0 <= k < byp_o.len() ==> (#[trigger] byp_o[k]) < n,
        lo <= pc,
        pc + COST_UNKNOWN_TO_KNOWN_MICRO <= hi,
    ensures
        entries_ok(spec_relax_byp(row, byp_o, pc, n, upto), prevrow, lo, hi),
        spec_relax_byp(row, byp_o, pc, n, upto).len() == row.len(),
        forall|s2: int|
            0 <= s2 < row.len() && row[s2] is Some ==> #[trigger] spec_relax_byp(
                row,
                byp_o,
                pc,
                n,
                upto,
            )[s2] is Some,
    decreases upto,
{
    if upto > 0 {
        lemma_relax_byp_ok(row, prevrow, lo, hi, byp_o, pc, n, upto - 1);
        let prev = spec_relax_byp(row, byp_o, pc, n, upto - 1);
        lemma_relax_ok(
            prev,
            prevrow,
            lo,
            hi,
            byp_o[upto - 1] as int,
            pc + COST_UNKNOWN_TO_KNOWN_MICRO,
            n,
        );
    }
}

/// Every member of a prefix group is a valid repeater index whose prefix
/// is the group's.
pub proof fn lemma_prefix_row_props(nodes: Seq<Repeater>, p: int)
    requires
        nodes.len() < 0xFFFF_FFFF,
    ensures
        forall|k: int|
            0 <= k < crate::graph::spec_prefix_row(nodes, p).len() ==> {
                let j = #[trigger] crate::graph::spec_prefix_row(nodes, p)[k];
                &&& j < nodes.len()
                &&& spec_prefix_at(nodes, j as int) == p
            },
    decreases nodes.len(),
{
    if nodes.len() > 0 {
        lemma_prefix_row_props(nodes.drop_last(), p);
        let rest = crate::graph::spec_prefix_row(nodes.drop_last(), p);
        assert forall|k: int| 0 <= k < crate::graph::spec_prefix_row(nodes, p).len() implies {
            let j = #[trigger] crate::graph::spec_prefix_row(nodes, p)[k];
            &&& j < nodes.len()
            &&& spec_prefix_at(nodes, j as int) == p
        } by {
            let row = crate::graph::spec_prefix_row(nodes, p);
            if spec_prefix_of(nodes.last().id@) == p {
                assert(row == rest.push((nodes.len() - 1) as usize));
            } else {
                assert(row == rest);
            }
            if k < rest.len() {
                assert(row[k] == rest[k]);
                assert(rest[k] < nodes.drop_last().len());
                assert(nodes.drop_last()[rest[k] as int] == nodes[rest[k] as int]);
                assert(spec_prefix_at(nodes.drop_last(), rest[k] as int) == p);
            } else {
                assert(row[k] == (nodes.len() - 1) as usize);
                assert(nodes.last() == nodes[nodes.len() - 1]);
            }
        }
    }
}

proof fn lemma_process_pred_ok(
    row: Seq<Option<(int, int)>>,
    nodes: Seq<Repeater>,
    adj: Seq<Seq<(usize, i64)>>,
    byp: Seq<Seq<usize>>,
    prevrow: Seq<Option<(int, int)>>,
    o: u8,
    sp: int,
    lo: int,
    hi: int,
)
    requires
        graph_inv(nodes, adj, byp),
        entries_ok(row, prevrow, lo, hi),
        row.len() == nodes.len() + 1,
        prevrow.len() == nodes.len() + 1,
        0 <= sp < prevrow.len(),
        forall|s: int|
            0 <= s < prevrow.len() ==> match #[trigger] prevrow[s] {
                Some((c, b)) => lo <= c && c + COST_CAP_MICRO <= hi,
                None => true,
            },
    ensures
        entries_ok(spec_process_pred(row, nodes, adj, byp, prevrow, o, sp), prevrow, lo, hi),
        spec_process_pred(row, nodes, adj, byp, prevrow, o, sp).len() == row.len(),
        forall|s2: int|
            0 <= s2 < row.len() && row[s2] is Some ==> #[trigger] spec_process_pred(
                row,
                nodes,
                adj,
                byp,
                prevrow,
                o,
                sp,
            )[s2] is Some,
        prevrow[sp] is Some ==> spec_process_pred(row, nodes, adj, byp, prevrow, o, sp)[nodes.len()
            as int] is Some,
{
    let n = nodes.len() as int;
    match prevrow[sp] {
        None => {},
        Some((pc, b0)) => {
            if sp < n {
                lemma_relax_adj_ok(
                    row,
                    prevrow,
                    lo,
                    hi,
                    nodes,
                    adj[sp],
                    pc,
                    o,
                    sp,
                    adj[sp].len() as int,
                );
                let r1 = spec_relax_adj(row, nodes, adj[sp], pc, o, sp, adj[sp].len() as int);
                lemma_relax_ok(r1, prevrow, lo, hi, n, pc + COST_KNOWN_TO_UNKNOWN_MICRO, sp);
            } else {
                lemma_prefix_row_props(nodes, o as int);
                lemma_relax_byp_ok(
                    row,
                    prevrow,
                    lo,
                    hi,
                    byp[o as int],
                    pc,
                    n,
                    byp[o as int].len() as int,
                );
                let r1 = spec_relax_byp(row, byp[o as int], pc, n, byp[o as int].len() as int);
                lemma_relax_ok(r1, prevrow, lo, hi, n, pc + COST_UNKNOWN_TO_UNKNOWN_MICRO, sp);
            }
        },
    }
}

proof fn lemma_step_upto_ok(
    nodes: Seq<Repeater>,
    adj: Seq<Seq<(usize, i64)>>,
    byp: Seq<Seq<usize>>,
    prevrow: Seq<Option<(int, int)>>,
    o: u8,
    upto: int,
    lo: int,
    hi: int,
)
    requires
        graph_inv(nodes, adj, byp),
        prevrow.len() == nodes.len() + 1,
        0 <= upto <= prevrow.len(),
        lo <= 0,
        forall|s: int|
            0 <= s < prevrow.len() ==> match #[trigger] prevrow[s] {
                Some((c, b)) => lo <= c && c + COST_CAP_MICRO <= hi,
                None => true,
            },
    ensures
        entries_ok(spec_step_upto(nodes, adj, byp, prevrow, o, upto), prevrow, lo, hi),
        spec_step_upto(nodes, adj, byp, prevrow, o, upto).len() == nodes.len() + 1,
        forall|sp: int|
            0 <= sp < upto && prevrow[sp] is Some ==> #[trigger] spec_step_upto(
                nodes,
                adj,
                byp,
                prevrow,
                o,
                upto,
            )[nodes.len() as int] is Some,
    decreases upto,
{
    if upto > 0 {
        lemma_step_upto_ok(nodes, adj, byp, prevrow, o, upto - 1, lo, hi);
        let row = spec_step_upto(nodes, adj, byp, prevrow, o, upto - 1);
        lemma_process_pred_ok(row, nodes, adj, byp, prevrow, o, upto - 1, lo, hi);
    }
}

/// Soundness of the whole trellis: every row's entries point one row back
/// and costs grow by at most the cap per step.
pub proof fn lemma_row_ok(
    nodes: Seq<Repeater>,
    adj: Seq<Seq<(usize, i64)>>,
    byp: Seq<Seq<usize>>,
    obs: Seq<u8>,
    t: int,
)
    requires
        graph_inv(nodes, adj, byp),
        0 <= t < obs.len(),
    ensures
        spec_row(nodes, adj, byp, obs, t).len() == nodes.len() + 1,
        spec_row(nodes, adj, byp, obs, t)[nodes.len() as int] is Some,
        forall|s: int|
            0 <= s < nodes.len() + 1 ==> match #[trigger] spec_row(nodes, adj, byp, obs, t)[s] {
                Some((c, b)) => {
                    &&& 0 <= b < nodes.len() + 1
                    &&& COST_START_KNOWN_MICRO <= c <= t * COST_CAP_MICRO
                    &&& (t > 0 ==> spec_row(nodes, adj, byp, obs, t - 1)[b] is Some)
                },
                None => true,
            },
    decreases t,
{
    if t == 0 {
        let row = spec_init_row(nodes, obs[0]);
        assert(row[nodes.len() as int] is Some);
    } else {
        lemma_row_ok(nodes, adj, byp, obs, t - 1);
        let prevrow = spec_row(nodes, adj, byp, obs, t - 1);
        let lo = COST_START_KNOWN_MICRO as int;
        let hi = t * COST_CAP_MICRO;
        assert forall|s: int| 0 <= s < prevrow.len() implies match #[trigger] prevrow[s] {
            Some((c, b)) => lo <= c && c + COST_CAP_MICRO <= hi,
            None => true,
        } by {
            assert((t - 1) * COST_CAP_MICRO + COST_CAP_MICRO == t * COST_CAP_MICRO)
                by (nonlinear_arith);
        }
        lemma_step_upto_ok(nodes, adj, byp, prevrow, o_of(obs, t), nodes.len() + 1 as int, lo, hi);
        assert(prevrow[nodes.len() as int] is Some);
    }
}

/// The observation at step `t`.
pub open spec fn o_of(obs: Seq<u8>, t: int) -> u8 {
    obs[t]
}

/// Emission soundness of a row: a Known state is reachable only if its
/// repeater's prefix is the observation decoded at this step.
pub open spec fn known_ok(row: Seq<Option<(int, int)>>, nodes: Seq<Repeater>, o: u8) -> bool {
    forall|s: int|
        0 <= s < nodes.len() && s < row.len() && (#[trigger] row[s]) is Some ==> spec_prefix_at(
            nodes,
            s,
        ) == o
}

proof fn lemma_relax_known(
    row: Seq<Option<(int, int)>>,
    nodes: Seq<Repeater>,
    o: u8,
    s: int,
    cand: int,
    pred: int,
)
    requires
        known_ok(row, nodes, o),
        0 <= s < row.len(),
        s >= nodes.len() || spec_prefix_at(nodes, s) == o,
    ensures
        known_ok(spec_relax(row, s, cand, pred), nodes, o),
{
}

proof fn lemma_relax_adj_known(
    row: Seq<Option<(int, int)>>,
    nodes: Seq<Repeater>,
    adj_i: Seq<(usize, i64)>,
    pc: int,
    o: u8,
    i: int,
    upto: int,
)
    requires
        known_ok(row, nodes, o),
        row.len() == nodes.len() + 1,
        0 <= upto <= adj_i.len(),
        forall|k: int|
            0 <= k < adj_i.len() ==> (#[trigger] adj_i[k]).0 < nodes.len(),
    ensures
        known_ok(spec_relax_adj(row, nodes, adj_i, pc, o, i, upto), nodes, o),
        spec_relax_adj(row, nodes, adj_i, pc, o, i, upto).len() == row.len(),
    decreases upto,
{
    if upto > 0 {
        lemma_relax_adj_known(row, nodes, adj_i, pc, o, i, upto - 1);
        let prev = spec_relax_adj(row, nodes, adj_i, pc, o, i, upto - 1);
        let (j, c) = adj_i[upto - 1];
        if spec_prefix_at(nodes, j as int) == o {
            lemma_relax_known(prev, nodes, o, j as int, pc + c, i);
        }
    }
}

proof fn lemma_relax_byp_known(
    row: Seq<Option<(int, int)>>,
    nodes: Seq<Repeater>,
    byp_o: Seq<usize>,
    pc: int,
    n: int,
    o: u8,
    upto: int,
)
    requires
        known_ok(row, nodes, o),
        row.len() == nodes.len() + 1,
        n == nodes.len(),
        0 <= upto <= byp_o.len(),
        forall|k: int|
            0 <= k < byp_o.len() ==> {
                let j = #[trigger] byp_o[k];
                &&& j < nodes.len()
                &&& spec_prefix_at(nodes, j as int) == o
            },
    ensures
        known_ok(spec_relax_byp(row, byp_o, pc, n, upto), nodes, o),
        spec_relax_byp(row, byp_o, pc, n, upto).len() == row.len(),
    decreases upto,
{
    if upto > 0 {
        lemma_relax_byp_known(row, nodes, byp_o, pc, n, o, upto - 1);
        let prev = spec_relax_byp(row, byp_o, pc, n, upto - 1);
        lemma_relax_known(
            prev,
            nodes,
            o,
            byp_o[upto - 1] as int,
            pc + COST_UNKNOWN_TO_KNOWN_MICRO,
            n,
        );
    }
}

proof fn lemma_step_upto_known(
    nodes: Seq<Repeater>,
    adj: Seq<Seq<(usize, i64)>>,
    byp: Seq<Seq<usize>>,
    prevrow: Seq<Option<(int, int)>>,
    o: u8,
    upto: int,
)
    requires
        graph_inv(nodes, adj, byp),
        prevrow.len() == nodes.len() + 1,
        0 <= upto <= prevrow.len(),
    ensures
        known_ok(spec_step_upto(nodes, adj, byp, prevrow, o, upto), nodes, o),
        spec_step_upto(nodes, adj, byp, prevrow, o, upto).len() == nodes.len() + 1,
    decreases upto,
{
    let n = nodes.len() as int;
    if upto > 0 {
        lemma_step_upto_known(nodes, adj, byp, prevrow, o, upto - 1);
        let row = spec_step_upto(nodes, adj, byp, prevrow, o, upto - 1);
        let sp = upto - 1;
        match prevrow[sp] {
            None => {},
            Some((pc, b0)) => {
                if sp < n {
                    lemma_relax_adj_known(row, nodes, adj[sp], pc, o, sp, adj[sp].len() as int);
                    let r1 = spec_relax_adj(row, nodes, adj[sp], pc, o, sp, adj[sp].len() as int);
                    lemma_relax_known(r1, nodes, o, n, pc + COST_KNOWN_TO_UNKNOWN_MICRO, sp);
                } else {
                    lemma_prefix_row_props(nodes, o as int);
                    lemma_relax_byp_known(
                        row,
                        nodes,
                        byp[o as int],
                        pc,
                        n,
                        o,
                        byp[o as int].len() as int,
                    );
                    let r1 = spec_relax_byp(row, byp[o as int], pc, n, byp[o as int].len() as int);
                    lemma_relax_known(r1, nodes, o, n, pc + COST_UNKNOWN_TO_UNKNOWN_MICRO, sp);
                }
            },
        }
    }
}

/// Emission soundness of the whole trellis: at every step only matching
/// Known states are reachable.
pub proof fn lemma_row_known(
    nodes: Seq<Repeater>,
    adj: Seq<Seq<(usize, i64)>>,
    byp: Seq<Seq<usize>>,
    obs: Seq<u8>,
    t: int,
)
    requires
        graph_inv(nodes, adj, byp),
        0 <= t < obs.len(),
    ensures
        known_ok(spec_row(nodes, adj, byp, obs, t), nodes, obs[t]),
    decreases t,
{
    if t == 0 {
    } else {
        lemma_row_ok(nodes, adj, byp, obs, t - 1);
        lemma_step_upto_known(
            nodes,
            adj,
            byp,
            spec_row(nodes, adj, byp, obs, t - 1),
            obs[t],
            nodes.len() + 1 as int,
        );
    }
}

/// The backtracked path is consistent with the observations: every Known
/// node is a real repeater whose prefix is the observation of its step,
/// and every Unknown node carries the observation of its step.
pub proof fn lemma_backtrack_consistent(
    nodes: Seq<Repeater>,
    adj: Seq<Seq<(usize, i64)>>,
    byp: Seq<Seq<usize>>,
    obs: Seq<u8>,
    t: int,
    s: int,
)
    requires
        graph_inv(nodes, adj, byp),
        0 <= t < obs.len(),
        0 <= s <= nodes.len(),
        spec_row(nodes, adj, byp, obs, t)[s] is Some,
    ensures
        forall|u: int|
            0 <= u <= t ==> match #[trigger] spec_backtrack(nodes, adj, byp, obs, t, s)[u] {
                PathNode::Known(k) => k < nodes.len() && spec_prefix_at(nodes, k as int) == obs[u],
                PathNode::Unknown(p) => p == obs[u],
            },
    decreases t,
{
    lemma_backtrack_len(nodes, adj, byp, obs, t, s);
    lemma_row_known(nodes, adj, byp, obs, t);
    lemma_row_ok(nodes, adj, byp, obs, t);
    let node = spec_state_node(s, nodes.len() as int, obs[t]);
    if t == 0 {
        assert(spec_backtrack(nodes, adj, byp, obs, t, s)[0] == node);
    } else {
        let b = entry_pred(spec_row(nodes, adj, byp, obs, t)[s]);
        lemma_backtrack_consistent(nodes, adj, byp, obs, t - 1, b);
        lemma_backtrack_len(nodes, adj, byp, obs, t - 1, b);
        let rest = spec_backtrack(nodes, adj, byp, obs, t - 1, b);
        assert forall|u: int| 0 <= u <= t implies match #[trigger] spec_backtrack(
            nodes,
            adj,
            byp,
            obs,
            t,
            s,
        )[u] {
            PathNode::Known(k) => k < nodes.len() && spec_prefix_at(nodes, k as int) == obs[u],
            PathNode::Unknown(p) => p == obs[u],
        } by {
            if u < t {
                assert(spec_backtrack(nodes, adj, byp, obs, t, s)[u] == rest[u]);
            } else {
                assert(spec_backtrack(nodes, adj, byp, obs, t, s)[u] == node);
            }
        }
    }
}

/// A backtracked path covers one node per step.
pub proof fn lemma_backtrack_len(
    nodes: Seq<Repeater>,
    adj: Seq<Seq<(usize, i64)>>,
    byp: Seq<Seq<usize>>,
    obs: Seq<u8>,
    t: int,
    s: int,
)
    requires
        0 <= t,
    ensures
        spec_backtrack(nodes, adj, byp, obs, t, s).len() == t + 1,
    decreases t,
{
    if t > 0 {
        lemma_backtrack_len(nodes, adj, byp, obs, t - 1, entry_pred(spec_row(nodes, adj, byp, obs, t)[s]));
    }
}

/// A row improves on another when it reaches every state the other
/// reaches, at no greater cost.
pub open spec fn row_improves(r2: Seq<Option<(int, int)>>, r1: Seq<Option<(int, int)>>) -> bool {
    &&& r2.len() == r1.len()
    &&& forall|s: int|
        0 <= s < r1.len() && (#[trigger] r1[s]) is Some ==> r2[s] is Some && entry_cost(r2[s])
            <= entry_cost(r1[s])
}

proof fn lemma_improves_trans(
    r3: Seq<Option<(int, int)>>,
    r2: Seq<Option<(int, int)>>,
    r1: Seq<Option<(int, int)>>,
)
    requires
        row_improves(r3, r2),
        row_improves(r2, r1),
    ensures
        row_improves(r3, r1),
{
}

proof fn lemma_relax_improves(row: Seq<Option<(int, int)>>, s: int, cand: int, pred: int)
    requires
        0 <= s < row.len(),
    ensures
        row_improves(spec_relax(row, s, cand, pred), row),
        spec_relax(row, s, cand, pred)[s] is Some,
        entry_cost(spec_relax(row, s, cand, pred)[s]) <= cand,
{
}

proof fn lemma_relax_adj_improves(
    row: Seq<Option<(int, int)>>,
    nodes: Seq<Repeater>,
    adj_i: Seq<(usize, i64)>,
    pc: int,
    o: u8,
    i: int,
    upto: int,
)
    requires
        row.len() == nodes.len() + 1,
        0 <= upto <= adj_i.len(),
        forall|k: int| 0 <= k < adj_i.len() ==> (#[trigger] adj_i[k]).0 < nodes.len(),
    ensures
        row_improves(spec_relax_adj(row, nodes, adj_i, pc, o, i, upto), row),
    decreases upto,
{
    if upto > 0 {
        lemma_relax_adj_improves(row, nodes, adj_i, pc, o, i, upto - 1);
        let prev = spec_relax_adj(row, nodes, adj_i, pc, o, i, upto - 1);
        let (j, c) = adj_i[upto - 1];
        if spec_prefix_at(nodes, j as int) == o {
            lemma_relax_improves(prev, j as int, pc + c, i);
            lemma_improves_trans(spec_relax_adj(row, nodes, adj_i, pc, o, i, upto), prev, row);
        }
    }
}

proof fn lemma_relax_byp_improves(
    row: Seq<Option<(int, int)>>,
    byp_o: Seq<usize>,
    pc: int,
    n: int,
    upto: int,
)
    requires
        row.len() == n + 1,
        0 <= n,
        0 <= upto <= byp_o.len(),
        forall|k: int| 0 <= k < byp_o.len() ==> (#[trigger] byp_o[k]) < n,
    ensures
        row_improves(spec_relax_byp(row, byp_o, pc, n, upto), row),
    decreases upto,
{
    if upto > 0 {
        lemma_relax_byp_improves(row, byp_o, pc, n, upto - 1);
        let prev = spec_relax_byp(row, byp_o, pc, n, upto - 1);
        lemma_relax_improves(prev, byp_o[upto - 1] as int, pc + COST_UNKNOWN_TO_KNOWN_MICRO, n);
        lemma_improves_trans(spec_relax_byp(row, byp_o, pc, n, upto), prev, row);
    }
}

proof fn lemma_process_pred_improves(
    row: Seq<Option<(int, int)>>,
    nodes: Seq<Repeater>,
    adj: Seq<Seq<(usize, i64)>>,
    byp: Seq<Seq<usize>>,
    prevrow: Seq<Option<(int, int)>>,
    o: u8,
    sp: int,
)
    requires
        graph_inv(nodes, adj, byp),
        row.len() == nodes.len() + 1,
        prevrow.len() == nodes.len() + 1,
        0 <= sp < prevrow.len(),
    ensures
        row_improves(spec_process_pred(row, nodes, adj, byp, prevrow, o, sp), row),
{
    let n = nodes.len() as int;
    match prevrow[sp] {
        None => {},
        Some((pc, b0)) => {
            if sp < n {
                lemma_relax_adj_improves(row, nodes, adj[sp], pc, o, sp, adj[sp].len() as int);
                let r1 = spec_relax_adj(row, nodes, adj[sp], pc, o, sp, adj[sp].len() as int);
                lemma_relax_improves(r1, n, pc + COST_KNOWN_TO_UNKNOWN_MICRO, sp);
                lemma_improves_trans(
                    spec_process_pred(row, nodes, adj, byp, prevrow, o, sp),
                    r1,
                    row,
                );
            } else {
                lemma_prefix_row_props(nodes, o as int);
                lemma_relax_byp_improves(row, byp[o as int], pc, n, byp[o as int].len() as int);
                let r1 = spec_relax_byp(row, byp[o as int], pc, n, byp[o as int].len() as int);
                lemma_relax_improves(r1, n, pc + COST_UNKNOWN_TO_UNKNOWN_MICRO, sp);
                lemma_improves_trans(
                    spec_process_pred(row, nodes, adj, byp, prevrow, o, sp),
                    r1,
                    row,
                );
            }
        },
    }
}

proof fn lemma_step_upto_len(
    nodes: Seq<Repeater>,
    adj: Seq<Seq<(usize, i64)>>,
    byp: Seq<Seq<usize>>,
    prevrow: Seq<Option<(int, int)>>,
    o: u8,
    upto: int,
)
    requires
        graph_inv(nodes, adj, byp),
        prevrow.len() == nodes.len() + 1,
        0 <= upto <= prevrow.len(),
    ensures
        spec_step_upto(nodes, adj, byp, prevrow, o, upto).len() == nodes.len() + 1,
    decreases upto,
{
    if upto > 0 {
        lemma_step_upto_len(nodes, adj, byp, prevrow, o, upto - 1);
        lemma_process_pred_improves(
            spec_step_upto(nodes, adj, byp, prevrow, o, upto - 1),
            nodes,
            adj,
            byp,
            prevrow,
            o,
            upto - 1,
        );
    }
}

/// Later prefixes of the forward step only improve on earlier ones.
proof fn lemma_step_upto_improves(
    nodes: Seq<Repeater>,
    adj: Seq<Seq<(usize, i64)>>,
    byp: Seq<Seq<usize>>,
    prevrow: Seq<Option<(int, int)>>,
    o: u8,
    from: int,
    to: int,
)
    requires
        graph_inv(nodes, adj, byp),
        prevrow.len() == nodes.len() + 1,
        0 <= from <= to <= prevrow.len(),
    ensures
        row_improves(
            spec_step_upto(nodes, adj, byp, prevrow, o, to),
            spec_step_upto(nodes, adj, byp, prevrow, o, from),
        ),
    decreases to - from,
{
    lemma_step_upto_len(nodes, adj, byp, prevrow, o, from);
    if from == to {
    } else {
        lemma_step_upto_improves(nodes, adj, byp, prevrow, o, from, to - 1);
        let r1 = spec_step_upto(nodes, adj, byp, prevrow, o, to - 1);
        lemma_step_upto_len(nodes, adj, byp, prevrow, o, to - 1);
        lemma_process_pred_improves(r1, nodes, adj, byp, prevrow, o, to - 1);
        lemma_improves_trans(
            spec_step_upto(nodes, adj, byp, prevrow, o, to),
            r1,
            spec_step_upto(nodes, adj, byp, prevrow, o, from),
        );
    }
}

proof fn lemma_relax_adj_candidate(
    row: Seq<Option<(int, int)>>,
    nodes: Seq<Repeater>,
    adj_i: Seq<(usize, i64)>,
    pc: int,
    o: u8,
    i: int,
    upto: int,
    k: int,
)
    requires
        row.len() == nodes.len() + 1,
        0 <= k < upto <= adj_i.len(),
        forall|k2: int| 0 <= k2 < adj_i.len() ==> (#[trigger] adj_i[k2]).0 < nodes.len(),
        spec_prefix_at(nodes, adj_i[k].0 as int) == o,
    ensures
        spec_relax_adj(row, nodes, adj_i, pc, o, i, upto)[adj_i[k].0 as int] is Some,
        entry_cost(spec_relax_adj(row, nodes, adj_i, pc, o, i, upto)[adj_i[k].0 as int]) <= pc
            + adj_i[k].1,
    decreases upto,
{
    let (j, c) = adj_i[upto - 1];
    let prev = spec_relax_adj(row, nodes, adj_i, pc, o, i, upto - 1);
    lemma_relax_adj_improves(row, nodes, adj_i, pc, o, i, upto - 1);
    if k == upto - 1 {
        lemma_relax_improves(prev, j as int, pc + c, i);
    } else {
        lemma_relax_adj_candidate(row, nodes, adj_i, pc, o, i, upto - 1, k);
        if spec_prefix_at(nodes, j as int) == o {
            lemma_relax_improves(prev, j as int, pc + c, i);
        }
    }
}

proof fn lemma_relax_byp_candidate(
    row: Seq<Option<(int, int)>>,
    byp_o: Seq<usize>,
    pc: int,
    n: int,
    upto: int,
    k: int,
)
    requires
        row.len() == n + 1,
        0 <= n,
        0 <= k < upto <= byp_o.len(),
        forall|k2: int| 0 <= k2 < byp_o.len() ==> (#[trigger] byp_o[k2]) < n,
    ensures
        spec_relax_byp(row, byp_o, pc, n, upto)[byp_o[k] as int] is Some,
        entry_cost(spec_relax_byp(row, byp_o, pc, n, upto)[byp_o[k] as int]) <= pc
            + COST_UNKNOWN_TO_KNOWN_MICRO,
    decreases upto,
{
    let prev = spec_relax_byp(row, byp_o, pc, n, upto - 1);
    lemma_relax_byp_improves(row, byp_o, pc, n, upto - 1);
    if k == upto - 1 {
        lemma_relax_improves(prev, byp_o[k] as int, pc + COST_UNKNOWN_TO_KNOWN_MICRO, n);
    } else {
        lemma_relax_byp_candidate(row, byp_o, pc, n, upto - 1, k);
        lemma_relax_improves(prev, byp_o[upto - 1] as int, pc + COST_UNKNOWN_TO_KNOWN_MICRO, n);
    }
}

/// Per-step minimality of the forward recursion, Known-to-Known: the next
/// row reaches the target of every admissible adjacency link at no more
/// than the predecessor's cost plus the link cost.
pub proof fn lemma_step_min_known(
    nodes: Seq<Repeater>,
    adj: Seq<Seq<(usize, i64)>>,
    byp: Seq<Seq<usize>>,
    prevrow: Seq<Option<(int, int)>>,
    o: u8,
    sp: int,
    k: int,
)
    requires
        graph_inv(nodes, adj, byp),
        prevrow.len() == nodes.len() + 1,
        0 <= sp < nodes.len(),
        prevrow[sp] is Some,
        0 <= k < adj[sp].len(),
        spec_prefix_at(nodes, adj[sp][k].0 as int) == o,
    ensures
        spec_step_row(nodes, adj, byp, prevrow, o)[adj[sp][k].0 as int] is Some,
        entry_cost(spec_step_row(nodes, adj, byp, prevrow, o)[adj[sp][k].0 as int]) <= entry_cost(
            prevrow[sp],
        ) + adj[sp][k].1,
{
    let n = nodes.len() as int;
    let pc = entry_cost(prevrow[sp]);
    let base = spec_step_upto(nodes, adj, byp, prevrow, o, sp);
    lemma_step_upto_len(nodes, adj, byp, prevrow, o, sp);
    lemma_relax_adj_candidate(base, nodes, adj[sp], pc, o, sp, adj[sp].len() as int, k);
    lemma_relax_adj_improves(base, nodes, adj[sp], pc, o, sp, adj[sp].len() as int);
    let r1 = spec_relax_adj(base, nodes, adj[sp], pc, o, sp, adj[sp].len() as int);
    lemma_relax_improves(r1, n, pc + COST_KNOWN_TO_UNKNOWN_MICRO, sp);
    assert(spec_step_upto(nodes, adj, byp, prevrow, o, sp + 1) == spec_relax(
        r1,
        n,
        pc + COST_KNOWN_TO_UNKNOWN_MICRO,
        sp,
    ));
    lemma_step_upto_improves(nodes, adj, byp, prevrow, o, sp + 1, n + 1);
}

/// Per-step minimality, moves involving the Unknown state: the next row
/// reaches the Unknown state from every reachable predecessor, and every
/// member of the observation's prefix group from a reachable Unknown, at
/// no more than the predecessor's cost plus the fixed penalty.
pub proof fn lemma_step_min_unknown(
    nodes: Seq<Repeater>,
    adj: Seq<Seq<(usize, i64)>>,
    byp: Seq<Seq<usize>>,
    prevrow: Seq<Option<(int, int)>>,
    o: u8,
    sp: int,
)
    requires
        graph_inv(nodes, adj, byp),
        prevrow.len() == nodes.len() + 1,
        0 <= sp <= nodes.len(),
        prevrow[sp] is Some,
    ensures
        spec_step_row(nodes, adj, byp, prevrow, o)[nodes.len() as int] is Some,
        sp < nodes.len() ==> entry_cost(
            spec_step_row(nodes, adj, byp, prevrow, o)[nodes.len() as int],
        ) <= entry_cost(prevrow[sp]) + COST_KNOWN_TO_UNKNOWN_MICRO,
        sp == nodes.len() ==> entry_cost(
            spec_step_row(nodes, adj, byp, prevrow, o)[nodes.len() as int],
        ) <= entry_cost(prevrow[sp]) + COST_UNKNOWN_TO_UNKNOWN_MICRO,
        sp == nodes.len() ==> forall|k: int|
            0 <= k < byp[o as int].len() ==> {
                let j = (#[trigger] byp[o as int][k]) as int;
                spec_step_row(nodes, adj, byp, prevrow, o)[j] is Some && entry_cost(
                    spec_step_row(nodes, adj, byp, prevrow, o)[j],
                ) <= entry_cost(prevrow[sp]) + COST_UNKNOWN_TO_KNOWN_MICRO
            },
{
    let n = nodes.len() as int;
    let pc = entry_cost(prevrow[sp]);
    let base = spec_step_upto(nodes, adj, byp, prevrow, o, sp);
    lemma_step_upto_len(nodes, adj, byp, prevrow, o, sp);
    if sp < n {
        lemma_relax_adj_improves(base, nodes, adj[sp], pc, o, sp, adj[sp].len() as int);
        let r1 = spec_relax_adj(base, nodes, adj[sp], pc, o, sp, adj[sp].len() as int);
        lemma_relax_improves(r1, n, pc + COST_KNOWN_TO_UNKNOWN_MICRO, sp);
        assert(spec_step_upto(nodes, adj, byp, prevrow, o, sp + 1) == spec_relax(
            r1,
            n,
            pc + COST_KNOWN_TO_UNKNOWN_MICRO,
            sp,
        ));
        lemma_step_upto_improves(nodes, adj, byp, prevrow, o, sp + 1, n + 1);
    } else {
        lemma_prefix_row_props(nodes, o as int);
        let r1 = spec_relax_byp(base, byp[o as int], pc, n, byp[o as int].len() as int);
        lemma_relax_byp_improves(base, byp[o as int], pc, n, byp[o as int].len() as int);
        lemma_relax_improves(r1, n, pc + COST_UNKNOWN_TO_UNKNOWN_MICRO, sp);
        assert(spec_step_upto(nodes, adj, byp, prevrow, o, sp + 1) == spec_relax(
            r1,
            n,
            pc + COST_UNKNOWN_TO_UNKNOWN_MICRO,
            sp,
        ));
        lemma_step_upto_improves(nodes, adj, byp, prevrow, o, sp + 1, n + 1);
        assert forall|k: int| 0 <= k < byp[o as int].len() implies {
            let j = (#[trigger] byp[o as int][k]) as int;
            spec_step_row(nodes, adj, byp, prevrow, o)[j] is Some && entry_cost(
                spec_step_row(nodes, adj, byp, prevrow, o)[j],
            ) <= pc + COST_UNKNOWN_TO_KNOWN_MICRO
        } by {
            lemma_relax_byp_candidate(base, byp[o as int], pc, n, byp[o as int].len() as int, k);
            let j = byp[o as int][k] as int;
            lemma_relax_improves(r1, n, pc + COST_UNKNOWN_TO_UNKNOWN_MICRO, sp);
            let r2 = spec_relax(r1, n, pc + COST_UNKNOWN_TO_UNKNOWN_MICRO, sp);
            assert(row_improves(spec_step_row(nodes, adj, byp, prevrow, o), r2));
        }
    }
}

/// An admissible transition of the trellis, with its cost: a matching
/// adjacency link between Known states, or one of the three fixed-cost
/// moves through the Unknown state.
pub open spec fn trans_ok(
    nodes: Seq<Repeater>,
    adj: Seq<Seq<(usize, i64)>>,
    byp: Seq<Seq<usize>>,
    o: u8,
    sp: int,
    s: int,
    tc: int,
) -> bool {
    let n = nodes.len() as int;
    ||| (sp < n && s < n && spec_prefix_at(nodes, s) == o && exists|k: int|
        0 <= k < adj[sp].len() && (#[trigger] adj[sp][k]).0 == s && adj[sp][k].1 == tc)
    ||| (sp < n && s == n && tc == COST_KNOWN_TO_UNKNOWN_MICRO)
    ||| (sp == n && s < n && byp[o as int].contains(s as usize) && tc == COST_UNKNOWN_TO_KNOWN_MICRO)
    ||| (sp == n && s == n && tc == COST_UNKNOWN_TO_UNKNOWN_MICRO)
}

/// Every reachable entry of a row is priced by an admissible transition
/// from a reachable predecessor.
pub open spec fn entries_from(
    row: Seq<Option<(int, int)>>,
    nodes: Seq<Repeater>,
    adj: Seq<Seq<(usize, i64)>>,
    byp: Seq<Seq<usize>>,
    prevrow: Seq<Option<(int, int)>>,
    o: u8,
) -> bool {
    forall|s: int|
        0 <= s < row.len() ==> match #[trigger] row[s] {
            Some((c, b)) => {
                &&& 0 <= b < prevrow.len()
                &&& prevrow[b] is Some
                &&& exists|tc: int|
                    #[trigger] trans_ok(nodes, adj, byp, o, b, s, tc) && c == entry_cost(
                        prevrow[b],
                    ) + tc
            },
            None => true,
        }
}

proof fn lemma_relax_from(
    row: Seq<Option<(int, int)>>,
    nodes: Seq<Repeater>,
    adj: Seq<Seq<(usize, i64)>>,
    byp: Seq<Seq<usize>>,
    prevrow: Seq<Option<(int, int)>>,
    o: u8,
    s: int,
    pred: int,
    tc: int,
)
    requires
        entries_from(row, nodes, adj, byp, prevrow, o),
        0 <= s < row.len(),
        0 <= pred < prevrow.len(),
        prevrow[pred] is Some,
        trans_ok(nodes, adj, byp, o, pred, s, tc),
    ensures
        entries_from(
            spec_relax(row, s, entry_cost(prevrow[pred]) + tc, pred),
            nodes,
            adj,
            byp,
            prevrow,
            o,
        ),
{
    let cand = entry_cost(prevrow[pred]) + tc;
    let new = spec_relax(row, s, cand, pred);
    assert forall|s2: int| 0 <= s2 < new.len() implies match #[trigger] new[s2] {
        Some((c, b)) => {
            &&& 0 <= b < prevrow.len()
            &&& prevrow[b] is Some
            &&& exists|tc2: int|
                #[trigger] trans_ok(nodes, adj, byp, o, b, s2, tc2) && c == entry_cost(prevrow[b])
                    + tc2
        },
        None => true,
    } by {
        if new[s2] is Some {
            if new[s2] != row[s2] {
                assert(s2 == s && new[s2] == Some((cand, pred)));
                assert(trans_ok(nodes, adj, byp, o, pred, s, tc) && cand == entry_cost(
                    prevrow[pred],
                ) + tc);
            }
        }
    }
}

proof fn lemma_relax_adj_from(
    row: Seq<Option<(int, int)>>,
    nodes: Seq<Repeater>,
    adj: Seq<Seq<(usize, i64)>>,
    byp: Seq<Seq<usize>>,
    prevrow: Seq<Option<(int, int)>>,
    o: u8,
    sp: int,
    upto: int,
)
    requires
        entries_from(row, nodes, adj, byp, prevrow, o),
        row.len() == nodes.len() + 1,
        prevrow.len() == nodes.len() + 1,
        0 <= sp < nodes.len(),
        prevrow[sp] is Some,
        0 <= upto <= adj[sp].len(),
        forall|k: int| 0 <= k < adj[sp].len() ==> (#[trigger] adj[sp][k]).0 < nodes.len(),
    ensures
        entries_from(
            spec_relax_adj(row, nodes, adj[sp], entry_cost(prevrow[sp]), o, sp, upto),
            nodes,
            adj,
            byp,
            prevrow,
            o,
        ),
    decreases upto,
{
    let pc = entry_cost(prevrow[sp]);
    if upto > 0 {
        lemma_relax_adj_from(row, nodes, adj, byp, prevrow, o, sp, upto - 1);
        let prev = spec_relax_adj(row, nodes, adj[sp], pc, o, sp, upto - 1);
        lemma_relax_adj_improves(row, nodes, adj[sp], pc, o, sp, upto - 1);
        let (j, c) = adj[sp][upto - 1];
        if spec_prefix_at(nodes, j as int) == o {
            assert(trans_ok(nodes, adj, byp, o, sp, j as int, c as int)) by {
                assert((adj[sp][upto - 1]).0 == j as usize && adj[sp][upto - 1].1 == c);
            }
            lemma_relax_from(prev, nodes, adj, byp, prevrow, o, j as int, sp, c as int);
        }
    }
}

proof fn lemma_relax_byp_from(
    row: Seq<Option<(int, int)>>,
    nodes: Seq<Repeater>,
    adj: Seq<Seq<(usize, i64)>>,
    byp: Seq<Seq<usize>>,
    prevrow: Seq<Option<(int, int)>>,
    o: u8,
    upto: int,
)
    requires
        entries_from(row, nodes, adj, byp, prevrow, o),
        row.len() == nodes.len() + 1,
        prevrow.len() == nodes.len() + 1,
        nodes.len() < 0xFFFF_FFFF,
        prevrow[nodes.len() as int] is Some,
        0 <= upto <= byp[o as int].len(),
        forall|k: int|
            0 <= k < byp[o as int].len() ==> (#[trigger] byp[o as int][k]) < nodes.len(),
    ensures
        entries_from(
            spec_relax_byp(
                row,
                byp[o as int],
                entry_cost(prevrow[nodes.len() as int]),
                nodes.len() as int,
                upto,
            ),
            nodes,
            adj,
            byp,
            prevrow,
            o,
        ),
    decreases upto,
{
    let n = nodes.len() as int;
    let pc = entry_cost(prevrow[n]);
    if upto > 0 {
        lemma_relax_byp_from(row, nodes, adj, byp, prevrow, o, upto - 1);
        let prev = spec_relax_byp(row, byp[o as int], pc, n, upto - 1);
        lemma_relax_byp_improves(row, byp[o as int], pc, n, upto - 1);
        let j = byp[o as int][upto - 1];
        assert(byp[o as int].contains(j));
        assert(trans_ok(nodes, adj, byp, o, n, j as int, COST_UNKNOWN_TO_KNOWN_MICRO as int));
        lemma_relax_from(
            prev,
            nodes,
            adj,
            byp,
            prevrow,
            o,
            j as int,
            n,
            COST_UNKNOWN_TO_KNOWN_MICRO as int,
        );
    }
}

proof fn lemma_step_upto_from(
    nodes: Seq<Repeater>,
    adj: Seq<Seq<(usize, i64)>>,
    byp: Seq<Seq<usize>>,
    prevrow: Seq<Option<(int, int)>>,
    o: u8,
    upto: int,
)
    requires
        graph_inv(nodes, adj, byp),
        prevrow.len() == nodes.len() + 1,
        0 <= upto <= prevrow.len(),
    ensures
        entries_from(
            spec_step_upto(nodes, adj, byp, prevrow, o, upto),
            nodes,
            adj,
            byp,
            prevrow,
            o,
        ),
    decreases upto,
{
    let n = nodes.len() as int;
    if upto > 0 {
        lemma_step_upto_from(nodes, adj, byp, prevrow, o, upto - 1);
        lemma_step_upto_len(nodes, adj, byp, prevrow, o, upto - 1);
        let row = spec_step_upto(nodes, adj, byp, prevrow, o, upto - 1);
        let sp = upto - 1;
        match prevrow[sp] {
            None => {},
            Some((pc0, b0)) => {
                let pc = entry_cost(prevrow[sp]);
                if sp < n {
                    lemma_relax_adj_from(row, nodes, adj, byp, prevrow, o, sp, adj[sp].len() as int);
                    let r1 = spec_relax_adj(row, nodes, adj[sp], pc, o, sp, adj[sp].len() as int);
                    lemma_relax_adj_improves(row, nodes, adj[sp], pc, o, sp, adj[sp].len() as int);
                    assert(trans_ok(nodes, adj, byp, o, sp, n, COST_KNOWN_TO_UNKNOWN_MICRO as int));
                    lemma_relax_from(
                        r1,
                        nodes,
                        adj,
                        byp,
                        prevrow,
                        o,
                        n,
                        sp,
                        COST_KNOWN_TO_UNKNOWN_MICRO as int,
                    );
                } else {
                    lemma_prefix_row_props(nodes, o as int);
                    lemma_relax_byp_from(row, nodes, adj, byp, prevrow, o, byp[o as int].len() as int);
                    let r1 = spec_relax_byp(row, byp[o as int], pc, n, byp[o as int].len() as int);
                    lemma_relax_byp_improves(row, byp[o as int], pc, n, byp[o as int].len() as int);
                    assert(trans_ok(
                        nodes,
                        adj,
                        byp,
                        o,
                        n,
                        n,
                        COST_UNKNOWN_TO_UNKNOWN_MICRO as int,
                    ));
                    lemma_relax_from(
                        r1,
                        nodes,
                        adj,
                        byp,
                        prevrow,
                        o,
                        n,
                        n,
                        COST_UNKNOWN_TO_UNKNOWN_MICRO as int,
                    );
                }
            },
        }
    }
}

/// Provenance of the forward recursion: with the minimality of
/// `lemma_step_min_known` and `lemma_step_min_unknown`, each entry of the
/// row at step `t` is exactly the least cost of reaching its state by an
/// admissible transition out of the previous row.
pub proof fn lemma_row_provenance(
    nodes: Seq<Repeater>,
    adj: Seq<Seq<(usize, i64)>>,
    byp: Seq<Seq<usize>>,
    obs: Seq<u8>,
    t: int,
)
    requires
        graph_inv(nodes, adj, byp),
        1 <= t < obs.len(),
    ensures
        entries_from(
            spec_row(nodes, adj, byp, obs, t),
            nodes,
            adj,
            byp,
            spec_row(nodes, adj, byp, obs, t - 1),
            obs[t],
        ),
{
    lemma_row_ok(nodes, adj, byp, obs, t - 1);
    lemma_step_upto_from(
        nodes,
        adj,
        byp,
        spec_row(nodes, adj, byp, obs, t - 1),
        obs[t],
        nodes.len() + 1 as int,
    );
}

/// An admissible decoding of the observations: one state per step, each
/// within the state space, the first consistent with the first
/// observation, and every later one reached from its predecessor by an
/// admissible transition at the listed cost.
pub open spec fn seq_admissible(
    nodes: Seq<Repeater>,
    adj: Seq<Seq<(usize, i64)>>,
    byp: Seq<Seq<usize>>,
    obs: Seq<u8>,
    q: Seq<int>,
    tcs: Seq<int>,
) -> bool {
    &&& q.len() == obs.len()
    &&& tcs.len() == obs.len()
    &&& forall|t: int| 0 <= t < q.len() ==> 0 <= #[trigger] q[t] <= nodes.len()
    &&& (q[0] == nodes.len() || spec_prefix_at(nodes, q[0]) == obs[0])
    &&& forall|t: int|
        1 <= t < q.len() ==> trans_ok(nodes, adj, byp, obs[t], q[t - 1], q[t], #[trigger] tcs[t])
}

/// The accumulated cost of an admissible decoding up to step `t`: the
/// grounded-start bonus or the zero Unknown start, plus the transition
/// costs taken.
pub open spec fn seq_cost(nodes: Seq<Repeater>, q: Seq<int>, tcs: Seq<int>, t: int) -> int
    decreases t,
{
    if t <= 0 {
        if q[0] == nodes.len() {
            0
        } else {
            COST_START_KNOWN_MICRO as int
        }
    } else {
        seq_cost(nodes, q, tcs, t - 1) + tcs[t]
    }
}

proof fn lemma_best_sound(row: Seq<Option<(int, int)>>, upto: int)
    requires
        0 <= upto <= row.len(),
    ensures
        match spec_best_upto(row, upto) {
            Some((sb, cb)) => 0 <= sb < upto && row[sb] is Some && entry_cost(row[sb]) == cb,
            None => true,
        },
    decreases upto,
{
    if upto > 0 {
        lemma_best_sound(row, upto - 1);
    }
}

proof fn lemma_best_min(row: Seq<Option<(int, int)>>, upto: int, s: int)
    requires
        0 <= s < upto <= row.len(),
        row[s] is Some,
    ensures
        spec_best_upto(row, upto) is Some,
        entry_cost(row[s]) >= match spec_best_upto(row, upto) {
            Some((sb, cb)) => cb,
            None => 0,
        },
    decreases upto,
{
    if s < upto - 1 {
        lemma_best_min(row, upto - 1, s);
    }
}

/// Every admissible decoding reaches, at each step, a state the trellis
/// reaches too, and at no less cost: the forward recursion is a running
/// minimum over admissible decodings.
pub proof fn lemma_row_entry_minimal(
    nodes: Seq<Repeater>,
    adj: Seq<Seq<(usize, i64)>>,
    byp: Seq<Seq<usize>>,
    obs: Seq<u8>,
    q: Seq<int>,
    tcs: Seq<int>,
    t: int,
)
    requires
        graph_inv(nodes, adj, byp),
        seq_admissible(nodes, adj, byp, obs, q, tcs),
        0 <= t < obs.len(),
    ensures
        spec_row(nodes, adj, byp, obs, t)[q[t]] is Some,
        entry_cost(spec_row(nodes, adj, byp, obs, t)[q[t]]) <= seq_cost(nodes, q, tcs, t),
    decreases t,
{
    let n = nodes.len() as int;
    if t == 0 {
        assert(spec_row(nodes, adj, byp, obs, 0) == spec_init_row(nodes, obs[0]));
    } else {
        lemma_row_entry_minimal(nodes, adj, byp, obs, q, tcs, t - 1);
        let prevrow = spec_row(nodes, adj, byp, obs, t - 1);
        lemma_row_ok(nodes, adj, byp, obs, t - 1);
        let sp = q[t - 1];
        let st = q[t];
        let tc = tcs[t];
        assert(trans_ok(nodes, adj, byp, obs[t], sp, st, tc));
        if sp < n && st < n {
            let k = choose|k: int|
                0 <= k < adj[sp].len() && (#[trigger] adj[sp][k]).0 == st && adj[sp][k].1 == tc;
            lemma_step_min_known(nodes, adj, byp, prevrow, obs[t], sp, k);
        } else if sp < n && st == n {
            lemma_step_min_unknown(nodes, adj, byp, prevrow, obs[t], sp);
        } else if sp == n && st < n {
            lemma_step_min_unknown(nodes, adj, byp, prevrow, obs[t], sp);
            let k = choose|k: int|
                0 <= k < byp[obs[t] as int].len() && byp[obs[t] as int][k] == st as usize;
            assert(spec_step_row(nodes, adj, byp, prevrow, obs[t])[byp[obs[t] as int][k] as int]
                is Some);
        } else {
            lemma_step_min_unknown(nodes, adj, byp, prevrow, obs[t], sp);
        }
    }
}

/// No admissible decoding costs less than the state the decoder finishes
/// in: the lower-bound half of the decoder's optimality.
pub proof fn lemma_decode_minimal(
    nodes: Seq<Repeater>,
    adj: Seq<Seq<(usize, i64)>>,
    byp: Seq<Seq<usize>>,
    obs: Seq<u8>,
    q: Seq<int>,
    tcs: Seq<int>,
)
    requires
        graph_inv(nodes, adj, byp),
        obs.len() >= 1,
        seq_admissible(nodes, adj, byp, obs, q, tcs),
    ensures
        spec_row(nodes, adj, byp, obs, obs.len() - 1)[spec_final_state(
            nodes,
            adj,
            byp,
            obs,
        )] is Some,
        entry_cost(
            spec_row(nodes, adj, byp, obs, obs.len() - 1)[spec_final_state(nodes, adj, byp, obs)],
        ) <= seq_cost(nodes, q, tcs, obs.len() - 1),
{
    let last = obs.len() - 1;
    let row = spec_row(nodes, adj, byp, obs, last);
    lemma_row_ok(nodes, adj, byp, obs, last);
    lemma_row_entry_minimal(nodes, adj, byp, obs, q, tcs, last);
    lemma_best_sound(row, nodes.len() + 1 as int);
    lemma_best_min(row, nodes.len() + 1 as int, q[last]);
}

/// The state sequence the backtrack walks to reach state `s` at step `t`.
pub open spec fn spec_bt_states(
    nodes: Seq<Repeater>,
    adj: Seq<Seq<(usize, i64)>>,
    byp: Seq<Seq<usize>>,
    obs: Seq<u8>,
    t: int,
    s: int,
) -> Seq<int>
    decreases t,
{
    if t <= 0 {
        seq![s]
    } else {
        spec_bt_states(
            nodes,
            adj,
            byp,
            obs,
            t - 1,
            entry_pred(spec_row(nodes, adj, byp, obs, t)[s]),
        ).push(s)
    }
}

/// The transition costs along the backtracked sequence: each step costs
/// the difference of the two trellis entries it joins.
pub open spec fn spec_bt_costs(
    nodes: Seq<Repeater>,
    adj: Seq<Seq<(usize, i64)>>,
    byp: Seq<Seq<usize>>,
    obs: Seq<u8>,
    t: int,
    s: int,
) -> Seq<int>
    decreases t,
{
    if t <= 0 {
        seq![0]
    } else {
        let b = entry_pred(spec_row(nodes, adj, byp, obs, t)[s]);
        spec_bt_costs(nodes, adj, byp, obs, t - 1, b).push(
            entry_cost(spec_row(nodes, adj, byp, obs, t)[s]) - entry_cost(
                spec_row(nodes, adj, byp, obs, t - 1)[b],
            ),
        )
    }
}

proof fn lemma_seq_cost_prefix(
    nodes: Seq<Repeater>,
    q1: Seq<int>,
    tcs1: Seq<int>,
    q2: Seq<int>,
    tcs2: Seq<int>,
    t: int,
)
    requires
        0 <= t,
        q1.len() >= 1,
        q2.len() >= 1,
        q1[0] == q2[0],
        forall|u: int| 1 <= u <= t ==> #[trigger] tcs1[u] == tcs2[u],
    ensures
        seq_cost(nodes, q1, tcs1, t) == seq_cost(nodes, q2, tcs2, t),
    decreases t,
{
    if t > 0 {
        lemma_seq_cost_prefix(nodes, q1, tcs1, q2, tcs2, t - 1);
    }
}

/// The backtracked sequence is an admissible decoding of the first `t + 1`
/// observations, ends in `s`, and costs exactly the trellis entry of `s`.
pub proof fn lemma_backtrack_admissible(
    nodes: Seq<Repeater>,
    adj: Seq<Seq<(usize, i64)>>,
    byp: Seq<Seq<usize>>,
    obs: Seq<u8>,
    t: int,
    s: int,
)
    requires
        graph_inv(nodes, adj, byp),
        0 <= t < obs.len(),
        0 <= s <= nodes.len(),
        spec_row(nodes, adj, byp, obs, t)[s] is Some,
    ensures
        spec_bt_states(nodes, adj, byp, obs, t, s).len() == t + 1,
        spec_bt_costs(nodes, adj, byp, obs, t, s).len() == t + 1,
        spec_bt_states(nodes, adj, byp, obs, t, s)[t] == s,
        forall|u: int|
            0 <= u <= t ==> 0 <= #[trigger] spec_bt_states(nodes, adj, byp, obs, t, s)[u]
                <= nodes.len(),
        (spec_bt_states(nodes, adj, byp, obs, t, s)[0] == nodes.len() || spec_prefix_at(
            nodes,
            spec_bt_states(nodes, adj, byp, obs, t, s)[0],
        ) == obs[0]),
        forall|u: int|
            1 <= u <= t ==> trans_ok(
                nodes,
                adj,
                byp,
                obs[u],
                spec_bt_states(nodes, adj, byp, obs, t, s)[u - 1],
                spec_bt_states(nodes, adj, byp, obs, t, s)[u],
                #[trigger] spec_bt_costs(nodes, adj, byp, obs, t, s)[u],
            ),
        seq_cost(
            nodes,
            spec_bt_states(nodes, adj, byp, obs, t, s),
            spec_bt_costs(nodes, adj, byp, obs, t, s),
            t,
        ) == entry_cost(spec_row(nodes, adj, byp, obs, t)[s]),
    decreases t,
{
    let n = nodes.len() as int;
    let q = spec_bt_states(nodes, adj, byp, obs, t, s);
    let tcs = spec_bt_costs(nodes, adj, byp, obs, t, s);
    lemma_row_ok(nodes, adj, byp, obs, t);
    if t == 0 {
        assert(spec_row(nodes, adj, byp, obs, 0) == spec_init_row(nodes, obs[0]));
        assert(seq_cost(nodes, q, tcs, 0) == entry_cost(spec_row(nodes, adj, byp, obs, 0)[s]));
    } else {
        let b = entry_pred(spec_row(nodes, adj, byp, obs, t)[s]);
        lemma_row_provenance(nodes, adj, byp, obs, t);
        assert(spec_row(nodes, adj, byp, obs, t - 1)[b] is Some);
        lemma_backtrack_admissible(nodes, adj, byp, obs, t - 1, b);
        let q0 = spec_bt_states(nodes, adj, byp, obs, t - 1, b);
        let tcs0 = spec_bt_costs(nodes, adj, byp, obs, t - 1, b);
        assert(q == q0.push(s) && tcs.len() == t + 1);
        let c = entry_cost(spec_row(nodes, adj, byp, obs, t)[s]);
        let cb = entry_cost(spec_row(nodes, adj, byp, obs, t - 1)[b]);
        let tc = choose|tc: int|
            #[trigger] trans_ok(nodes, adj, byp, obs[t], b, s, tc) && c == cb + tc;
        assert(tcs[t as int] == c - cb == tc);
        assert forall|u: int| 1 <= u <= t implies trans_ok(
            nodes,
            adj,
            byp,
            obs[u],
            q[u - 1],
            q[u],
            #[trigger] tcs[u],
        ) by {
            if u < t {
                assert(q[u - 1] == q0[u - 1] && q[u] == q0[u] && tcs[u] == tcs0[u]);
            } else {
                assert(q[t - 1] == q0[t - 1] == b && q[t as int] == s);
            }
        }
        lemma_seq_cost_prefix(nodes, q, tcs, q0, tcs0, t - 1);
    }
}

/// The decoder's final cost is attained: the backtracked sequence is an
/// admissible decoding of the whole observation stream that ends in the
/// decoder's final state at exactly that cost. With `lemma_decode_minimal`
/// this makes the decoded sequence a minimum-cost admissible decoding.
pub proof fn lemma_decode_achieves(
    nodes: Seq<Repeater>,
    adj: Seq<Seq<(usize, i64)>>,
    byp: Seq<Seq<usize>>,
    obs: Seq<u8>,
)
    requires
        graph_inv(nodes, adj, byp),
        obs.len() >= 1,
    ensures
        ({
            let last = obs.len() - 1;
            let fs = spec_final_state(nodes, adj, byp, obs);
            let q = spec_bt_states(nodes, adj, byp, obs, last, fs);
            let tcs = spec_bt_costs(nodes, adj, byp, obs, last, fs);
            &&& seq_admissible(nodes, adj, byp, obs, q, tcs)
            &&& q[last] == fs
            &&& seq_cost(nodes, q, tcs, last) == entry_cost(
                spec_row(nodes, adj, byp, obs, last)[fs],
            )
        }),
{
    let last = obs.len() - 1;
    let row = spec_row(nodes, adj, byp, obs, last);
    lemma_row_ok(nodes, adj, byp, obs, last);
    lemma_best_sound(row, nodes.len() + 1 as int);
    lemma_best_min(row, nodes.len() + 1 as int, nodes.len() as int);
    let fs = spec_final_state(nodes, adj, byp, obs);
    assert(row[fs] is Some);
    lemma_backtrack_admissible(nodes, adj, byp, obs, last, fs);
}

/// The decoded path is the tag-by-tag image of the backtracked state
/// sequence: what `decode_path` returns is the minimum-cost admissible
/// decoding, node by node.
pub proof fn lemma_backtrack_matches_states(
    nodes: Seq<Repeater>,
    adj: Seq<Seq<(usize, i64)>>,
    byp: Seq<Seq<usize>>,
    obs: Seq<u8>,
    t: int,
    s: int,
)
    requires
        0 <= t < obs.len(),
    ensures
        spec_backtrack(nodes, adj, byp, obs, t, s).len() == t + 1,
        spec_bt_states(nodes, adj, byp, obs, t, s).len() == t + 1,
        forall|u: int|
            0 <= u <= t ==> #[trigger] spec_backtrack(nodes, adj, byp, obs, t, s)[u]
                == spec_state_node(
                spec_bt_states(nodes, adj, byp, obs, t, s)[u],
                nodes.len() as int,
                obs[u],
            ),
    decreases t,
{
    lemma_backtrack_len(nodes, adj, byp, obs, t, s);
    if t > 0 {
        let b = entry_pred(spec_row(nodes, adj, byp, obs, t)[s]);
        lemma_backtrack_matches_states(nodes, adj, byp, obs, t - 1, b);
    }
}

/// A transition into a Known state lands on a repeater carrying the
/// decoded observation.
proof fn lemma_trans_known_prefix(
    nodes: Seq<Repeater>,
    adj: Seq<Seq<(usize, i64)>>,
    byp: Seq<Seq<usize>>,
    o: u8,
    sp: int,
    s: int,
    tc: int,
)
    requires
        graph_inv(nodes, adj, byp),
        trans_ok(nodes, adj, byp, o, sp, s, tc),
        0 <= s < nodes.len(),
    ensures
        spec_prefix_at(nodes, s) == o,
{
    if sp == nodes.len() as int {
        lemma_prefix_row_props(nodes, o as int);
        let k = choose|k: int|
            0 <= k < byp[o as int].len() && byp[o as int][k] == s as usize;
    }
}

/// The fixture hypothesis of the round trip: a run of Known repeaters
/// whose prefixes are the observations, each the only repeater carrying
/// its observation, joined by adjacency links whose listed costs all
/// undercut the unknown-state penalties.
pub open spec fn round_trip_hyp(
    nodes: Seq<Repeater>,
    adj: Seq<Seq<(usize, i64)>>,
    byp: Seq<Seq<usize>>,
    obs: Seq<u8>,
    p: Seq<int>,
    tcs: Seq<int>,
) -> bool {
    &&& obs.len() >= 1
    &&& p.len() == obs.len()
    &&& tcs.len() == obs.len()
    &&& forall|t: int| 0 <= t < p.len() ==> 0 <= #[trigger] p[t] < nodes.len()
    &&& forall|t: int| 0 <= t < p.len() ==> spec_prefix_at(nodes, #[trigger] p[t]) == obs[t]
    &&& forall|t: int, j: int|
        #![trigger p[t], spec_prefix_at(nodes, j)]
        0 <= t < p.len() && 0 <= j < nodes.len() && spec_prefix_at(nodes, j) == obs[t] ==> j
            == p[t]
    &&& forall|t: int|
        1 <= t < p.len() ==> exists|k: int|
            0 <= k < adj[#[trigger] p[t - 1]].len() && (#[trigger] adj[p[t - 1]][k]).0 as int == p[
                t
            ] && adj[p[t - 1]][k].1 as int == tcs[t]
    &&& forall|t: int, k: int|
        #![trigger adj[p[t - 1]][k]]
        1 <= t < p.len() && 0 <= k < adj[p[t - 1]].len() && adj[p[t - 1]][k].0 as int == p[t]
            ==> adj[p[t - 1]][k].1 as int == tcs[t]
    &&& forall|t: int| 1 <= t < p.len() ==> 0 <= #[trigger] tcs[t] < COST_KNOWN_TO_UNKNOWN_MICRO
}

/// Under the fixture hypothesis the ground-truth run costs no more than
/// any admissible decoding of the same observations, and strictly less
/// than any different one.
proof fn lemma_truth_dominates(
    nodes: Seq<Repeater>,
    adj: Seq<Seq<(usize, i64)>>,
    byp: Seq<Seq<usize>>,
    obs: Seq<u8>,
    p: Seq<int>,
    tcs: Seq<int>,
    q: Seq<int>,
    qt: Seq<int>,
    t: int,
)
    requires
        graph_inv(nodes, adj, byp),
        round_trip_hyp(nodes, adj, byp, obs, p, tcs),
        seq_admissible(nodes, adj, byp, obs, q, qt),
        0 <= t < obs.len(),
    ensures
        seq_cost(nodes, p, tcs, t) <= seq_cost(nodes, q, qt, t),
        q.take(t + 1) != p.take(t + 1) ==> seq_cost(nodes, p, tcs, t) < seq_cost(nodes, q, qt, t),
    decreases t,
{
    let n = nodes.len() as int;
    if t == 0 {
        if q[0] != n {
            assert(spec_prefix_at(nodes, q[0]) == obs[0]);
            assert(q[0] == p[0]);
            assert(q.take(1) =~= p.take(1));
        } else {
            assert(q.take(1)[0] != p.take(1)[0]);
        }
    } else {
        lemma_truth_dominates(nodes, adj, byp, obs, p, tcs, q, qt, t - 1);
        assert(trans_ok(nodes, adj, byp, obs[t], q[t - 1], q[t], qt[t]));
        if q[t - 1] < n && q[t] < n {
            // both Known: by uniqueness the decoding walks the truth here
            lemma_trans_known_prefix(nodes, adj, byp, obs[t], q[t - 1], q[t], qt[t]);
            assert(q[t] == p[t]);
            if t - 1 == 0 {
                assert(q[0] == p[0]);
            } else {
                assert(trans_ok(nodes, adj, byp, obs[t - 1], q[t - 2], q[t - 1], qt[t - 1]));
                lemma_trans_known_prefix(
                    nodes,
                    adj,
                    byp,
                    obs[t - 1],
                    q[t - 2],
                    q[t - 1],
                    qt[t - 1],
                );
                assert(q[t - 1] == p[t - 1]);
            }
            let k = choose|k: int|
                0 <= k < adj[p[t - 1]].len() && (#[trigger] adj[p[t - 1]][k]).0 as int == q[t]
                    && adj[p[t - 1]][k].1 as int == qt[t];
            assert(qt[t] == tcs[t]);
            if q.take(t + 1) != p.take(t + 1) && q.take(t) == p.take(t) {
                assert forall|tt: int|
                    #![trigger q.take(t + 1)[tt]]
                    0 <= tt < t + 1 implies q.take(t + 1)[tt] == p.take(t + 1)[tt] by {
                    if tt < t {
                        assert(q.take(t)[tt] == p.take(t)[tt]);
                    }
                }
                assert(q.take(t + 1) =~= p.take(t + 1));
            }
        } else {
            // an Unknown move costs at least the unknown penalties, above
            // every truth link
            assert(qt[t] >= COST_KNOWN_TO_UNKNOWN_MICRO as int);
            assert(tcs[t] < qt[t]);
            if q[t] < n {
                assert(q.take(t + 1)[t - 1] == q[t - 1] && p.take(t + 1)[t - 1] == p[t - 1]);
                assert(q[t - 1] == n && p[t - 1] < n);
                assert(q.take(t + 1) != p.take(t + 1));
            } else {
                assert(q.take(t + 1)[t] == q[t] && p.take(t + 1)[t] == p[t]);
                assert(q.take(t + 1) != p.take(t + 1));
            }
        }
    }
}

/// The round trip of a ground-truth run: when every observation admits
/// exactly one Known candidate and the run's link costs undercut the
/// unknown-state penalties, the decoder returns exactly the run. An input
/// outside the hypothesis can decode elsewhere: a truth link costing more
/// than the unknown penalties loses to a hop through the Unknown state.
pub proof fn lemma_decode_round_trip(
    nodes: Seq<Repeater>,
    adj: Seq<Seq<(usize, i64)>>,
    byp: Seq<Seq<usize>>,
    obs: Seq<u8>,
    p: Seq<int>,
    tcs: Seq<int>,
)
    requires
        graph_inv(nodes, adj, byp),
        round_trip_hyp(nodes, adj, byp, obs, p, tcs),
    ensures
        spec_decode(nodes, adj, byp, obs) =~= Seq::new(
            obs.len(),
            |t: int| PathNode::Known(p[t] as u32),
        ),
{
    let n = nodes.len() as int;
    let last = obs.len() - 1;
    assert forall|t: int| 1 <= t < p.len() implies trans_ok(
        nodes,
        adj,
        byp,
        obs[t],
        p[t - 1],
        p[t],
        #[trigger] tcs[t],
    ) by {
        let k = choose|k: int|
            0 <= k < adj[p[t - 1]].len() && (#[trigger] adj[p[t - 1]][k]).0 as int == p[t]
                && adj[p[t - 1]][k].1 as int == tcs[t];
    }
    assert(seq_admissible(nodes, adj, byp, obs, p, tcs));
    lemma_decode_achieves(nodes, adj, byp, obs);
    let fs = spec_final_state(nodes, adj, byp, obs);
    let bt = spec_bt_states(nodes, adj, byp, obs, last, fs);
    let btc = spec_bt_costs(nodes, adj, byp, obs, last, fs);
    lemma_decode_minimal(nodes, adj, byp, obs, p, tcs);
    lemma_truth_dominates(nodes, adj, byp, obs, p, tcs, bt, btc, last);
    assert(seq_cost(nodes, bt, btc, last) <= seq_cost(nodes, p, tcs, last));
    if bt.take(last + 1) != p.take(last + 1) {
        assert(seq_cost(nodes, p, tcs, last) < seq_cost(nodes, bt, btc, last));
        assert(false);
    }
    assert(bt.take(last + 1) =~= bt);
    assert(p.take(last + 1) =~= p);
    lemma_backtrack_matches_states(nodes, adj, byp, obs, last, fs);
    assert forall|u: int| 0 <= u < obs.len() implies #[trigger] spec_decode(
        nodes,
        adj,
        byp,
        obs,
    )[u] == PathNode::Known(p[u] as u32) by {
        assert(spec_backtrack(nodes, adj, byp, obs, last, fs)[u] == spec_state_node(
            bt[u],
            n,
            obs[u],
        ));
        assert(bt[u] == p[u] && p[u] < n);
    }
    lemma_backtrack_len(nodes, adj, byp, obs, last, fs);
}

} // verus!
