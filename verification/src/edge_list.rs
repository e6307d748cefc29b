//! Minimum-cost maximum flow on a network kept as one list of edges (each
//! arc at an even index, its reverse right after it) with per-node lists of
//! edge indices; shortest paths by SPFA.
use vstd::prelude::*;
use std::collections::VecDeque;

use crate::chains::{anc, lemma_cycle_not_rooted, lemma_stuck_not_rooted, parents_rooted, rooted, up};
use crate::decompose::{Leg, decomposes, flow_paths, paths_of};
use crate::cut::{feasible, net_of};
use crate::optimal::{cost_of, lemma_least_cost};
use crate::search::{lemma_potential_no_negative_cycle, pot_bound, potential_ok, pv, reduced};
use crate::network::{
    Network, Step, is_edge, is_walk, lemma_distinct_push, lemma_empty_walk, lemma_reachable_self, lemma_walk_push, node_at,
    no_negative_cycle_from, reachable, residual, walk_cost, walk_end,
};
use crate::relax::{
    lemma_scan_done, lemma_scan_facts, lemma_scan_improve, lemma_scan_keep, lemma_scan_node_done, lemma_scan_pop, lemma_scan_skip,
    lemma_scan_done_clean, lemma_scan_start, lemma_closed_walk, lemma_net_edge, lemma_walk_last, lo, net, next_phase, parents_ok, scan_inv,
    search_ctx, tree_tight,
};

verus! {

#[derive(Debug, Clone)]
pub struct Edge {
    pub from: usize,
    pub to: usize,
    pub capacity: i64,
    pub cost: i32,
    pub flow: i64,
}

/// The index of the edge paired with edge `k`.
pub open spec fn partner(k: int) -> int {
    if k % 2 == 0 {
        k + 1
    } else {
        k - 1
    }
}

/// Arcs and their reverses in pairs: the reverse runs the other way, has no
/// capacity, the negated cost and the negated flow; an arc's flow lies
/// between 0 and its capacity (or is 0 when the capacity is negative).
pub open spec fn pairs_ok(edges: Seq<Edge>, n: int) -> bool {
    &&& edges.len() % 2 == 0
    &&& forall|k: int| 0 <= k < edges.len() ==> #[trigger] edges[k].from < n && edges[k].to < n
    &&& forall|j: int|
        0 <= j < edges.len() / 2 ==> {
            let a = #[trigger] edges[2 * j];
            let b = edges[2 * j + 1];
            &&& b.from == a.to
            &&& b.to == a.from
            &&& b.capacity == 0
            &&& b.cost == -a.cost
            &&& b.flow == -a.flow
            &&& 0 <= a.flow
            &&& (a.flow <= a.capacity || a.flow == 0)
        }
}

/// `graph[u]` lists indices of edges leaving `u`, and every edge is listed
/// under its tail.
pub open spec fn adjacency_ok(edges: Seq<Edge>, graph: Seq<Seq<usize>>, n: int) -> bool {
    &&& graph.len() == n
    &&& forall|u: int, j: int|
        0 <= u < n && 0 <= j < graph[u].len() ==> #[trigger] graph[u][j] < edges.len() && edges[graph[u][j] as int].from
            == u
    &&& forall|k: int| 0 <= k < edges.len() ==> #[trigger] listed(edges, graph, k)
}

/// Edge `k` is listed under its tail.
pub open spec fn listed(edges: Seq<Edge>, graph: Seq<Seq<usize>>, k: int) -> bool {
    exists|j: int| 0 <= j < graph[edges[k].from as int].len() && graph[edges[k].from as int][j] == k
}

/// The arcs (even positions) in order.
pub open spec fn forward_edges(edges: Seq<Edge>) -> Seq<Edge> {
    Seq::new(edges.len() / 2, |j: int| edges[2 * j])
}

/// The arcs of `fwd` that carry flow, in order.
pub open spec fn flowing(fwd: Seq<Edge>) -> Seq<Edge>
    decreases fwd.len(),
{
    if fwd.len() == 0 {
        Seq::empty()
    } else if fwd.last().flow > 0 {
        flowing(fwd.drop_last()).push(fwd.last())
    } else {
        flowing(fwd.drop_last())
    }
}

/// `get_all_edges` lists every arc, and only arcs, in the order they were
/// added: one entry per pair of edges, entry `j` being edge `2 j` with its
/// ends, capacity, cost and flow.
pub proof fn lemma_all_edges(edges: Seq<Edge>)
    ensures
        forward_edges(edges).len() == edges.len() / 2,
        forall|j: int|
            0 <= j < edges.len() / 2 ==> {
                let e = #[trigger] forward_edges(edges)[j];
                &&& e.from == edges[2 * j].from
                &&& e.to == edges[2 * j].to
                &&& e.capacity == edges[2 * j].capacity
                &&& e.cost == edges[2 * j].cost
                &&& e.flow == edges[2 * j].flow
            },
{
}

/// The positions of the arcs of `fwd` that carry flow, in order.
proof fn lemma_flowing_positions(fwd: Seq<Edge>) -> (idx: Seq<int>)
    ensures
        idx.len() == flowing(fwd).len(),
        forall|j: int| 0 <= j < idx.len() ==> 0 <= #[trigger] idx[j] < fwd.len() && flowing(fwd)[j] == fwd[idx[j]],
        forall|i: int, j: int| 0 <= i < j < idx.len() ==> idx[i] < idx[j],
        forall|k: int| 0 <= k < fwd.len() ==> (#[trigger] fwd[k].flow > 0 <==> idx.contains(k)),
    decreases fwd.len(),
{
    if fwd.len() == 0 {
        Seq::empty()
    } else {
        let f0 = fwd.drop_last();
        let i0 = lemma_flowing_positions(f0);
        let l = fwd.len() - 1;
        let idx = if fwd.last().flow > 0 {
            i0.push(l)
        } else {
            i0
        };
        assert forall|j: int| 0 <= j < idx.len() implies 0 <= #[trigger] idx[j] < fwd.len() && flowing(fwd)[j] == fwd[idx[j]] by {
            if j < i0.len() {
                assert(idx[j] == i0[j]);
                assert(fwd[i0[j]] == f0[i0[j]]);
            }
        }
        assert forall|k: int| 0 <= k < fwd.len() implies (#[trigger] fwd[k].flow > 0 <==> idx.contains(k)) by {
            if k < l {
                assert(fwd[k] == f0[k]);
                assert(f0[k].flow > 0 <==> i0.contains(k));
                if i0.contains(k) {
                    let j = choose|j: int| 0 <= j < i0.len() && i0[j] == k;
                    assert(idx[j] == k);
                }
                if idx.contains(k) {
                    let j = choose|j: int| 0 <= j < idx.len() && idx[j] == k;
                    if j < i0.len() {
                        assert(i0[j] == k);
                    }
                }
            } else {
                if idx.contains(k) && fwd.last().flow <= 0 {
                    let j = choose|j: int| 0 <= j < idx.len() && idx[j] == k;
                    assert(i0[j] < f0.len());
                }
                if fwd.last().flow > 0 {
                    assert(idx[i0.len() as int] == k);
                }
            }
        }
        idx
    }
}

/// The arcs that `get_flow_edges` lists are exactly the arcs (edges at even
/// positions) whose flow is positive, each once and in the order of the
/// arcs: the `j`-th one listed is arc `idx[j]`, and arc `k` is listed if and
/// only if `edges[2 k].flow > 0`.
pub proof fn lemma_flow_edges(edges: Seq<Edge>) -> (idx: Seq<int>)
    ensures
        idx.len() == flowing(forward_edges(edges)).len(),
        forall|j: int|
            0 <= j < idx.len() ==> 0 <= #[trigger] idx[j] < edges.len() / 2 && flowing(forward_edges(edges))[j] == edges[2
                * idx[j]],
        forall|i: int, j: int| 0 <= i < j < idx.len() ==> idx[i] < idx[j],
        forall|k: int| 0 <= k < edges.len() / 2 ==> (#[trigger] edges[2 * k].flow > 0 <==> idx.contains(k)),
{
    let fwd = forward_edges(edges);
    let idx = lemma_flowing_positions(fwd);
    assert forall|k: int| 0 <= k < edges.len() / 2 implies (#[trigger] edges[2 * k].flow > 0 <==> idx.contains(k)) by {
        assert(fwd[k] == edges[2 * k]);
    }
    idx
}

/// Net flow out of `u`: the flows of all edges leaving `u` (a reverse edge
/// carries the negated flow of its arc).
pub open spec fn out_flow(edges: Seq<Edge>, u: int) -> int
    decreases edges.len(),
{
    if edges.len() == 0 {
        0
    } else {
        out_flow(edges.drop_last(), u) + if edges.last().from == u {
            edges.last().flow as int
        } else {
            0
        }
    }
}

/// Residual capacity on the edges leaving `u`.
pub open spec fn spare_from(edges: Seq<Edge>, u: int) -> int
    decreases edges.len(),
{
    if edges.len() == 0 {
        0
    } else {
        spare_from(edges.drop_last(), u) + if edges.last().from == u && edges.last().flow
            < edges.last().capacity {
            edges.last().capacity - edges.last().flow
        } else {
            0
        }
    }
}

/// Spare capacity on the edges that leave the node set `d` (node `x` is in
/// the set when `d[x]`).
pub open spec fn spare_across(edges: Seq<Edge>, d: Seq<bool>) -> int
    decreases edges.len(),
{
    if edges.len() == 0 {
        0
    } else {
        spare_across(edges.drop_last(), d) + if d[edges.last().from as int] && !d[edges.last().to as int]
            && edges.last().flow < edges.last().capacity {
            edges.last().capacity - edges.last().flow
        } else {
            0
        }
    }
}

/// Some set of the `n` nodes that holds `source` and not `sink` has at most
/// `b` spare capacity leaving it: no more than `b` further units can go from
/// `source` to `sink`.
pub open spec fn cut_within(edges: Seq<Edge>, n: int, source: int, sink: int, b: int) -> bool {
    exists|d: Seq<bool>| d.len() == n && d[source] && !d[sink] && #[trigger] spare_across(edges, d) <= b
}

/// Sum of flow times cost.
pub open spec fn flow_cost_sum(es: Seq<Edge>) -> int
    decreases es.len(),
{
    if es.len() == 0 {
        0
    } else {
        flow_cost_sum(es.drop_last()) + es.last().flow * es.last().cost
    }
}

/// Cost of the flow on the arcs.
pub open spec fn arc_cost(edges: Seq<Edge>) -> int {
    flow_cost_sum(forward_edges(edges))
}

/// Same edges (ends, capacities, costs), possibly different flows.
pub open spec fn same_edges(e1: Seq<Edge>, e2: Seq<Edge>) -> bool {
    &&& e1.len() == e2.len()
    &&& forall|k: int|
        0 <= k < e1.len() ==> {
            &&& (#[trigger] e1[k]).from == e2[k].from
            &&& e1[k].to == e2[k].to
            &&& e1[k].capacity == e2[k].capacity
            &&& e1[k].cost == e2[k].cost
        }
}

/// Sum over nodes of how many more times each may still enter the queue.
pub open spec fn slack(cnt: Seq<usize>, n: int) -> int
    decreases cnt.len(),
{
    if cnt.len() == 0 {
        0
    } else {
        slack(cnt.drop_last(), n) + (n + 1 - cnt.last())
    }
}

proof fn lemma_slack_update(cnt: Seq<usize>, n: int, v: int, x: usize)
    requires
        0 <= v < cnt.len(),
    ensures
        slack(cnt.update(v, x), n) == slack(cnt, n) - x + cnt[v],
    decreases cnt.len(),
{
    let c2 = cnt.update(v, x);
    if v == cnt.len() - 1 {
        assert(c2.drop_last() =~= cnt.drop_last());
    } else {
        assert(c2.drop_last() =~= cnt.drop_last().update(v, x));
        lemma_slack_update(cnt.drop_last(), n, v, x);
    }
}

proof fn lemma_slack_nonneg(cnt: Seq<usize>, n: int)
    requires
        forall|v: int| 0 <= v < cnt.len() ==> #[trigger] cnt[v] <= n + 1,
    ensures
        slack(cnt, n) >= 0,
    decreases cnt.len(),
{
    if cnt.len() > 0 {
        lemma_slack_nonneg(cnt.drop_last(), n);
    }
}

/// The edge is residual: it can take more flow.
pub open spec fn has_room(e: Edge) -> bool {
    e.flow < e.capacity
}

/// The spare capacity of an edge with room fits in an `i64`.
proof fn lemma_room_fits(edges: Seq<Edge>, n: int, k: int)
    requires
        pairs_ok(edges, n),
        0 <= k < edges.len(),
        has_room(edges[k]),
    ensures
        0 < edges[k].capacity - edges[k].flow <= i64::MAX,
        -edge_cost_bound() <= edges[k].cost < edge_cost_bound(),
{
    let j = k / 2;
    let a = edges[2 * j];
    let b = edges[2 * j + 1];
    if k % 2 == 0 {
        assert(edges[k] == a);
    } else {
        assert(k == 2 * j + 1);
        assert(edges[k] == b);
        assert(b.capacity == 0 && b.flow == -a.flow && 0 <= a.flow);
    }
}

/// `k ^ 1` is the partner index.
proof fn lemma_partner_xor(k: usize)
    ensures
        (k ^ 1usize) as int == partner(k as int),
{
    assert(k % 2 == 0 ==> k ^ 1usize == k + 1) by (bit_vector);
    assert(k % 2 == 1 ==> k ^ 1usize == k - 1) by (bit_vector);
}

/// `n` copies of `None`.
fn nones<T>(n: usize) -> (v: Vec<Option<T>>)
    ensures
        v@.len() == n,
        forall|i: int| 0 <= i < n ==> #[trigger] v@[i] is None,
{
    let mut v: Vec<Option<T>> = Vec::new();
    let mut k: usize = 0;
    while k < n
        invariant
            k <= n,
            v@.len() == k,
            forall|i: int| 0 <= i < k ==> #[trigger] v@[i] is None,
        decreases n - k,
    {
        v.push(None);
        k += 1;
    }
    v
}

/// `n` copies of `x`.
pub(crate) fn filled<T: Copy>(n: usize, x: T) -> (v: Vec<T>)
    ensures
        v@.len() == n,
        forall|i: int| 0 <= i < n ==> #[trigger] v@[i] == x,
{
    let mut v: Vec<T> = Vec::new();
    let mut k: usize = 0;
    while k < n
        invariant
            k <= n,
            v@.len() == k,
            forall|i: int| 0 <= i < k ==> #[trigger] v@[i] == x,
        decreases n - k,
    {
        v.push(x);
        k += 1;
    }
    v
}

/// `a + b`, held at the bounds of `i128` instead of overflowing.
fn add_held(a: i128, b: i128) -> (r: i128)
    ensures
        i128::MIN <= a + b <= i128::MAX ==> r == a + b,
        a + b > i128::MAX ==> r == i128::MAX,
        a + b < i128::MIN ==> r == i128::MIN,
{
    match a.checked_add(b) {
        Some(x) => x,
        None => {
            if b < 0 {
                i128::MIN
            } else {
                i128::MAX
            }
        },
    }
}

/// The edges after `d` more units on edge `k` and `d` fewer on its partner.
pub open spec fn push_edge(edges: Seq<Edge>, k: int, d: int) -> Seq<Edge> {
    let e = edges[k];
    let e1 = edges.update(k, Edge { flow: (e.flow + d) as i64, ..e });
    let b = e1[partner(k)];
    e1.update(partner(k), Edge { flow: (b.flow - d) as i64, ..b })
}

proof fn lemma_out_flow_update(edges: Seq<Edge>, k: int, e: Edge, u: int)
    requires
        0 <= k < edges.len(),
    ensures
        out_flow(edges.update(k, e), u) == out_flow(edges, u) - (if edges[k].from == u {
            edges[k].flow as int
        } else {
            0
        }) + (if e.from == u {
            e.flow as int
        } else {
            0
        }),
    decreases edges.len(),
{
    let e2 = edges.update(k, e);
    if k == edges.len() - 1 {
        assert(e2.drop_last() =~= edges.drop_last());
    } else {
        assert(e2.drop_last() =~= edges.drop_last().update(k, e));
        lemma_out_flow_update(edges.drop_last(), k, e, u);
    }
}

proof fn lemma_spare_update(edges: Seq<Edge>, k: int, e: Edge, u: int)
    requires
        0 <= k < edges.len(),
    ensures
        spare_from(edges.update(k, e), u) == spare_from(edges, u) - (if edges[k].from == u && edges[k].flow
            < edges[k].capacity {
            edges[k].capacity - edges[k].flow
        } else {
            0
        }) + (if e.from == u && e.flow < e.capacity {
            e.capacity - e.flow
        } else {
            0
        }),
    decreases edges.len(),
{
    let e2 = edges.update(k, e);
    if k == edges.len() - 1 {
        assert(e2.drop_last() =~= edges.drop_last());
    } else {
        assert(e2.drop_last() =~= edges.drop_last().update(k, e));
        lemma_spare_update(edges.drop_last(), k, e, u);
    }
}

pub proof fn lemma_spare_nonneg(edges: Seq<Edge>, u: int)
    ensures
        spare_from(edges, u) >= 0,
    decreases edges.len(),
{
    if edges.len() > 0 {
        lemma_spare_nonneg(edges.drop_last(), u);
    }
}

proof fn lemma_across_update(edges: Seq<Edge>, k: int, e: Edge, d: Seq<bool>)
    requires
        0 <= k < edges.len(),
    ensures
        spare_across(edges.update(k, e), d) == spare_across(edges, d) - (if d[edges[k].from as int] && !d[edges[k].to as int]
            && edges[k].flow < edges[k].capacity {
            edges[k].capacity - edges[k].flow
        } else {
            0
        }) + (if d[e.from as int] && !d[e.to as int] && e.flow < e.capacity {
            e.capacity - e.flow
        } else {
            0
        }),
    decreases edges.len(),
{
    let e2 = edges.update(k, e);
    if k == edges.len() - 1 {
        assert(e2.drop_last() =~= edges.drop_last());
    } else {
        assert(e2.drop_last() =~= edges.drop_last().update(k, e));
        lemma_across_update(edges.drop_last(), k, e, d);
    }
}

proof fn lemma_across_nonneg(edges: Seq<Edge>, d: Seq<bool>)
    ensures
        spare_across(edges, d) >= 0,
    decreases edges.len(),
{
    if edges.len() > 0 {
        lemma_across_nonneg(edges.drop_last(), d);
    }
}

/// Pushing `p` units along edge `k` takes them off the spare capacity
/// leaving a node set when the edge leaves it, and gives them back when the
/// edge enters it.
proof fn lemma_push_across(edges: Seq<Edge>, n: int, k: int, p: int, d: Seq<bool>)
    requires
        pairs_ok(edges, n),
        d.len() == n,
        0 <= k < edges.len(),
        edges[k].from != edges[k].to,
        0 <= p,
        edges[k].flow + p <= edges[k].capacity,
    ensures
        spare_across(push_edge(edges, k, p), d) == spare_across(edges, d) - (if d[edges[k].from as int]
            && !d[edges[k].to as int] {
            p
        } else {
            0
        }) + (if d[edges[k].to as int] && !d[edges[k].from as int] {
            p
        } else {
            0
        }),
{
    lemma_push_edge(edges, n, k, p);
    let j = k / 2;
    let a = edges[2 * j];
    let b = edges[2 * j + 1];
    assert(a == edges[2 * j]);
    let pk = partner(k);
    let e = edges[k];
    let ne = Edge { flow: (e.flow + p) as i64, ..e };
    if k == 2 * j {
        assert(-0x7fff_ffff_ffff_ffff <= b.flow - p);
    } else {
        assert(b.capacity == 0);
        assert(a.flow - p >= 0);
    }
    let e1 = edges.update(k, ne);
    let pb = e1[pk];
    assert(pb == edges[pk]);
    assert(p > 0 ==> pb.flow <= pb.capacity) by {
        if k == 2 * j {
            assert(pk == 2 * j + 1);
        } else {
            assert(pk == 2 * j);
            assert(k == 2 * j + 1);
        }
    }
    let npb = Edge { flow: (pb.flow - p) as i64, ..pb };
    let e2 = e1.update(pk, npb);
    assert(e2 == push_edge(edges, k, p));
    lemma_across_update(edges, k, ne, d);
    lemma_across_update(e1, pk, npb, d);
}

proof fn lemma_flow_cost_update(es: Seq<Edge>, j: int, e: Edge)
    requires
        0 <= j < es.len(),
    ensures
        flow_cost_sum(es.update(j, e)) == flow_cost_sum(es) - es[j].flow * es[j].cost + e.flow * e.cost,
    decreases es.len(),
{
    let e2 = es.update(j, e);
    if j == es.len() - 1 {
        assert(e2.drop_last() =~= es.drop_last());
    } else {
        assert(e2.drop_last() =~= es.drop_last().update(j, e));
        lemma_flow_cost_update(es.drop_last(), j, e);
    }
}

proof fn lemma_arc_cost_update(edges: Seq<Edge>, k: int, e: Edge)
    requires
        0 <= k < edges.len(),
        edges.len() % 2 == 0,
    ensures
        k % 2 == 0 ==> arc_cost(edges.update(k, e)) == arc_cost(edges) - edges[k].flow * edges[k].cost + e.flow
            * e.cost,
        k % 2 == 1 ==> arc_cost(edges.update(k, e)) == arc_cost(edges),
{
    let e2 = edges.update(k, e);
    let f1 = forward_edges(edges);
    if k % 2 == 0 {
        assert(forward_edges(e2) =~= f1.update(k / 2, e));
        lemma_flow_cost_update(f1, k / 2, e);
    } else {
        assert(forward_edges(e2) =~= f1);
    }
}

/// Pushing `d` units along edge `k` (not a loop) keeps the pairs consistent,
/// moves `d` units of net flow from its tail to its head, uses `d` of the
/// tail's spare capacity and adds `d` times its cost.
pub proof fn lemma_push_edge(edges: Seq<Edge>, n: int, k: int, d: int)
    requires
        pairs_ok(edges, n),
        0 <= k < edges.len(),
        edges[k].from != edges[k].to,
        0 <= d,
        edges[k].flow + d <= edges[k].capacity,
    ensures
        pairs_ok(push_edge(edges, k, d), n),
        same_edges(edges, push_edge(edges, k, d)),
        0 <= partner(k) < edges.len(),
        push_edge(edges, k, d)[k].flow == edges[k].flow + d,
        push_edge(edges, k, d)[partner(k)].flow == edges[partner(k)].flow - d,
        forall|x: int| 0 <= x < edges.len() && x != k && x != partner(k) ==> #[trigger] push_edge(edges, k, d)[x] == edges[x],
        edges[partner(k)].from == edges[k].to,
        edges[partner(k)].to == edges[k].from,
        edges[partner(k)].cost == -edges[k].cost,
        forall|x: int|
            #[trigger] out_flow(push_edge(edges, k, d), x) == out_flow(edges, x) + (if x == edges[k].from {
                d
            } else {
                0
            }) - (if x == edges[k].to {
                d
            } else {
                0
            }),
        forall|x: int| x != edges[k].from && x != edges[k].to ==> #[trigger] spare_from(push_edge(edges, k, d), x) == spare_from(edges, x),
        spare_from(push_edge(edges, k, d), edges[k].from as int) == spare_from(edges, edges[k].from as int) - d,
        arc_cost(push_edge(edges, k, d)) == arc_cost(edges) + d * edges[k].cost,
{
    let j = k / 2;
    assert(0 <= j < edges.len() / 2);
    let a = edges[2 * j];
    let b = edges[2 * j + 1];
    assert(a == edges[2 * j]);
    let pk = partner(k);
    assert(pk == if k == 2 * j { 2 * j + 1 } else { 2 * j });
    let e = edges[k];
    let ne = Edge { flow: (e.flow + d) as i64, ..e };
    // flows stay within their types
    if k == 2 * j {
        assert(e.flow + d <= e.capacity);
        assert(-0x7fff_ffff_ffff_ffff <= b.flow - d);
    } else {
        assert(b.capacity == 0);
        assert(a.flow - d >= 0);
    }
    let e1 = edges.update(k, ne);
    let pb = e1[pk];
    assert(pb == edges[pk]);
    let npb = Edge { flow: (pb.flow - d) as i64, ..pb };
    let e2 = e1.update(pk, npb);
    assert(e2 == push_edge(edges, k, d));
    assert forall|x: int| 0 <= x < edges.len() && x != k && x != pk implies #[trigger] e2[x] == edges[x] by {}
    assert forall|i: int| 0 <= i < e2.len() / 2 implies {
        let a2 = #[trigger] e2[2 * i];
        let b2 = e2[2 * i + 1];
        &&& b2.from == a2.to
        &&& b2.to == a2.from
        &&& b2.capacity == 0
        &&& b2.cost == -a2.cost
        &&& b2.flow == -a2.flow
        &&& 0 <= a2.flow
        &&& (a2.flow <= a2.capacity || a2.flow == 0)
    } by {
        assert(edges[2 * i] == edges[2 * i]);
        if i != j {
            assert(e2[2 * i] == edges[2 * i]);
            assert(e2[2 * i + 1] == edges[2 * i + 1]);
        }
    }
    assert forall|x: int| 0 <= x < e2.len() implies #[trigger] e2[x].from < n && e2[x].to < n by {
        assert(edges[x].from < n);
    }
    lemma_out_flow_update(edges, k, ne, 0);
    assert forall|x: int|
        #[trigger] out_flow(e2, x) == out_flow(edges, x) + (if x == e.from {
            d
        } else {
            0
        }) - (if x == e.to {
            d
        } else {
            0
        }) by {
        lemma_out_flow_update(edges, k, ne, x);
        lemma_out_flow_update(e1, pk, npb, x);
    }
    assert forall|x: int| x != e.from && x != e.to implies #[trigger] spare_from(e2, x) == spare_from(edges, x) by {
        lemma_spare_update(edges, k, ne, x);
        lemma_spare_update(e1, pk, npb, x);
    }
    lemma_spare_update(edges, k, ne, e.from as int);
    lemma_spare_update(e1, pk, npb, e.from as int);
    lemma_arc_cost_update(edges, k, ne);
    lemma_arc_cost_update(e1, pk, npb);
    assert(ne.flow * ne.cost == e.flow * e.cost + d * e.cost) by (nonlinear_arith)
        requires
            ne.flow == e.flow + d,
            ne.cost == e.cost,
    ;
    assert(npb.flow * npb.cost == pb.flow * pb.cost + d * e.cost) by (nonlinear_arith)
        requires
            npb.flow == pb.flow - d,
            npb.cost == pb.cost,
            pb.cost == -e.cost,
    ;
}

/// Costs lie in `[-2^31, 2^31)`.
pub open spec fn edge_cost_bound() -> int {
    0x8000_0000
}

/// The invariant of the augmentation rounds: `e` carries `tf` more units
/// from `source` to `sink` than `e0`, at added cost `tc`.
#[verifier::opaque]
pub open spec fn rounds_inv(e0: Seq<Edge>, e: Seq<Edge>, source: int, sink: int, n: int, tf: int, tc: int, d: Seq<bool>) -> bool {
    &&& same_edges(e0, e)
    &&& 0 <= tf
    &&& forall|x: int|
        #[trigger] out_flow(e, x) == out_flow(e0, x) + (if x == source {
            tf
        } else {
            0
        }) - (if x == sink {
            tf
        } else {
            0
        })
    &&& spare_from(e, source) + tf == spare_from(e0, source)
    &&& spare_across(e, d) + tf == spare_across(e0, d)
    &&& spare_across(e0, d) <= 0x7fff_ffff_ffff_ffff
    &&& arc_cost(e) == arc_cost(e0) + tc
    &&& -tf * (n * edge_cost_bound()) <= tc <= tf * (n * edge_cost_bound())
}

proof fn lemma_rounds_start(e0: Seq<Edge>, source: int, sink: int, n: int, d: Seq<bool>)
    requires
        spare_across(e0, d) <= 0x7fff_ffff_ffff_ffff,
    ensures
        rounds_inv(e0, e0, source, sink, n, 0, 0, d),
{
    reveal(rounds_inv);
    assert(0 * (n * edge_cost_bound()) == 0) by (nonlinear_arith);
}

proof fn lemma_rounds_step(e0: Seq<Edge>, e1: Seq<Edge>, e2: Seq<Edge>, source: int, sink: int, n: int, tf: int, tc: int, pf: int, dc: int, d: Seq<bool>)
    requires
        rounds_inv(e0, e1, source, sink, n, tf, tc, d),
        0 <= n <= 0x1_0000_0000,
        pf > 0,
        same_edges(e1, e2),
        forall|x: int|
            #[trigger] out_flow(e2, x) == out_flow(e1, x) + (if x == source {
                pf
            } else {
                0
            }) - (if x == sink {
                pf
            } else {
                0
            }),
        spare_from(e2, source) == spare_from(e1, source) - pf,
        spare_across(e2, d) == spare_across(e1, d) - pf,
        arc_cost(e2) == arc_cost(e1) + dc,
        -pf * (n * edge_cost_bound()) <= dc <= pf * (n * edge_cost_bound()),
    ensures
        rounds_inv(e0, e2, source, sink, n, tf + pf, tc + dc, d),
        tf + pf <= 0x7fff_ffff_ffff_ffff,
        -0x3fff_ffff_ffff_ffff_8000_0000_0000_0000 <= tc + dc <= 0x3fff_ffff_ffff_ffff_8000_0000_0000_0000,
        spare_from(e2, source) < spare_from(e1, source),
{
    reveal(rounds_inv);
    lemma_spare_nonneg(e2, source);
    lemma_across_nonneg(e2, d);
    assert(tf + pf <= 0x7fff_ffff_ffff_ffff);
    assert(-(tf + pf) * (n * edge_cost_bound()) <= tc + dc <= (tf + pf) * (n * edge_cost_bound())) by (nonlinear_arith)
        requires
            -tf * (n * edge_cost_bound()) <= tc <= tf * (n * edge_cost_bound()),
            -pf * (n * edge_cost_bound()) <= dc <= pf * (n * edge_cost_bound()),
    ;
    assert(-0x3fff_ffff_ffff_ffff_8000_0000_0000_0000 <= -(tf + pf) * (n * edge_cost_bound())
        && (tf + pf) * (n * edge_cost_bound()) <= 0x3fff_ffff_ffff_ffff_8000_0000_0000_0000) by (nonlinear_arith)
        requires
            0 <= tf + pf <= 0x7fff_ffff_ffff_ffff,
            0 <= n <= 0x1_0000_0000,
    ;
    assert forall|k: int| 0 <= k < e0.len() implies {
        &&& (#[trigger] e0[k]).from == e2[k].from
        &&& e0[k].to == e2[k].to
        &&& e0[k].capacity == e2[k].capacity
        &&& e0[k].cost == e2[k].cost
    } by {
        assert(e0[k].from == e1[k].from);
    }
    assert forall|x: int|
        #[trigger] out_flow(e2, x) == out_flow(e0, x) + (if x == source {
            tf + pf
        } else {
            0
        }) - (if x == sink {
            tf + pf
        } else {
            0
        }) by {
        assert(out_flow(e1, x) == out_flow(e0, x) + (if x == source {
            tf
        } else {
            0
        }) - (if x == sink {
            tf
        } else {
            0
        }));
    }
}

proof fn lemma_rounds_facts(e0: Seq<Edge>, e: Seq<Edge>, source: int, sink: int, n: int, tf: int, tc: int, d: Seq<bool>)
    requires
        rounds_inv(e0, e, source, sink, n, tf, tc, d),
    ensures
        same_edges(e0, e),
        0 <= tf,
        forall|x: int|
            #[trigger] out_flow(e, x) == out_flow(e0, x) + (if x == source {
                tf
            } else {
                0
            }) - (if x == sink {
                tf
            } else {
                0
            }),
        spare_from(e, source) + tf == spare_from(e0, source),
        arc_cost(e) == arc_cost(e0) + tc,
        0 <= n <= 0x1_0000_0000 ==> -0x3fff_ffff_ffff_ffff_8000_0000_0000_0000 <= tc <= 0x3fff_ffff_ffff_ffff_8000_0000_0000_0000,
{
    reveal(rounds_inv);
    lemma_across_nonneg(e, d);
    lemma_spare_nonneg(e, source);
    if 0 <= n <= 0x1_0000_0000 {
        assert(-0x3fff_ffff_ffff_ffff_8000_0000_0000_0000 <= -tf * (n * edge_cost_bound())
            && tf * (n * edge_cost_bound()) <= 0x3fff_ffff_ffff_ffff_8000_0000_0000_0000) by (nonlinear_arith)
            requires
                0 <= tf <= 0x7fff_ffff_ffff_ffff,
                0 <= n <= 0x1_0000_0000,
        ;
    }
}

/// The path read off the parent edges for one augmentation: `trail[j]` is
/// the `j`-th node from the sink back towards the source, entered by edge
/// `pe[j]`, and every edge on it has room for `pf` more units.
#[verifier::opaque]
pub open spec fn tree_path(e: Seq<Edge>, parent: Seq<Option<usize>>, trail: Seq<int>, pe: Seq<int>, source: int, sink: int, n: int, pf: int) -> bool {
    let m = trail.len();
    &&& trail.no_duplicates()
    &&& 1 <= m <= n
    &&& pe.len() == m
    &&& trail[0] == sink
    &&& forall|i: int| 0 <= i < m ==> 0 <= #[trigger] trail[i] < n && trail[i] != source
    &&& forall|j: int|
        #![trigger pe[j]]
        0 <= j < m ==> {
            &&& parent[trail[j]] == Some(pe[j] as usize)
            &&& 0 <= pe[j] < e.len()
            &&& e[pe[j]].to == trail[j]
            &&& e[pe[j]].from == if j + 1 < m {
                trail[j + 1]
            } else {
                source
            }
            &&& pf <= e[pe[j]].capacity - e[pe[j]].flow
        }
}

/// The node reached after pushing along the first `k` edges of the path.
pub open spec fn path_node(trail: Seq<int>, k: int, source: int) -> int {
    if k < trail.len() {
        trail[k]
    } else {
        source
    }
}

/// `e` is `e1` after pushing `pf` units along the first `k` edges of the
/// path, at added cost `dc`.
#[verifier::opaque]
pub open spec fn pushed(e1: Seq<Edge>, e: Seq<Edge>, trail: Seq<int>, pe: Seq<int>, k: int, source: int, sink: int, pf: int, dc: int) -> bool {
    let m = trail.len();
    &&& same_edges(e1, e)
    &&& forall|j: int| k <= j < m ==> #[trigger] e[pe[j]] == e1[pe[j]]
    &&& forall|x: int|
        #[trigger] out_flow(e, x) == out_flow(e1, x) + (if x == path_node(trail, k, source) {
            pf
        } else {
            0
        }) - (if x == sink {
            pf
        } else {
            0
        })
    &&& spare_from(e, source) == spare_from(e1, source) - (if k == m {
        pf
    } else {
        0
    })
    &&& arc_cost(e) == arc_cost(e1) + dc
    &&& -pf * (k * edge_cost_bound()) <= dc <= pf * (k * edge_cost_bound())
    &&& forall|x: int|
        0 <= x < e.len() && has_room(#[trigger] e[x]) ==> has_room(e1[x]) || exists|j: int| 0 <= j < k && x == partner(pe[j])
}

proof fn lemma_pushed_start(e1: Seq<Edge>, parent: Seq<Option<usize>>, trail: Seq<int>, pe: Seq<int>, source: int, sink: int, n: int, pf: int)
    requires
        tree_path(e1, parent, trail, pe, source, sink, n, pf),
    ensures
        pushed(e1, e1, trail, pe, 0, source, sink, pf, 0),
        path_node(trail, 0, source) == sink,
        sink != source,
{
    reveal(tree_path);
    reveal(pushed);
    assert(pf * (0 * edge_cost_bound()) == 0) by (nonlinear_arith);
}

/// Facts about the path: its node `k` differs from the source, and it
/// enters node `k` by edge `pe[k]`.
proof fn lemma_path_facts(e1: Seq<Edge>, parent: Seq<Option<usize>>, trail: Seq<int>, pe: Seq<int>, k: int, source: int, sink: int, n: int, pf: int)
    requires
        tree_path(e1, parent, trail, pe, source, sink, n, pf),
        0 <= k <= trail.len(),
        0 <= source < n,
    ensures
        (path_node(trail, k, source) == source) == (k == trail.len()),
        0 <= path_node(trail, k, source) < n,
        k < trail.len() ==> parent[path_node(trail, k, source)] == Some(pe[k] as usize),
        trail.len() <= n,
{
    reveal(tree_path);
    if k < trail.len() {
        assert(0 <= trail[k] < n && trail[k] != source);
    }
}

/// One push along edge `pe[k]` of the path.
proof fn lemma_pushed_step(e1: Seq<Edge>, e: Seq<Edge>, g: Seq<Seq<usize>>, parent: Seq<Option<usize>>, trail: Seq<int>, pe: Seq<int>, k: int, source: int, sink: int, n: int, pf: int, dc: int)
    requires
        tree_path(e1, parent, trail, pe, source, sink, n, pf),
        pushed(e1, e, trail, pe, k, source, sink, pf, dc),
        0 <= k < trail.len(),
        pairs_ok(e, n),
        adjacency_ok(e, g, n),
        0 < pf <= i64::MAX,
        n <= 0x1_0000_0000,
    ensures
        ({
            let kk = pe[k];
            let e2 = push_edge(e, kk, pf);
            let c = e[kk].cost as int;
            &&& 0 <= kk < e.len()
            &&& 0 <= partner(kk) < e.len()
            &&& e[kk].flow + pf <= e[kk].capacity
            &&& e2[kk].flow == e[kk].flow + pf
            &&& e2[partner(kk)].flow == e[partner(kk)].flow - pf
            &&& e[kk].from == path_node(trail, k + 1, source)
            &&& e[kk].to == path_node(trail, k, source)
            &&& e[kk].from != e[kk].to
            &&& pairs_ok(e2, n)
            &&& adjacency_ok(e2, g, n)
            &&& pushed(e1, e2, trail, pe, k + 1, source, sink, pf, dc + pf * c)
            &&& -0x1_0000_0000_0000_0000_0000_0000 <= pf * c <= 0x1_0000_0000_0000_0000_0000_0000
            &&& -0x3fff_ffff_ffff_ffff_8000_0000_0000_0000 <= dc + pf * c <= 0x3fff_ffff_ffff_ffff_8000_0000_0000_0000
        }),
{
    reveal(tree_path);
    reveal(pushed);
    let m = trail.len();
    let kk = pe[k];
    assert(parent[trail[k]] == Some(pe[k] as usize));
    assert(e[kk] == e1[kk]);
    let nxt = if k + 1 < m { trail[k + 1] } else { source };
    assert(trail[k] != nxt) by {
        if k + 1 < m {
            assert(trail[k] != trail[k + 1]);
        }
    }
    lemma_push_edge(e, n, kk, pf);
    let e2 = push_edge(e, kk, pf);
    let c = e[kk].cost as int;
    lemma_room_fits(e, n, kk);
    // later path edges are neither this edge nor its partner
    assert forall|j: int| k + 1 <= j < m implies #[trigger] e2[pe[j]] == e1[pe[j]] by {
        assert(parent[trail[j]] == Some(pe[j] as usize));
        assert(trail[j] != trail[k]);
        assert(e[pe[j]] == e1[pe[j]]);
        if pe[j] == partner(kk) {
            // the partner enters the tail of edge `kk`, which is `nxt`
            assert(e[partner(kk)].to == e[kk].from);
            if k + 1 < m {
                assert(trail[j] == trail[k + 1]);
                assert(j == k + 1);
                assert(e[pe[j]].from == trail[k]);
                assert(e[partner(kk)].from == e[kk].to);
            } else {
                assert(false);
            }
        }
    }
    assert forall|j: int| k + 1 <= j < m implies #[trigger] e2[pe[j]] == e1[pe[j]] by {}
    // adjacency only reads the tails, which do not change
    assert forall|u: int, j: int|
        0 <= u < n && 0 <= j < g[u].len() implies #[trigger] g[u][j] < e2.len() && e2[g[u][j] as int].from == u by {
        assert(g[u][j] < e.len() && e[g[u][j] as int].from == u);
    }
    assert forall|x: int| 0 <= x < e2.len() implies #[trigger] listed(e2, g, x) by {
        assert(e2[x].from == e[x].from);
        assert(listed(e, g, x));
        let j = choose|j: int| 0 <= j < g[(e[x]).from as int].len() && g[e[x].from as int][j] == x;
        assert(0 <= j < g[e2[x].from as int].len() && g[e2[x].from as int][j] == x);
    }
    assert forall|x: int|
        #[trigger] out_flow(e2, x) == out_flow(e1, x) + (if x == path_node(trail, k + 1, source) {
            pf
        } else {
            0
        }) - (if x == sink {
            pf
        } else {
            0
        }) by {
        assert(out_flow(e, x) == out_flow(e1, x) + (if x == path_node(trail, k, source) {
            pf
        } else {
            0
        }) - (if x == sink {
            pf
        } else {
            0
        }));
        assert(out_flow(e2, x) == out_flow(e, x) + (if x == e[kk].from {
            pf
        } else {
            0
        }) - (if x == e[kk].to {
            pf
        } else {
            0
        }));
    }
    // the source's spare capacity changes only on the last edge
    if k + 1 < m {
        assert(trail[k] != source && trail[k + 1] != source);
        assert(spare_from(e2, source) == spare_from(e, source));
    }
    assert forall|x: int| 0 <= x < e1.len() implies {
        &&& (#[trigger] e1[x]).from == e2[x].from
        &&& e1[x].to == e2[x].to
        &&& e1[x].capacity == e2[x].capacity
        &&& e1[x].cost == e2[x].cost
    } by {
        assert(e1[x].from == e[x].from);
    }
    assert forall|x: int| 0 <= x < e2.len() && has_room(#[trigger] e2[x]) implies has_room(e1[x]) || exists|j: int|
        0 <= j < k + 1 && x == partner(pe[j]) by {
        if x == partner(kk) {
            assert(x == partner(pe[k]));
        } else if x == kk {
            assert(has_room(e[x]));
            if !has_room(e1[x]) {
                let j = choose|j: int| 0 <= j < k && x == partner(pe[j]);
            }
        } else {
            assert(e2[x] == e[x]);
            if !has_room(e1[x]) {
                let j = choose|j: int| 0 <= j < k && x == partner(pe[j]);
            }
        }
    }
    assert(-pf * ((k + 1) * edge_cost_bound()) <= dc + pf * c <= pf * ((k + 1) * edge_cost_bound())) by (nonlinear_arith)
        requires
            0 < pf,
            -edge_cost_bound() <= c < edge_cost_bound(),
            -pf * (k * edge_cost_bound()) <= dc <= pf * (k * edge_cost_bound()),
    ;
    assert(-0x3fff_ffff_ffff_ffff_8000_0000_0000_0000 <= -pf * ((k + 1) * edge_cost_bound())
        && pf * ((k + 1) * edge_cost_bound()) <= 0x3fff_ffff_ffff_ffff_8000_0000_0000_0000) by (nonlinear_arith)
        requires
            0 < pf <= 0x7fff_ffff_ffff_ffff,
            0 <= k + 1 <= 0x1_0000_0000,
    ;
    assert(-0x1_0000_0000_0000_0000_0000_0000 <= pf * c <= 0x1_0000_0000_0000_0000_0000_0000) by (nonlinear_arith)
        requires
            0 < pf <= 0x7fff_ffff_ffff_ffff,
            -edge_cost_bound() <= c < edge_cost_bound(),
    ;
}

/// When the search leaves the sink without a distance, either it reported a
/// negative cycle or no residual path leads from the source to the sink.
proof fn lemma_search_verdict(
    edges: Seq<Edge>,
    graph: Seq<Seq<usize>>,
    n: int,
    source: int,
    sink: int,
    dist: Seq<Option<i128>>,
)
    requires
        pairs_ok(edges, n),
        adjacency_ok(edges, graph, n),
        0 <= source < n,
        0 <= sink < n,
        dist.len() == n,
        dist[sink] is None,
        dist[source] is None ==> !no_negative_cycle_from(net(edges, graph), source),
        dist[source] is Some ==> forall|kk: int|
            0 <= kk < edges.len() && has_room(#[trigger] edges[kk]) && dist[edges[kk].from as int] is Some
                ==> dist[edges[kk].to as int] is Some,
    ensures
        !reachable(net(edges, graph), source, sink) || !no_negative_cycle_from(net(edges, graph), source),
{
    if dist[source] is Some {
        let g = net(edges, graph);
        let d = Seq::new(n as nat, |x: int| dist[x] is Some);
        assert forall|u: int, j: int| #[trigger] residual(g, u, j) && d[u] implies 0 <= g[u][j].v < g.len() && d[g[u][j].v] by {
            lemma_net_edge(edges, graph, u, j);
            let kk = graph[u][j] as int;
            assert(0 <= kk < edges.len() && edges[kk].from == u);
            assert(has_room(edges[kk]));
        }
        if reachable(g, source, sink) {
            let w = choose|w: Seq<Step>| is_walk(g, source, w) && walk_end(g, source, w) == sink;
            lemma_closed_walk(g, d, source, w);
        }
    }
}

/// An edge's partner runs the other way at the opposite cost.
proof fn lemma_partner_facts(edges: Seq<Edge>, n: int, a: int)
    requires
        pairs_ok(edges, n),
        0 <= a < edges.len(),
    ensures
        0 <= partner(a) < edges.len(),
        edges[partner(a)].from == edges[a].to,
        edges[partner(a)].to == edges[a].from,
        edges[partner(a)].cost == -edges[a].cost,
{
    let j = a / 2;
    let x = edges[2 * j];
    let y = edges[2 * j + 1];
    assert(y.from == x.to && y.to == x.from && y.cost == -x.cost);
    if a % 2 == 0 {
        assert(a == 2 * j && partner(a) == 2 * j + 1);
    } else {
        assert(a == 2 * j + 1 && partner(a) == 2 * j);
    }
}

/// One round of augmentation along the search's tree path keeps the
/// residual network free of negative cycles reachable from the source: the
/// search's distances serve as potentials under which every residual edge
/// out of a node with a distance has a non-negative reduced cost, the tree
/// edges a zero one, and so have the reverses that the round opens.
proof fn lemma_round_no_negative(
    e1: Seq<Edge>,
    e2: Seq<Edge>,
    graph: Seq<Seq<usize>>,
    n: int,
    source: int,
    sink: int,
    dist: Seq<Option<i128>>,
    parent: Seq<Option<usize>>,
    trail: Seq<int>,
    pe: Seq<int>,
    pf: int,
    dc: int,
)
    requires
        pairs_ok(e1, n),
        adjacency_ok(e1, graph, n),
        adjacency_ok(e2, graph, n),
        0 <= source < n,
        dist.len() == n,
        dist[source] is Some,
        tree_path(e1, parent, trail, pe, source, sink, n, pf),
        pushed(e1, e2, trail, pe, trail.len() as int, source, sink, pf, dc),
        parents_ok(e1, dist, parent, n, source),
        tree_tight(e1, dist, parent, n),
        forall|kk: int|
            0 <= kk < e1.len() && has_room(#[trigger] e1[kk]) && dist[e1[kk].from as int] is Some ==> dist[e1[kk].to as int] is Some
                && dist[e1[kk].to as int].unwrap() <= dist[e1[kk].from as int].unwrap() + e1[kk].cost,
        forall|x: int|
            0 <= x < n && #[trigger] dist[x] is Some ==> -0x8000_0000_0000_0000 <= dist[x].unwrap() <= 0x8000_0000_0000_0000,
    ensures
        no_negative_cycle_from(net(e2, graph), source),
        (forall|y: int| 0 <= y < n ==> #[trigger] no_negative_cycle_from(net(e1, graph), y)) ==> forall|y: int|
            0 <= y < n ==> #[trigger] no_negative_cycle_from(net(e2, graph), y),
{
    reveal(tree_path);
    reveal(pushed);
    let g2 = net(e2, graph);
    let d = Seq::new(n as nat, |x: int| dist[x] is Some);
    let pot = Seq::new(n as nat, |x: int| if dist[x] is Some { dist[x] } else { Some(0i128) });
    // a residual edge of the new network out of a node with a distance
    assert forall|u: int, j: int| #[trigger] residual(g2, u, j) && d[u] implies 0 <= g2[u][j].v < g2.len() && d[g2[u][j].v]
        && reduced(g2, pot, u, j) >= 0 by {
        lemma_net_edge(e2, graph, u, j);
        let kk = graph[u][j] as int;
        assert(0 <= kk < e2.len() && e2[kk].from == u);
        assert(e1[kk].from == e2[kk].from && e1[kk].to == e2[kk].to && e1[kk].cost == e2[kk].cost);
        assert(has_room(e2[kk]));
        if has_room(e1[kk]) {
        } else {
            let jj = choose|jj: int| 0 <= jj < trail.len() && kk == partner(pe[jj]);
            let a = pe[jj];
            assert(parent[trail[jj]] == Some(a as usize));
            assert(0 <= a < e1.len());
            lemma_partner_facts(e1, n, a);
            assert(e1[a].to == trail[jj]);
            assert(0 <= trail[jj] < n);
            assert(dist[e1[a].from as int] is Some);
            assert(has_room(e1[a]));
            assert(dist[trail[jj]].unwrap() >= dist[e1[a].from as int].unwrap() + e1[a].cost);
        }
    }
    reveal(potential_ok);
    assert forall|u: int, j: int| reachable(g2, source, u) && #[trigger] residual(g2, u, j) implies reduced(g2, pot, u, j) >= 0 by {
        let w = choose|w: Seq<Step>| is_walk(g2, source, w) && walk_end(g2, source, w) == u;
        lemma_closed_walk(g2, d, source, w);
    }
    assert forall|v: int| 0 <= v < g2.len() implies -pot_bound() <= #[trigger] pv(pot, v) <= pot_bound() by {}
    assert(potential_ok(g2, pot, source));
    lemma_potential_no_negative_cycle(g2, pot, source);
    let g1 = net(e1, graph);
    if forall|y: int| 0 <= y < n ==> #[trigger] no_negative_cycle_from(g1, y) {
        // a residual edge of the new network out of a node without a distance
        // was residual before, at the same cost
        assert forall|u: int, j: int| #[trigger] residual(g2, u, j) && !d[u] implies residual(g1, u, j) by {
            lemma_net_edge(e2, graph, u, j);
            lemma_net_edge(e1, graph, u, j);
            let kk = graph[u][j] as int;
            assert(0 <= kk < e2.len() && e2[kk].from == u);
            if !has_room(e1[kk]) {
                let jj = choose|jj: int| 0 <= jj < trail.len() && kk == partner(pe[jj]);
                let a = pe[jj];
                assert(parent[trail[jj]] == Some(a as usize));
                lemma_partner_facts(e1, n, a);
                assert(0 <= trail[jj] < n);
                assert(dist[trail[jj]] is Some);
            }
        }
        assert forall|u: int, j: int| #[trigger] is_edge(g2, u, j) implies is_edge(g1, u, j) && g1[u][j].v == g2[u][j].v
            && g1[u][j].cost == g2[u][j].cost by {
            lemma_net_edge(e2, graph, u, j);
            lemma_net_edge(e1, graph, u, j);
            let kk = graph[u][j] as int;
            assert(e1[kk].to == e2[kk].to && e1[kk].cost == e2[kk].cost);
        }
        assert forall|y: int| 0 <= y < n implies #[trigger] no_negative_cycle_from(g2, y) by {
            assert forall|z: int, c: Seq<Step>|
                reachable(g2, y, z) && is_walk(g2, z, c) && walk_end(g2, z, c) == z implies walk_cost(g2, c) >= 0 by {
                if c.len() > 0 {
                    assert(residual(g2, c[0].0, c[0].1) && c[0].0 == node_at(g2, z, c, 0));
                    assert(0 <= z < n);
                    if d[z] {
                        lemma_walk_reduced_in(g2, pot, d, z, c);
                    } else {
                        lemma_walk_outside(g1, g2, d, z, c);
                        lemma_reachable_self(g1, z);
                        assert(no_negative_cycle_from(g1, z));
                    }
                }
            }
        }
    }
}

/// Inside a set of nodes that residual edges do not leave, under potentials
/// with non-negative reduced costs there, a walk costs at least the rise in
/// potential along it.
pub(crate) proof fn lemma_walk_reduced_in(g: Network, pot: Seq<Option<i128>>, d: Seq<bool>, y: int, w: Seq<Step>)
    requires
        d.len() == g.len(),
        0 <= y < g.len(),
        d[y],
        forall|u: int, j: int| #[trigger] residual(g, u, j) && d[u] ==> 0 <= g[u][j].v < g.len() && d[g[u][j].v]
            && reduced(g, pot, u, j) >= 0,
        is_walk(g, y, w),
    ensures
        0 <= walk_end(g, y, w) < g.len(),
        d[walk_end(g, y, w)],
        walk_cost(g, w) >= pv(pot, walk_end(g, y, w)) - pv(pot, y),
    decreases w.len(),
{
    if w.len() > 0 {
        lemma_walk_last(g, y, w);
        lemma_walk_reduced_in(g, pot, d, y, w.drop_last());
    }
}

/// A walk of the new network that starts and ends outside a set of nodes
/// that its residual edges do not leave never enters the set, so it is a
/// walk of the old network, at the same cost, when the old one has every
/// residual edge out of nodes outside the set, with the same heads and
/// costs.
pub(crate) proof fn lemma_walk_outside(g1: Network, g2: Network, d: Seq<bool>, z: int, w: Seq<Step>)
    requires
        g1.len() == g2.len(),
        d.len() == g2.len(),
        0 <= z < g2.len(),
        forall|u: int, j: int| #[trigger] residual(g2, u, j) && d[u] ==> 0 <= g2[u][j].v < g2.len() && d[g2[u][j].v],
        forall|u: int, j: int| #[trigger] residual(g2, u, j) && !d[u] ==> residual(g1, u, j),
        forall|u: int, j: int| #[trigger] is_edge(g2, u, j) ==> is_edge(g1, u, j) && g1[u][j].v == g2[u][j].v
            && g1[u][j].cost == g2[u][j].cost,
        is_walk(g2, z, w),
        0 <= walk_end(g2, z, w) < g2.len(),
        !d[walk_end(g2, z, w)],
    ensures
        is_walk(g1, z, w),
        walk_end(g1, z, w) == walk_end(g2, z, w),
        walk_cost(g1, w) == walk_cost(g2, w),
    decreases w.len(),
{
    if w.len() == 0 {
        lemma_empty_walk(g1, z);
        lemma_empty_walk(g2, z);
    } else {
        lemma_walk_last(g2, z, w);
        let w0 = w.drop_last();
        let u = w.last().0;
        let j = w.last().1;
        assert(is_edge(g2, u, j));
        if d[u] {
            assert(d[walk_end(g2, z, w)]);
        }
        if u == z {
        }
        assert(0 <= u < g2.len());
        lemma_walk_outside(g1, g2, d, z, w0);
        assert(residual(g1, u, j));
        lemma_walk_push(g1, z, w0, u, j);
        assert(w0.push((u, j)) =~= w);
    }
}

#[derive(Debug)]
pub struct MinCostMaxFlow {
    n: usize,
    edges: Vec<Edge>,
    graph: Vec<Vec<usize>>,  // adjacency list storing edge indices
}

impl MinCostMaxFlow {
    pub closed spec fn nodes(&self) -> int {
        self.n as int
    }

    pub closed spec fn edge_list(&self) -> Seq<Edge> {
        self.edges@
    }

    pub closed spec fn adjacency(&self) -> Seq<Seq<usize>> {
        Seq::new(self.graph@.len(), |u: int| self.graph@[u]@)
    }

    /// Internal consistency: see `pairs_ok` and `adjacency_ok`.
    pub open spec fn wf(&self) -> bool {
        &&& pairs_ok(self.edge_list(), self.nodes())
        &&& adjacency_ok(self.edge_list(), self.adjacency(), self.nodes())
    }

    pub fn new(n: usize) -> (m: Self)
        ensures
            m.wf(),
            m.nodes() == n,
            m.edge_list().len() == 0,
            forall|u: int| 0 <= u < n ==> #[trigger] m.adjacency()[u].len() == 0,
    {
        let mut graph: Vec<Vec<usize>> = Vec::new();
        let mut k: usize = 0;
        while k < n
            invariant
                k <= n,
                graph@.len() == k,
                forall|u: int| 0 <= u < k ==> #[trigger] graph@[u]@.len() == 0,
            decreases n - k,
        {
            graph.push(Vec::new());
            k += 1;
        }
        let m = Self { n, edges: Vec::new(), graph };
        assert(m.adjacency().len() == n);
        m
    }

    pub fn add_edge(&mut self, from: usize, to: usize, capacity: i64, cost: i32)
        requires
            old(self).wf(),
            from < old(self).nodes(),
            to < old(self).nodes(),
            cost > i32::MIN,
            old(self).edge_list().len() + 2 <= usize::MAX,
        ensures
            final(self).wf(),
            final(self).nodes() == old(self).nodes(),
            final(self).edge_list() == old(self).edge_list().push(
                Edge { from, to, capacity, cost, flow: 0 },
            ).push(Edge { from: to, to: from, capacity: 0, cost: (-cost) as i32, flow: 0 }),
            forward_edges(final(self).edge_list()) == forward_edges(old(self).edge_list()).push(
                Edge { from, to, capacity, cost, flow: 0 },
            ),
            ({
                let k = old(self).edge_list().len() as usize;
                let a1 = old(self).adjacency().update(
                    from as int,
                    old(self).adjacency()[from as int].push(k),
                );
                final(self).adjacency() == a1.update(to as int, a1[to as int].push((k + 1) as usize))
            }),
    {
        let ghost e0 = self.edges@;
        let ghost a0 = self.adjacency();
        let edge_idx = self.edges.len();
        // Forward edge
        self.edges.push(Edge { from, to, capacity, cost, flow: 0 });
        self.graph[from].push(edge_idx);
        // Backward edge (reverse)
        self.edges.push(Edge { from: to, to: from, capacity: 0, cost: -cost, flow: 0 });
        self.graph[to].push(edge_idx + 1);
        let ghost a1 = a0.update(from as int, a0[from as int].push(edge_idx));
        let ghost a2 = a1.update(to as int, a1[to as int].push((edge_idx + 1) as usize));
        assert(self.adjacency() =~= a2) by {
            assert forall|u: int| 0 <= u < a2.len() implies #[trigger] self.adjacency()[u] =~= a2[u] by {}
        }
        let ghost e2 = self.edges@;
        assert(forward_edges(e2) =~= forward_edges(e0).push(Edge { from, to, capacity, cost, flow: 0 })) by {
            assert(e0.len() % 2 == 0);
            assert forall|j: int| 0 <= j < forward_edges(e2).len() implies #[trigger] forward_edges(e2)[j]
                == forward_edges(e0).push(Edge { from, to, capacity, cost, flow: 0 })[j] by {
                if j < e0.len() / 2 {
                    assert(e2[2 * j] == e0[2 * j]);
                }
            }
        }
        assert forall|j: int| 0 <= j < e2.len() / 2 implies {
            let a = #[trigger] e2[2 * j];
            let b = e2[2 * j + 1];
            &&& b.from == a.to
            &&& b.to == a.from
            &&& b.capacity == 0
            &&& b.cost == -a.cost
            &&& b.flow == -a.flow
            &&& 0 <= a.flow
            &&& (a.flow <= a.capacity || a.flow == 0)
        } by {
            if j < e0.len() / 2 {
                assert(e2[2 * j] == e0[2 * j]);
                assert(e2[2 * j + 1] == e0[2 * j + 1]);
            } else {
                assert(2 * j == e0.len());
            }
        }
        assert forall|k: int| 0 <= k < e2.len() implies #[trigger] listed(e2, a2, k) by {
            if k == e0.len() {
                let j = a0[from as int].len() as int;
                assert(e2[k].from == from);
                assert(a1[from as int][j] == k);
                assert(0 <= j < a2[from as int].len() && a2[from as int][j] == k);
            } else if k == e0.len() + 1 {
                let j = a1[to as int].len() as int;
                assert(e2[k].from == to);
                assert(0 <= j < a2[to as int].len() && a2[to as int][j] == k);
            } else {
                assert(e2[k] == e0[k]);
                assert(listed(e0, a0, k));
                let j = choose|j: int| 0 <= j < a0[(e0[k]).from as int].len() && a0[e0[k].from as int][j] == k;
                let u = e0[k].from as int;
                assert(a1[u][j] == k);
                assert(0 <= j < a2[u].len() && a2[u][j] == k);
            }
        }
        assert forall|u: int, j: int|
            0 <= u < self.n && 0 <= j < a2[u].len() implies #[trigger] a2[u][j] < e2.len() && e2[a2[u][j] as int].from
            == u by {
            if u == to && j == a2[u].len() - 1 {
            } else if u == from && j == a1[u].len() - 1 && (u != to || j < a1[u].len()) {
            } else {
                assert(a2[u][j] == a0[u][j]);
                assert(a0[u][j] < e0.len());
            }
        }
    }

    /// Get all edges (including those with zero flow)
    pub fn get_all_edges(&self) -> (res: Vec<Edge>)
        requires
            self.wf(),
        ensures
            res@ == forward_edges(self.edge_list()),
    {
        let mut res: Vec<Edge> = Vec::new();
        let mut k: usize = 0;
        let len = self.edges.len();
        while k < len
            invariant
                len == self.edges@.len(),
                len % 2 == 0,
                k % 2 == 0,
                k <= len,
                res@ =~= forward_edges(self.edges@).take(k as int / 2),
            decreases len - k,
        {
            let e = &self.edges[k];
            res.push(Edge { from: e.from, to: e.to, capacity: e.capacity, cost: e.cost, flow: e.flow });
            k += 2;
        }
        assert(forward_edges(self.edges@).take(len as int / 2) =~= forward_edges(self.edges@));
        res
    }

    /// Get the flow paths as a list of sequences
    pub fn get_flow_paths(&self, source: usize, sink: usize) -> (res: Vec<Vec<Leg>>)
        requires
            self.wf(),
        ensures
            decomposes(forward_edges(self.edge_list()), source as int, sink as int, paths_of(res@)),
    {
        let fwd = self.get_all_edges();
        proof {
            assert forall|k: int| 0 <= k < fwd@.len() implies (#[trigger] fwd@[k]).from < self.n && fwd@[k].to
                < self.n by {
                assert(fwd@[k] == self.edges@[2 * k]);
            }
        }
        flow_paths(&fwd, self.n, source, sink)
    }

    /// Get all edges with non-zero flow
    pub fn get_flow_edges(&self) -> (res: Vec<Edge>)
        requires
            self.wf(),
        ensures
            res@ == flowing(forward_edges(self.edge_list())),
    {
        let mut res: Vec<Edge> = Vec::new();
        let mut k: usize = 0;
        let len = self.edges.len();
        let ghost fwd = forward_edges(self.edges@);
        while k < len
            invariant
                len == self.edges@.len(),
                fwd == forward_edges(self.edges@),
                len % 2 == 0,
                k % 2 == 0,
                k <= len,
                res@ == flowing(fwd.take(k as int / 2)),
            decreases len - k,
        {
            let e = &self.edges[k];
            proof {
                let t2 = fwd.take(k as int / 2 + 1);
                assert(t2.drop_last() =~= fwd.take(k as int / 2));
                assert(t2.last() == self.edges@[k as int]);
            }
            if e.flow > 0 {
                res.push(Edge { from: e.from, to: e.to, capacity: e.capacity, cost: e.cost, flow: e.flow });
            }
            k += 2;
        }
        assert(fwd.take(len as int / 2) =~= fwd);
        res
    }
}

impl MinCostMaxFlow {
    /// SPFA (Shortest Path Faster Algorithm) for finding shortest path with
    /// negative edge costs. A tree edge is not recorded where it would close
    /// a cycle of tree edges; when a node enters the queue more than `n`
    /// times (a negative cycle) every node is reported unreached.
    fn spfa(&self, source: usize, sink: usize) -> (res: (Vec<Option<i128>>, Vec<Option<usize>>))
        requires
            self.wf(),
            source < self.nodes(),
            self.nodes() < usize::MAX,
            self.nodes() <= 0x1_0000_0000,
        ensures
            res.0@.len() == self.nodes(),
            res.1@.len() == self.nodes(),
            forall|v: int|
                0 <= v < self.nodes() && #[trigger] res.1@[v] is Some ==> {
                    let k = res.1@[v].unwrap() as int;
                    &&& 0 <= k < self.edge_list().len()
                    &&& self.edge_list()[k].to == v
                    &&& has_room(self.edge_list()[k])
                },
            res.0@[source as int] is None ==> (forall|v: int| 0 <= v < self.nodes() ==> #[trigger] res.0@[v] is None
                && res.1@[v] is None) && !no_negative_cycle_from(net(self.edge_list(), self.adjacency()), source as int),
            res.0@[source as int] is Some ==> {
                &&& forall|kk: int|
                    0 <= kk < self.edge_list().len() && has_room(#[trigger] self.edge_list()[kk])
                        && res.0@[self.edge_list()[kk].from as int] is Some ==> res.0@[self.edge_list()[kk].to as int] is Some
                &&& parents_rooted(self.edge_list(), res.1@, source as int)
                &&& forall|v: int| 0 <= v < self.nodes() && #[trigger] res.0@[v] is Some ==> v == source || res.1@[v] is Some
                &&& parents_ok(self.edge_list(), res.0@, res.1@, self.nodes(), source as int)
                &&& forall|x: int| 0 <= x < self.nodes() && #[trigger] res.0@[x] is Some ==> res.0@[x].unwrap() <= 0x8000_0000_0000_0000
                &&& forall|x: int| 0 <= x < self.nodes() && #[trigger] res.0@[x] is Some ==> reachable(net(self.edge_list(), self.adjacency()), source as int, x)
            },
            no_negative_cycle_from(net(self.edge_list(), self.adjacency()), source as int) ==> {
                &&& res.0@[source as int] == Some(0i128)
                &&& res.1@[source as int] is None
                &&& forall|kk: int|
                    0 <= kk < self.edge_list().len() && has_room(#[trigger] self.edge_list()[kk])
                        && res.0@[self.edge_list()[kk].from as int] is Some ==> res.0@[self.edge_list()[kk].to as int]
                        .unwrap() <= res.0@[self.edge_list()[kk].from as int].unwrap() + self.edge_list()[kk].cost
                &&& tree_tight(self.edge_list(), res.0@, res.1@, self.nodes())
                &&& forall|x: int| 0 <= x < self.nodes() && #[trigger] res.0@[x] is Some ==> res.0@[x].unwrap() >= -0x8000_0000_0000_0000
            },
    {
        let n = self.n;
        let mut dist: Vec<Option<i128>> = nones(n);
        let mut parent: Vec<Option<usize>> = nones(n);
        let mut in_queue: Vec<bool> = filled(n, false);
        // Count of times each node is added to queue
        let mut cnt: Vec<usize> = filled(n, 0usize);
        let mut queue: VecDeque<usize> = VecDeque::new();
        dist.set(source, Some(0));
        queue.push_back(source);
        in_queue.set(source, true);
        cnt.set(source, 1);
        let ghost edges = self.edges@;
        let ghost g = self.adjacency();
        let ghost src = source as int;
        let ghost mut ph: Seq<int> = seq![0int];
        let ghost mut k: int = 0;
        let ghost mut last: Seq<int> = Seq::new(n as nat, |v: int| if v == source { 0int } else { -1int });
        let ghost mut clean: bool = true;
        proof {
            assert(self.graph@.len() == n) by {
                assert(self.adjacency().len() == n);
            }
            assert(queue@ =~= seq![source]);
            lemma_scan_start(edges, g, n as int, src, dist@, parent@, in_queue@, cnt@, last);
        }
        loop
            invariant
                self.wf(),
                n == self.n,
                source < n,
                n < usize::MAX,
                n <= 0x1_0000_0000,
                edges == self.edges@,
                g == self.adjacency(),
                src == source,
                self.graph@.len() == n,
                dist@.len() == n,
                parent@.len() == n,
                in_queue@.len() == n,
                cnt@.len() == n,
                forall|v: int| 0 <= v < n ==> #[trigger] cnt@[v] <= n,
                search_ctx(edges, g, n as int),
                scan_inv(edges, g, n as int, src, dist@, parent@, in_queue@, cnt@, queue@, ph, k, last, clean, -1, 0),
            ensures
                queue@.len() == 0,
            decreases slack(cnt@, n as int), queue@.len(),
        {
            let ghost q0 = queue@;
            let popped = queue.pop_front();
            let u = match popped {
                None => {
                    break ;
                },
                Some(u) => u,
            };
            proof {
                lemma_scan_pop(edges, g, n as int, src, dist@, parent@, in_queue@, cnt@, q0, ph, k, last, clean);
                k = next_phase(ph, k);
                ph = ph.subrange(1, ph.len() as int);
            }
            in_queue.set(u, false);
            let ghost s0 = slack(cnt@, n as int);
            let ghost l0 = queue@.len() as int;
            let deg = self.graph[u].len();
            let mut i: usize = 0;
            while i < deg
                invariant
                    self.wf(),
                    n == self.n,
                    source < n,
                    u < n,
                    n < usize::MAX,
                    n <= 0x1_0000_0000,
                    edges == self.edges@,
                    g == self.adjacency(),
                    src == source,
                    self.graph@.len() == n,
                    deg == self.graph@[u as int]@.len(),
                    i <= deg,
                    dist@.len() == n,
                    parent@.len() == n,
                    in_queue@.len() == n,
                    cnt@.len() == n,
                    dist@[u as int] is Some,
                    forall|v: int| 0 <= v < n ==> #[trigger] cnt@[v] <= n,
                    slack(cnt@, n as int) <= s0,
                    slack(cnt@, n as int) + queue@.len() == s0 + l0,
                    search_ctx(edges, g, n as int),
                    scan_inv(edges, g, n as int, src, dist@, parent@, in_queue@, cnt@, queue@, ph, k, last, clean, u as int, i as int),
                decreases deg - i,
            {
                let edge_idx = self.graph[u][i];
                proof {
                    assert(g[u as int] == self.graph@[u as int]@);
                    assert(g[u as int][i as int] == edge_idx);
                    assert(edge_idx < edges.len());
                    lemma_scan_facts(edges, g, n as int, src, dist@, parent@, in_queue@, cnt@, queue@, ph, k, last, clean, u as int, i as int);
                }
                let edge = &self.edges[edge_idx];
                // Check if edge has residual capacity
                if edge.flow < edge.capacity {
                    let v = edge.to;
                    proof {
                        assert(v < n);
                    }
                    let new_dist = add_held(dist[u].unwrap(), edge.cost as i128);
                    proof {
                        assert(new_dist == lo(dist@[u as int].unwrap() + edges[edge_idx as int].cost));
                    }
                    let better = match dist[v] {
                        None => true,
                        Some(dv) => new_dist < dv,
                    };
                    if better {
                        let ghost dist0 = dist@;
                        let ghost p0 = parent@;
                        dist.set(v, Some(new_dist));
                        // Check if setting parent[v] = u would create a cycle
                        // by checking if u is reachable from v through current parents
                        let mut creates_cycle = false;
                        let mut check_node = u;
                        let mut visited_check: Vec<bool> = filled(n, false);
                        let ghost mut trail: Seq<int> = Seq::empty();
                        let ghost kr: nat = if u == source {
                            0
                        } else {
                            choose|kr: nat| anc(edges, p0, src, u as int, kr) == src
                        };
                        proof {
                            if u != source {
                                assert(p0[u as int] is Some);
                                assert(rooted(edges, p0, src, u as int));
                            }
                        }
                        while check_node != source
                            invariant_except_break
                                !creates_cycle,
                            invariant
                                self.wf(),
                                n == self.n,
                                edges == self.edges@,
                                src == source,
                                source < n,
                                u < n,
                                v < n,
                                check_node < n,
                                visited_check@.len() == n,
                                parent@ == p0,
                                p0.len() == n,
                                search_ctx(edges, g, n as int),
                                parents_ok(edges, dist0, p0, n as int, src),
                                anc(edges, p0, src, u as int, kr) == src,
                                check_node as int == anc(edges, p0, src, u as int, trail.len()),
                                trail.no_duplicates(),
                                forall|j: int| 0 <= j < trail.len() ==> 0 <= #[trigger] trail[j] < n,
                                forall|j: int| 0 <= j < trail.len() ==> #[trigger] trail[j] == anc(edges, p0, src, u as int, j as nat),
                                forall|j: nat|
                                    j < trail.len() ==> anc(edges, p0, src, u as int, j) != src && anc(edges, p0, src, u as int, j) != v
                                        && #[trigger] p0[anc(edges, p0, src, u as int, j)] is Some,
                                forall|x: int| 0 <= x < n ==> (#[trigger] visited_check@[x] <==> trail.contains(x)),
                                trail.len() <= n,
                            ensures
                                creates_cycle ==> check_node == v,
                                !creates_cycle ==> check_node == source,
                                check_node as int == anc(edges, p0, src, u as int, trail.len()),
                                forall|j: nat|
                                    j < trail.len() ==> anc(edges, p0, src, u as int, j) != src && anc(edges, p0, src, u as int, j) != v
                                        && #[trigger] p0[anc(edges, p0, src, u as int, j)] is Some,
                            decreases n - trail.len(),
                        {
                            if visited_check[check_node] || check_node == v {
                                proof {
                                    if check_node != v {
                                        let j = choose|j: int| 0 <= j < trail.len() && trail[j] == check_node;
                                        assert forall|jj: nat| jj <= trail.len() implies anc(edges, p0, src, u as int, jj) != src by {
                                            if jj < trail.len() {
                                            }
                                        }
                                        lemma_cycle_not_rooted(edges, p0, src, u as int, j as nat, trail.len(), kr);
                                    }
                                }
                                creates_cycle = true;
                                break ;
                            }
                            visited_check.set(check_node, true);
                            proof {
                                lemma_distinct_push(trail, check_node as int, n as int);
                                let t2 = trail.push(check_node as int);
                                assert forall|x: int| 0 <= x < n implies (#[trigger] visited_check@[x] <==> t2.contains(x)) by {
                                    if t2.contains(x) && x != check_node {
                                        let kk = choose|kk: int| 0 <= kk < t2.len() && t2[kk] == x;
                                        assert(trail[kk] == x);
                                    }
                                    if trail.contains(x) {
                                        let kk = choose|kk: int| 0 <= kk < trail.len() && trail[kk] == x;
                                        assert(t2[kk] == x);
                                    }
                                    if x == check_node {
                                        assert(t2[trail.len() as int] == x);
                                    }
                                }
                            }
                            match parent[check_node] {
                                Some(p_edge_idx) => {
                                    proof {
                                        let t2 = trail.push(check_node as int);
                                        assert(anc(edges, p0, src, u as int, t2.len()) == up(edges, p0, src, check_node as int));
                                        assert forall|j: nat|
                                            j < t2.len() implies anc(edges, p0, src, u as int, j) != src && anc(edges, p0, src, u as int, j) != v
                                                && #[trigger] p0[anc(edges, p0, src, u as int, j)] is Some by {
                                            if j < trail.len() {
                                            }
                                        }
                                        assert forall|j: int| 0 <= j < t2.len() implies #[trigger] t2[j] == anc(edges, p0, src, u as int, j as nat) by {
                                            if j < trail.len() {
                                                assert(t2[j] == trail[j]);
                                            }
                                        }
                                        trail = t2;
                                    }
                                    check_node = self.edges[p_edge_idx].from;
                                },
                                None => {
                                    proof {
                                        assert forall|jj: nat| jj <= trail.len() implies anc(edges, p0, src, u as int, jj) != src by {
                                            if jj < trail.len() {
                                            }
                                        }
                                        lemma_stuck_not_rooted(edges, p0, src, u as int, trail.len(), kr);
                                    }
                                    break ;
                                },
                            }
                        }
                        if !creates_cycle {
                            proof {
                                lemma_scan_improve(edges, g, n as int, src, dist0, p0, in_queue@, cnt@, queue@, ph, k, last, clean, u as int, i as int, new_dist, trail.len());
                            }
                            parent.set(v, Some(edge_idx));
                            if !in_queue[v] {
                                queue.push_back(v);
                                in_queue.set(v, true);
                                proof {
                                    lemma_slack_update(cnt@, n as int, v as int, (cnt@[v as int] + 1) as usize);
                                    ph = ph.push(k + 1);
                                    last = last.update(v as int, k + 1);
                                }
                                cnt.set(v, cnt[v] + 1);
                                // If a node is added to queue more than n times, there's a negative cycle
                                if cnt[v] > n {
                                    let d = nones(n);
                                    let p = nones(n);
                                    return (d, p);
                                }
                            }
                        } else {
                            proof {
                                lemma_scan_skip(edges, g, n as int, src, dist0, p0, in_queue@, cnt@, queue@, ph, k, last, clean, u as int, i as int, new_dist, trail.len());
                                clean = false;
                            }
                        }
                    } else {
                        proof {
                            lemma_scan_keep(edges, g, n as int, src, dist@, parent@, in_queue@, cnt@, queue@, ph, k, last, clean, u as int, i as int);
                        }
                    }
                } else {
                    proof {
                        lemma_scan_keep(edges, g, n as int, src, dist@, parent@, in_queue@, cnt@, queue@, ph, k, last, clean, u as int, i as int);
                    }
                }
                i += 1;
            }
            proof {
                lemma_slack_nonneg(cnt@, n as int);
                lemma_scan_node_done(edges, g, n as int, src, dist@, parent@, in_queue@, cnt@, queue@, ph, k, last, clean, u as int);
            }
        }
        proof {
            lemma_scan_done(edges, g, n as int, src, dist@, parent@, in_queue@, cnt@, queue@, ph, k, last, clean);
            lemma_scan_facts(edges, g, n as int, src, dist@, parent@, in_queue@, cnt@, queue@, ph, k, last, clean, -1, 0);
            if no_negative_cycle_from(net(edges, g), src) {
                lemma_scan_done_clean(edges, g, n as int, src, dist@, parent@, in_queue@, cnt@, queue@, ph, k, last, clean);
            }
        }
        (dist, parent)
    }
}

impl MinCostMaxFlow {
    /// Find minimum cost maximum flow from source to sink
    #[verifier::rlimit(60)]
    pub fn min_cost_max_flow(&mut self, source: usize, sink: usize) -> (res: (i64, i128))
        requires
            old(self).wf(),
            source < old(self).nodes(),
            sink < old(self).nodes(),
            source != sink,
            old(self).nodes() <= 0x1_0000_0000,
            old(self).nodes() < usize::MAX,
            cut_within(old(self).edge_list(), old(self).nodes(), source as int, sink as int, i64::MAX as int),
        ensures
            final(self).wf(),
            final(self).nodes() == old(self).nodes(),
            final(self).adjacency() == old(self).adjacency(),
            same_edges(old(self).edge_list(), final(self).edge_list()),
            0 <= res.0,
            forall|x: int|
                #[trigger] out_flow(final(self).edge_list(), x) == out_flow(old(self).edge_list(), x) + (if x
                    == source {
                    res.0 as int
                } else {
                    0
                }) - (if x == sink {
                    res.0 as int
                } else {
                    0
                }),
            spare_from(final(self).edge_list(), source as int) + res.0 == spare_from(
                old(self).edge_list(),
                source as int,
            ),
            arc_cost(final(self).edge_list()) == arc_cost(old(self).edge_list()) + res.1,
            !reachable(net(final(self).edge_list(), final(self).adjacency()), source as int, sink as int)
                || !no_negative_cycle_from(net(final(self).edge_list(), final(self).adjacency()), source as int),
            no_negative_cycle_from(net(old(self).edge_list(), old(self).adjacency()), source as int) ==> !reachable(
                net(final(self).edge_list(), final(self).adjacency()),
                source as int,
                sink as int,
            ) && no_negative_cycle_from(net(final(self).edge_list(), final(self).adjacency()), source as int),
            !reachable(net(old(self).edge_list(), old(self).adjacency()), source as int, sink as int) ==> res.0 == 0
                && res.1 == 0 && final(self).edge_list() == old(self).edge_list(),
            (forall|y: int|
                0 <= y < old(self).nodes() ==> #[trigger] no_negative_cycle_from(
                    net(old(self).edge_list(), old(self).adjacency()),
                    y,
                )) ==> forall|y: int|
                0 <= y < final(self).nodes() ==> #[trigger] no_negative_cycle_from(
                    net(final(self).edge_list(), final(self).adjacency()),
                    y,
                ),
            (forall|y: int|
                0 <= y < old(self).nodes() ==> #[trigger] no_negative_cycle_from(
                    net(old(self).edge_list(), old(self).adjacency()),
                    y,
                )) ==> forall|fl: Seq<int>|
                feasible(final(self).edge_list(), fl) && (forall|x: int|
                    0 <= x < final(self).nodes() ==> #[trigger] net_of(final(self).edge_list(), fl, x, fl.len() as int)
                        == out_flow(final(self).edge_list(), x)) ==> arc_cost(final(self).edge_list()) <= #[trigger] cost_of(
                    final(self).edge_list(),
                    fl,
                    fl.len() as int,
                ),
    {
        let ghost e0 = self.edges@;
        let ghost a0 = self.adjacency();
        let n = self.n;
        let mut total_flow: i64 = 0;
        let mut total_cost: i128 = 0;
        let ghost dcut = choose|d: Seq<bool>|
            d.len() == n && d[source as int] && !d[sink as int] && #[trigger] spare_across(e0, d) <= i64::MAX as int;
        proof {
            lemma_rounds_start(e0, source as int, sink as int, n as int, dcut);
            lemma_spare_nonneg(e0, source as int);
        }
        loop
            invariant
                self.wf(),
                self.n == n,
                n == old(self).nodes(),
                source < n,
                sink < n,
                source != sink,
                n <= 0x1_0000_0000,
                n < usize::MAX,
                self.adjacency() == a0,
                e0 == old(self).edge_list(),
                a0 == old(self).adjacency(),
                rounds_inv(e0, self.edges@, source as int, sink as int, n as int, total_flow as int, total_cost as int, dcut),
                dcut.len() == n,
                dcut[source as int],
                !dcut[sink as int],
                no_negative_cycle_from(net(e0, a0), source as int) ==> no_negative_cycle_from(net(self.edges@, a0), source as int),
                (forall|y: int| 0 <= y < n ==> #[trigger] no_negative_cycle_from(net(e0, a0), y)) ==> forall|y: int|
                    0 <= y < n ==> #[trigger] no_negative_cycle_from(net(self.edges@, a0), y),
                !reachable(net(e0, a0), source as int, sink as int) ==> total_flow == 0 && total_cost == 0 && self.edges@ == e0,
            ensures
                !reachable(net(e0, a0), source as int, sink as int) ==> total_flow == 0 && total_cost == 0 && self.edges@ == e0,
                !reachable(net(self.edges@, a0), source as int, sink as int) || !no_negative_cycle_from(
                    net(self.edges@, a0),
                    source as int,
                ),
                no_negative_cycle_from(net(e0, a0), source as int) ==> no_negative_cycle_from(net(self.edges@, a0), source as int),
                (forall|y: int| 0 <= y < n ==> #[trigger] no_negative_cycle_from(net(e0, a0), y)) ==> forall|y: int|
                    0 <= y < n ==> #[trigger] no_negative_cycle_from(net(self.edges@, a0), y),
            decreases spare_from(self.edges@, source as int),
        {
            // Use SPFA (Shortest Path Faster Algorithm) to find shortest path
            let (dist, parent) = self.spfa(source, sink);
            if dist[sink].is_none() {
                proof {
                    lemma_search_verdict(self.edges@, a0, n as int, source as int, sink as int, dist@);
                }
                // No more augmenting paths
                break ;
            }
            let ghost kr: nat = choose|kr: nat| anc(self.edges@, parent@, source as int, sink as int, kr) == source as int;
            proof {
                assert(dist@[source as int] is Some);
                assert(parent@[sink as int] is Some);
                assert(rooted(self.edges@, parent@, source as int, sink as int));
                assert(reachable(net(self.edges@, a0), source as int, sink as int));
            }
            let ghost e1 = self.edges@;
            // Find minimum residual capacity along the path
            // Also check for cycles to prevent infinite loops
            let mut path_flow: i64 = i64::MAX;
            let mut node = sink;
            let mut visited: Vec<bool> = filled(n, false);
            let mut valid_path = true;
            let ghost mut trail: Seq<int> = Seq::empty();
            let ghost mut pe: Seq<int> = Seq::empty();
            while node != source
                invariant_except_break
                    valid_path,
                invariant
                    self.wf(),
                    self.n == n,
                    e1 == self.edges@,
                    node < n,
                    source < n,
                    sink < n,
                    source != sink,
                    visited@.len() == n,
                    parent@.len() == n,
                    forall|v: int|
                        0 <= v < n && #[trigger] parent@[v] is Some ==> {
                            let k = parent@[v].unwrap() as int;
                            &&& 0 <= k < e1.len()
                            &&& e1[k].to == v
                            &&& has_room(e1[k])
                        },
                    trail.no_duplicates(),
                    forall|k: int| 0 <= k < trail.len() ==> 0 <= #[trigger] trail[k] < n && trail[k] != source,
                    forall|x: int| 0 <= x < n ==> (#[trigger] visited@[x] <==> trail.contains(x)),
                    trail.len() <= n,
                    pe.len() == trail.len(),
                    trail.len() == 0 ==> node == sink,
                    trail.len() > 0 ==> trail[0] == sink,
                    node as int == anc(e1, parent@, source as int, sink as int, trail.len()),
                    anc(e1, parent@, source as int, sink as int, kr) == source as int,
                    forall|j: int| 0 <= j < trail.len() ==> #[trigger] trail[j] == anc(e1, parent@, source as int, sink as int, j as nat),
                    0 < path_flow,
                    forall|j: int|
                        #![trigger pe[j]]
                        0 <= j < trail.len() ==> {
                            &&& parent@[trail[j]] == Some(pe[j] as usize)
                            &&& 0 <= pe[j] < e1.len()
                            &&& e1[pe[j]].to == trail[j]
                            &&& e1[pe[j]].from == if j + 1 < trail.len() {
                                trail[j + 1]
                            } else {
                                node as int
                            }
                            &&& path_flow <= e1[pe[j]].capacity - e1[pe[j]].flow
                        },
                ensures
                    valid_path,
                    node == source,
                decreases n - trail.len(),
            {
                if visited[node] {
                    proof {
                        let j = choose|j: int| 0 <= j < trail.len() && trail[j] == node;
                        assert forall|jj: nat| jj <= trail.len() implies anc(e1, parent@, source as int, sink as int, jj) != source by {
                            if jj < trail.len() {
                                assert(trail[jj as int] == anc(e1, parent@, source as int, sink as int, jj));
                            }
                        }
                        lemma_cycle_not_rooted(e1, parent@, source as int, sink as int, j as nat, trail.len(), kr);
                    }
                    // Cycle detected - invalid path
                    valid_path = false;
                    break ;
                }
                match parent[node] {
                    Some(edge_idx) => {
                        visited.set(node, true);
                        let edge = &self.edges[edge_idx];
                        proof {
                            lemma_room_fits(e1, n as int, edge_idx as int);
                            lemma_distinct_push(trail, node as int, n as int);
                            let t2 = trail.push(node as int);
                            assert forall|x: int| 0 <= x < n implies (#[trigger] visited@[x] <==> t2.contains(x)) by {
                                if t2.contains(x) && x != node {
                                    let k = choose|k: int| 0 <= k < t2.len() && t2[k] == x;
                                    assert(trail[k] == x);
                                }
                                if trail.contains(x) {
                                    let k = choose|k: int| 0 <= k < trail.len() && trail[k] == x;
                                    assert(t2[k] == x);
                                }
                                if x == node {
                                    assert(t2[trail.len() as int] == x);
                                }
                            }
                        }
                        let residual = edge.capacity - edge.flow;
                        if residual < path_flow {
                            path_flow = residual;
                        }
                        proof {
                            let t2 = trail.push(node as int);
                            assert(anc(e1, parent@, source as int, sink as int, t2.len()) == up(e1, parent@, source as int, node as int));
                            assert forall|j: int| 0 <= j < t2.len() implies #[trigger] t2[j] == anc(e1, parent@, source as int, sink as int, j as nat) by {
                                if j < trail.len() {
                                    assert(t2[j] == trail[j]);
                                }
                            }
                            trail = t2;
                            pe = pe.push(edge_idx as int);
                        }
                        node = edge.from;
                    },
                    None => {
                        proof {
                            assert forall|jj: nat| jj <= trail.len() implies anc(e1, parent@, source as int, sink as int, jj) != source by {
                                if jj < trail.len() {
                                    assert(trail[jj as int] == anc(e1, parent@, source as int, sink as int, jj));
                                }
                            }
                            lemma_stuck_not_rooted(e1, parent@, source as int, sink as int, trail.len(), kr);
                        }
                        // No parent - path doesn't reach source
                        valid_path = false;
                        break ;
                    },
                }
            }
            if !valid_path || path_flow == 0 {
                // No valid augmenting path
                proof {
                    assert(false);
                }
                break ;
            }
            proof {
                reveal(tree_path);
                assert(trail.len() >= 1);
                assert(tree_path(e1, parent@, trail, pe, source as int, sink as int, n as int, path_flow as int));
            }
            let ghost tc1 = total_cost as int;
            proof {
                lemma_rounds_facts(e0, e1, source as int, sink as int, n as int, total_flow as int, tc1, dcut);
            }
            // Update flow along the path
            node = sink;
            let ghost mut k: int = 0;
            proof {
                lemma_pushed_start(e1, parent@, trail, pe, source as int, sink as int, n as int, path_flow as int);
            }
            while node != source
                invariant
                    self.wf(),
                    self.n == n,
                    self.adjacency() == a0,
                    source < n,
                    sink < n,
                    n <= 0x1_0000_0000,
                    source != sink,
                    0 < path_flow,
                    parent@.len() == n,
                    tree_path(e1, parent@, trail, pe, source as int, sink as int, n as int, path_flow as int),
                    0 <= k <= trail.len(),
                    node as int == path_node(trail, k, source as int),
                    pushed(e1, self.edges@, trail, pe, k, source as int, sink as int, path_flow as int, total_cost - tc1),
                    dcut.len() == n,
                    !dcut[sink as int],
                    spare_across(self.edges@, dcut) == spare_across(e1, dcut) - (if dcut[path_node(trail, k, source as int)] {
                        path_flow as int
                    } else {
                        0
                    }),
                    -0x3fff_ffff_ffff_ffff_8000_0000_0000_0000 <= tc1 <= 0x3fff_ffff_ffff_ffff_8000_0000_0000_0000,
                decreases trail.len() - k,
            {
                let ghost ek = self.edges@;
                proof {
                    lemma_path_facts(e1, parent@, trail, pe, k, source as int, sink as int, n as int, path_flow as int);
                    lemma_pushed_step(e1, ek, a0, parent@, trail, pe, k, source as int, sink as int, n as int, path_flow as int, total_cost - tc1);
                    lemma_push_across(ek, n as int, pe[k], path_flow as int, dcut);
                    lemma_partner_xor(pe[k] as usize);
                }
                let edge_idx = parent[node].unwrap();
                assert(self.edges@.len() == self.edges.len());
                self.edges[edge_idx].flow = self.edges[edge_idx].flow + path_flow;
                // Update reverse edge
                self.edges[edge_idx ^ 1].flow = self.edges[edge_idx ^ 1].flow - path_flow;
                total_cost = total_cost + path_flow as i128 * self.edges[edge_idx].cost as i128;
                node = self.edges[edge_idx].from;
                proof {
                    assert(self.edges@ =~= push_edge(ek, pe[k], path_flow as int));
                    k = k + 1;
                }
            }
            proof {
                lemma_path_facts(e1, parent@, trail, pe, k, source as int, sink as int, n as int, path_flow as int);
                reveal(pushed);
                assert(path_flow * (k * edge_cost_bound()) <= path_flow * (n * edge_cost_bound())) by (nonlinear_arith)
                    requires
                        0 < path_flow,
                        k <= n,
                ;
                assert(-path_flow * (k * edge_cost_bound()) >= -path_flow * (n * edge_cost_bound())) by (nonlinear_arith)
                    requires
                        0 < path_flow,
                        k <= n,
                ;
                lemma_rounds_step(e0, e1, self.edges@, source as int, sink as int, n as int, total_flow as int, tc1, path_flow as int, total_cost - tc1, dcut);
                lemma_spare_nonneg(self.edges@, source as int);
                if (forall|y: int| 0 <= y < n ==> #[trigger] no_negative_cycle_from(net(e1, a0), y)) {
                    assert(no_negative_cycle_from(net(e1, a0), source as int));
                }
                if no_negative_cycle_from(net(e1, a0), source as int) {
                    lemma_round_no_negative(e1, self.edges@, a0, n as int, source as int, sink as int, dist@, parent@, trail, pe, path_flow as int, total_cost - tc1);
                }
            }
            total_flow = total_flow + path_flow;
        }
        proof {
            lemma_rounds_facts(e0, self.edges@, source as int, sink as int, n as int, total_flow as int, total_cost as int, dcut);
            if forall|y: int| 0 <= y < n ==> #[trigger] no_negative_cycle_from(net(e0, a0), y) {
                assert forall|fl: Seq<int>|
                    feasible(self.edges@, fl) && (forall|x: int|
                        0 <= x < n ==> #[trigger] net_of(self.edges@, fl, x, fl.len() as int) == out_flow(self.edges@, x))
                        implies arc_cost(self.edges@) <= #[trigger] cost_of(self.edges@, fl, fl.len() as int) by {
                    lemma_least_cost(self.edges@, a0, n as int, fl);
                }
            }
        }
        (total_flow, total_cost)
    }
}

} // verus!
