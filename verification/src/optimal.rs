//! Least cost of a flow on an edge list: potentials that leave every edge
//! with room a non-negative reduced cost show that no flow within the
//! capacities with the same net flow at every node costs less, and such
//! potentials exist when no residual cycle anywhere has a negative cost.
use vstd::prelude::*;

use crate::cut::{arc_cap, arc_flows, feasible, lemma_arc_flows_feasible, lemma_out_flow_arcs, net_of};
use crate::edge_list::{Edge, adjacency_ok, arc_cost, flow_cost_sum, forward_edges, has_room, listed, out_flow, pairs_ok};
use crate::network::{heads_ok, is_edge, no_negative_cycle_from, residual};
use crate::potentials::lemma_potentials_exist;
use crate::relax::{lemma_net_edge, net};

verus! {

/// Cost of the flow `y` on the first `m` arcs.
pub open spec fn cost_of(edges: Seq<Edge>, y: Seq<int>, m: int) -> int
    decreases m,
{
    if m <= 0 {
        0
    } else {
        cost_of(edges, y, m - 1) + y[m - 1] * edges[2 * (m - 1)].cost
    }
}

/// The reduced cost of edge `k` under potentials `pot`.
pub open spec fn reduced_at(edges: Seq<Edge>, pot: Seq<int>, k: int) -> int {
    edges[k].cost + pot[edges[k].from as int] - pot[edges[k].to as int]
}

/// Sum over the first `m` arcs of `z` times the reduced cost.
spec fn reduced_sum(edges: Seq<Edge>, z: Seq<int>, pot: Seq<int>, m: int) -> int
    decreases m,
{
    if m <= 0 {
        0
    } else {
        reduced_sum(edges, z, pot, m - 1) + z[m - 1] * reduced_at(edges, pot, 2 * (m - 1))
    }
}

/// Sum over the first `m` arcs of `z` times the drop in potential.
spec fn drop_sum(edges: Seq<Edge>, z: Seq<int>, pot: Seq<int>, m: int) -> int
    decreases m,
{
    if m <= 0 {
        0
    } else {
        drop_sum(edges, z, pot, m - 1) + z[m - 1] * (pot[edges[2 * (m - 1)].from as int] - pot[edges[2 * (m
            - 1)].to as int])
    }
}

/// Sum over the first `k` nodes of the potential times the net flow of `z`
/// over the first `m` arcs.
spec fn node_sum(edges: Seq<Edge>, z: Seq<int>, pot: Seq<int>, m: int, k: int) -> int
    decreases k,
{
    if k <= 0 {
        0
    } else {
        node_sum(edges, z, pot, m, k - 1) + pot[k - 1] * net_of(edges, z, k - 1, m)
    }
}

proof fn lemma_cost_split(edges: Seq<Edge>, y: Seq<int>, xf: Seq<int>, z: Seq<int>, pot: Seq<int>, m: int)
    requires
        forall|j: int| 0 <= j < m ==> #[trigger] z[j] == y[j] - xf[j],
    ensures
        cost_of(edges, y, m) - cost_of(edges, xf, m) == reduced_sum(edges, z, pot, m) - drop_sum(edges, z, pot, m),
    decreases m,
{
    if m > 0 {
        lemma_cost_split(edges, y, xf, z, pot, m - 1);
        let e = edges[2 * (m - 1)];
        let c = e.cost as int;
        let a = pot[e.from as int];
        let b = pot[e.to as int];
        let zz = z[m - 1];
        assert(zz == y[m - 1] - xf[m - 1]);
        assert(y[m - 1] * c - xf[m - 1] * c == zz * (c + a - b) - zz * (a - b)) by (nonlinear_arith)
            requires
                zz == y[m - 1] - xf[m - 1],
        ;
    }
}

proof fn lemma_reduced_nonneg(edges: Seq<Edge>, n: int, y: Seq<int>, z: Seq<int>, pot: Seq<int>, m: int)
    requires
        pairs_ok(edges, n),
        feasible(edges, y),
        0 <= m <= y.len(),
        forall|j: int| 0 <= j < m ==> #[trigger] z[j] == y[j] - arc_flows(edges)[j],
        forall|k: int| 0 <= k < edges.len() && has_room(#[trigger] edges[k]) ==> reduced_at(edges, pot, k) >= 0,
    ensures
        reduced_sum(edges, z, pot, m) >= 0,
    decreases m,
{
    if m > 0 {
        lemma_reduced_nonneg(edges, n, y, z, pot, m - 1);
        let j = m - 1;
        let a = edges[2 * j];
        let b = edges[2 * j + 1];
        let r = reduced_at(edges, pot, 2 * j);
        let zz = z[j];
        assert(0 <= y[j] <= arc_cap(edges, j));
        assert(arc_flows(edges)[j] == a.flow);
        if zz > 0 {
            assert(has_room(edges[2 * j]));
            assert(r >= 0);
        } else if zz < 0 {
            assert(has_room(edges[2 * j + 1]));
            assert(reduced_at(edges, pot, 2 * j + 1) == -r);
        }
        assert(zz * r >= 0) by (nonlinear_arith)
            requires
                zz > 0 ==> r >= 0,
                zz < 0 ==> r <= 0,
        ;
    }
}

proof fn lemma_node_sum_step(edges: Seq<Edge>, z: Seq<int>, pot: Seq<int>, m: int, k: int)
    requires
        m > 0,
        0 <= k,
    ensures
        node_sum(edges, z, pot, m, k) == node_sum(edges, z, pot, m - 1, k) + (if edges[2 * (m - 1)].from < k {
            pot[edges[2 * (m - 1)].from as int] * z[m - 1]
        } else {
            0
        }) - (if edges[2 * (m - 1)].to < k {
            pot[edges[2 * (m - 1)].to as int] * z[m - 1]
        } else {
            0
        }),
    decreases k,
{
    if k > 0 {
        lemma_node_sum_step(edges, z, pot, m, k - 1);
        let x = k - 1;
        let e = edges[2 * (m - 1)];
        let p = pot[x];
        let nn = net_of(edges, z, x, m - 1);
        let a = if e.from == x { z[m - 1] } else { 0 };
        let b = if e.to == x { z[m - 1] } else { 0 };
        assert(net_of(edges, z, x, m) == nn + a - b);
        assert(p * (nn + a - b) == p * nn + p * a - p * b) by (nonlinear_arith);
    }
}

proof fn lemma_drop_sum_nodes(edges: Seq<Edge>, n: int, z: Seq<int>, pot: Seq<int>, m: int)
    requires
        pairs_ok(edges, n),
        0 <= n,
        0 <= m <= edges.len() / 2,
    ensures
        drop_sum(edges, z, pot, m) == node_sum(edges, z, pot, m, n),
    decreases m,
{
    if m == 0 {
        lemma_node_sum_zero(edges, z, pot, n);
    } else {
        lemma_drop_sum_nodes(edges, n, z, pot, m - 1);
        lemma_node_sum_step(edges, z, pot, m, n);
        let e = edges[2 * (m - 1)];
        assert(e.from < n && e.to < n);
        let zz = z[m - 1];
        assert(zz * (pot[e.from as int] - pot[e.to as int]) == pot[e.from as int] * zz - pot[e.to as int] * zz)
            by (nonlinear_arith);
    }
}

proof fn lemma_node_sum_zero(edges: Seq<Edge>, z: Seq<int>, pot: Seq<int>, k: int)
    ensures
        node_sum(edges, z, pot, 0, k) == 0,
    decreases k,
{
    if k > 0 {
        lemma_node_sum_zero(edges, z, pot, k - 1);
        assert(pot[k - 1] * 0 == 0) by (nonlinear_arith);
    }
}

proof fn lemma_node_sum_balanced(edges: Seq<Edge>, z: Seq<int>, pot: Seq<int>, m: int, k: int)
    requires
        forall|x: int| 0 <= x < k ==> #[trigger] net_of(edges, z, x, m) == 0,
    ensures
        node_sum(edges, z, pot, m, k) == 0,
    decreases k,
{
    if k > 0 {
        lemma_node_sum_balanced(edges, z, pot, m, k - 1);
        assert(net_of(edges, z, k - 1, m) == 0);
        assert(pot[k - 1] * 0 == 0) by (nonlinear_arith);
    }
}

proof fn lemma_net_of_diff(edges: Seq<Edge>, y: Seq<int>, xf: Seq<int>, z: Seq<int>, x: int, m: int)
    requires
        forall|j: int| 0 <= j < m ==> #[trigger] z[j] == y[j] - xf[j],
    ensures
        net_of(edges, z, x, m) == net_of(edges, y, x, m) - net_of(edges, xf, x, m),
    decreases m,
{
    if m > 0 {
        lemma_net_of_diff(edges, y, xf, z, x, m - 1);
        assert(z[m - 1] == y[m - 1] - xf[m - 1]);
    }
}

proof fn lemma_cost_of_arcs(edges: Seq<Edge>, m: int)
    requires
        0 <= m <= edges.len() / 2,
    ensures
        cost_of(edges, arc_flows(edges), m) == flow_cost_sum(forward_edges(edges).take(m)),
    decreases m,
{
    if m > 0 {
        lemma_cost_of_arcs(edges, m - 1);
        let t = forward_edges(edges).take(m);
        assert(t.drop_last() =~= forward_edges(edges).take(m - 1));
        assert(t.last() == edges[2 * (m - 1)]);
    }
}

/// The cost of the flow on an edge list is the sum over its arcs of flow
/// times cost; reverse edges add nothing.
pub proof fn lemma_arc_cost_sum(edges: Seq<Edge>)
    ensures
        arc_cost(edges) == cost_of(edges, arc_flows(edges), (edges.len() / 2) as int),
        forall|j: int| 0 <= j < edges.len() / 2 ==> #[trigger] arc_flows(edges)[j] == edges[2 * j].flow,
{
    lemma_cost_of_arcs(edges, (edges.len() / 2) as int);
    assert(forward_edges(edges).take((edges.len() / 2) as int) =~= forward_edges(edges));
}

/// Under potentials that leave every edge with room a non-negative reduced
/// cost, the flow on the arcs is of least cost: every flow `y` within the
/// capacities with the same net flow at every node costs at least as much.
pub proof fn lemma_potentials_least_cost(edges: Seq<Edge>, n: int, pot: Seq<int>, y: Seq<int>)
    requires
        pairs_ok(edges, n),
        pot.len() == n,
        forall|k: int| 0 <= k < edges.len() && has_room(#[trigger] edges[k]) ==> reduced_at(edges, pot, k) >= 0,
        feasible(edges, y),
        forall|x: int| 0 <= x < n ==> #[trigger] net_of(edges, y, x, y.len() as int) == out_flow(edges, x),
    ensures
        arc_cost(edges) <= cost_of(edges, y, y.len() as int),
{
    let m = y.len() as int;
    let xf = arc_flows(edges);
    let z = Seq::new(m as nat, |j: int| y[j] - xf[j]);
    assert(edges.take(2 * m) =~= edges);
    assert forall|x: int| 0 <= x < n implies #[trigger] net_of(edges, z, x, m) == 0 by {
        lemma_out_flow_arcs(edges, n, x, m);
        lemma_net_of_diff(edges, y, xf, z, x, m);
    }
    lemma_node_sum_balanced(edges, z, pot, m, n);
    lemma_drop_sum_nodes(edges, n, z, pot, m);
    lemma_cost_split(edges, y, xf, z, pot, m);
    lemma_reduced_nonneg(edges, n, y, z, pot, m);
    lemma_cost_of_arcs(edges, m);
    assert(forward_edges(edges).take(m) =~= forward_edges(edges));
}

/// Without a negative residual cycle anywhere, the flow on an edge list is
/// of least cost: every flow `y` within the capacities with the same net
/// flow at every node costs at least as much.
pub proof fn lemma_least_cost(edges: Seq<Edge>, graph: Seq<Seq<usize>>, n: int, y: Seq<int>)
    requires
        pairs_ok(edges, n),
        adjacency_ok(edges, graph, n),
        forall|x: int| 0 <= x < n ==> #[trigger] no_negative_cycle_from(net(edges, graph), x),
        feasible(edges, y),
        forall|x: int| 0 <= x < n ==> #[trigger] net_of(edges, y, x, y.len() as int) == out_flow(edges, x),
    ensures
        arc_cost(edges) <= cost_of(edges, y, y.len() as int),
{
    let g = net(edges, graph);
    assert(heads_ok(g)) by {
        assert forall|u: int, j: int| #[trigger] is_edge(g, u, j) implies 0 <= g[u][j].v < g.len() by {
            lemma_net_edge(edges, graph, u, j);
            assert(graph[u][j] < edges.len());
            assert(edges[graph[u][j] as int].to < n);
        }
    }
    let pot = lemma_potentials_exist(g);
    assert forall|k: int| 0 <= k < edges.len() && has_room(#[trigger] edges[k]) implies reduced_at(edges, pot, k) >= 0 by {
        assert(listed(edges, graph, k));
        let u = edges[k].from as int;
        let j = choose|j: int| 0 <= j < graph[u].len() && graph[u][j] == k;
        assert(u < n);
        lemma_net_edge(edges, graph, u, j);
        assert(residual(g, u, j));
    }
    lemma_potentials_least_cost(edges, n, pot, y);
}

} // verus!
