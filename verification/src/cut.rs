//! Maximality of a flow on an edge list: no flow from the source to the
//! sink exceeds the capacity of a cut, and a flow that leaves no residual
//! path from the source to the sink fills one.
use vstd::prelude::*;

use crate::edge_list::{Edge, adjacency_ok, has_room, out_flow, pairs_ok};
use crate::network::{Step, is_walk, lemma_reachable_self, lemma_reachable_step, reachable, residual, walk_end};
use crate::relax::{lemma_net_edge, net};

verus! {

/// The capacity of arc `j` (the edge at index `2 j`), a negative one read
/// as none.
pub open spec fn arc_cap(edges: Seq<Edge>, j: int) -> int {
    if edges[2 * j].capacity >= 0 {
        edges[2 * j].capacity as int
    } else {
        0
    }
}

/// `f` gives each arc a flow between zero and its capacity.
pub open spec fn feasible(edges: Seq<Edge>, f: Seq<int>) -> bool {
    &&& f.len() == edges.len() / 2
    &&& forall|j: int| 0 <= j < f.len() ==> 0 <= #[trigger] f[j] <= arc_cap(edges, j)
}

/// Net flow of `f` out of `x` over the first `m` arcs: the flow of the arcs
/// leaving `x` less that of the arcs entering it.
pub open spec fn net_of(edges: Seq<Edge>, f: Seq<int>, x: int, m: int) -> int
    decreases m,
{
    if m <= 0 {
        0
    } else {
        net_of(edges, f, x, m - 1) + (if edges[2 * (m - 1)].from == x {
            f[m - 1]
        } else {
            0
        }) - (if edges[2 * (m - 1)].to == x {
            f[m - 1]
        } else {
            0
        })
    }
}

/// `f` is a flow from `s` to `t`: every other node passes on what it gets.
pub open spec fn conserves(edges: Seq<Edge>, f: Seq<int>, n: int, s: int, t: int) -> bool {
    forall|x: int| 0 <= x < n && x != s && x != t ==> #[trigger] net_of(edges, f, x, f.len() as int) == 0
}

/// The value of flow `f`: its net flow out of `s`.
pub open spec fn flow_value(edges: Seq<Edge>, f: Seq<int>, s: int) -> int {
    net_of(edges, f, s, f.len() as int)
}

/// The capacity of the first `m` arcs leaving the node set `d`.
pub open spec fn cut_cap(edges: Seq<Edge>, d: Seq<bool>, m: int) -> int
    decreases m,
{
    if m <= 0 {
        0
    } else {
        cut_cap(edges, d, m - 1) + if d[edges[2 * (m - 1)].from as int] && !d[edges[2 * (m - 1)].to as int] {
            arc_cap(edges, m - 1)
        } else {
            0
        }
    }
}

/// What the first `m` arcs carry out of `d` less what they carry into it.
pub open spec fn across(edges: Seq<Edge>, f: Seq<int>, d: Seq<bool>, m: int) -> int
    decreases m,
{
    if m <= 0 {
        0
    } else {
        across(edges, f, d, m - 1) + (if d[edges[2 * (m - 1)].from as int] {
            f[m - 1]
        } else {
            0
        }) - (if d[edges[2 * (m - 1)].to as int] {
            f[m - 1]
        } else {
            0
        })
    }
}

/// The sum over the first `k` nodes in `d` of their net flow.
pub open spec fn set_net(edges: Seq<Edge>, f: Seq<int>, d: Seq<bool>, k: int, m: int) -> int
    decreases k,
{
    if k <= 0 {
        0
    } else {
        set_net(edges, f, d, k - 1, m) + if d[k - 1] {
            net_of(edges, f, k - 1, m)
        } else {
            0
        }
    }
}

/// Summing the net flows of a set's nodes counts each arc once for each end
/// in the set.
proof fn lemma_set_net(edges: Seq<Edge>, f: Seq<int>, d: Seq<bool>, n: int, m: int)
    requires
        pairs_ok(edges, n),
        d.len() == n,
        0 <= m <= f.len(),
        f.len() == edges.len() / 2,
    ensures
        set_net(edges, f, d, n, m) == across(edges, f, d, m),
    decreases m,
{
    if m > 0 {
        lemma_set_net(edges, f, d, n, m - 1);
        let a = edges[2 * (m - 1)];
        assert(a.from < n && a.to < n);
        lemma_set_net_step(edges, f, d, n, m);
    } else {
        lemma_set_net_zero(edges, f, d, n);
    }
}

proof fn lemma_set_net_zero(edges: Seq<Edge>, f: Seq<int>, d: Seq<bool>, k: int)
    ensures
        set_net(edges, f, d, k, 0) == 0,
    decreases k,
{
    if k > 0 {
        lemma_set_net_zero(edges, f, d, k - 1);
    }
}

/// Adding arc `m - 1` changes the sum over the first `k` nodes by its flow
/// for each end among them.
proof fn lemma_set_net_step(edges: Seq<Edge>, f: Seq<int>, d: Seq<bool>, k: int, m: int)
    requires
        0 <= k <= d.len(),
        m >= 1,
    ensures
        set_net(edges, f, d, k, m) == set_net(edges, f, d, k, m - 1) + (if edges[2 * (m - 1)].from < k
            && d[edges[2 * (m - 1)].from as int] {
            f[m - 1]
        } else {
            0
        }) - (if edges[2 * (m - 1)].to < k && d[edges[2 * (m - 1)].to as int] {
            f[m - 1]
        } else {
            0
        }),
    decreases k,
{
    if k > 0 {
        lemma_set_net_step(edges, f, d, k - 1, m);
    }
}

/// Of a feasible flow, what leaves `d` is at most the capacity of the arcs
/// leaving it, and exactly that when the arcs leaving `d` are full and those
/// entering it empty.
proof fn lemma_across_cut(edges: Seq<Edge>, f: Seq<int>, d: Seq<bool>, m: int)
    requires
        feasible(edges, f),
        0 <= m <= f.len(),
    ensures
        across(edges, f, d, m) <= cut_cap(edges, d, m),
        (forall|j: int|
            0 <= j < m ==> {
                &&& d[edges[2 * j].from as int] && !d[edges[2 * j].to as int] ==> #[trigger] f[j] == arc_cap(edges, j)
                &&& !d[edges[2 * j].from as int] && d[edges[2 * j].to as int] ==> f[j] == 0
            }) ==> across(edges, f, d, m) == cut_cap(edges, d, m),
    decreases m,
{
    if m > 0 {
        lemma_across_cut(edges, f, d, m - 1);
        assert(0 <= f[m - 1] <= arc_cap(edges, m - 1));
    }
}

/// Weak duality: no flow from `s` to `t` carries more than the capacity of
/// a node set that holds `s` and not `t`.
pub proof fn lemma_flow_within_cut(edges: Seq<Edge>, n: int, s: int, t: int, f: Seq<int>, d: Seq<bool>)
    requires
        pairs_ok(edges, n),
        0 <= s < n,
        0 <= t < n,
        d.len() == n,
        d[s],
        !d[t],
        feasible(edges, f),
        conserves(edges, f, n, s, t),
    ensures
        flow_value(edges, f, s) <= cut_cap(edges, d, f.len() as int),
{
    let m = f.len() as int;
    lemma_set_net(edges, f, d, n, m);
    lemma_across_cut(edges, f, d, m);
    lemma_set_net_single(edges, f, d, n, s, t, m);
}

/// With conservation, the sum over a set holding `s` and not `t` is the net
/// flow out of `s`.
proof fn lemma_set_net_single(edges: Seq<Edge>, f: Seq<int>, d: Seq<bool>, n: int, s: int, t: int, m: int)
    requires
        0 <= s < n,
        0 <= t < n,
        d.len() == n,
        d[s],
        !d[t],
        forall|x: int| 0 <= x < n && x != s && x != t ==> #[trigger] net_of(edges, f, x, m) == 0,
    ensures
        set_net(edges, f, d, n, m) == net_of(edges, f, s, m),
{
    lemma_set_net_prefix(edges, f, d, n, s, t, m, n);
}

proof fn lemma_set_net_prefix(edges: Seq<Edge>, f: Seq<int>, d: Seq<bool>, n: int, s: int, t: int, m: int, k: int)
    requires
        0 <= s < n,
        0 <= t < n,
        0 <= k <= n,
        d.len() == n,
        d[s],
        !d[t],
        forall|x: int| 0 <= x < n && x != s && x != t ==> #[trigger] net_of(edges, f, x, m) == 0,
    ensures
        set_net(edges, f, d, k, m) == if s < k {
            net_of(edges, f, s, m)
        } else {
            0
        },
    decreases k,
{
    if k > 0 {
        lemma_set_net_prefix(edges, f, d, n, s, t, m, k - 1);
        if k - 1 != s && k - 1 != t {
            assert(net_of(edges, f, k - 1, m) == 0);
        }
    }
}

/// The flows on the arcs of an edge list.
pub open spec fn arc_flows(edges: Seq<Edge>) -> Seq<int> {
    Seq::new(edges.len() / 2, |j: int| edges[2 * j].flow as int)
}

/// Net flow out of `x` over the first `2 m` edges, reverses included, is
/// the net flow of the arcs.
pub(crate) proof fn lemma_out_flow_arcs(edges: Seq<Edge>, n: int, x: int, m: int)
    requires
        pairs_ok(edges, n),
        0 <= m <= edges.len() / 2,
    ensures
        out_flow(edges.take(2 * m), x) == net_of(edges, arc_flows(edges), x, m),
    decreases m,
{
    if m > 0 {
        lemma_out_flow_arcs(edges, n, x, m - 1);
        let e2 = edges.take(2 * m);
        let e1 = e2.drop_last();
        assert(e1.drop_last() =~= edges.take(2 * (m - 1)));
        assert(e1.last() == edges[2 * (m - 1)]);
        assert(e2.last() == edges[2 * (m - 1) + 1]);
        let j = m - 1;
        let a = edges[2 * j];
        let b = edges[2 * j + 1];
        assert(b.from == a.to && b.flow == -a.flow);
        assert(out_flow(e2, x) == out_flow(e1, x) + if b.from == x { b.flow as int } else { 0 });
        assert(out_flow(e1, x) == out_flow(e1.drop_last(), x) + if a.from == x { a.flow as int } else { 0 });
        assert(arc_flows(edges)[j] == a.flow);
    }
}

/// Net flow out of a node, reverse edges included, is the flow of the arcs
/// leaving it less the flow of the arcs entering it.
pub proof fn lemma_out_flow_net(edges: Seq<Edge>, n: int, x: int)
    requires
        pairs_ok(edges, n),
    ensures
        out_flow(edges, x) == net_of(edges, arc_flows(edges), x, (edges.len() / 2) as int),
{
    lemma_out_flow_arcs(edges, n, x, (edges.len() / 2) as int);
    assert(edges.take(2 * ((edges.len() / 2) as int)) =~= edges);
}

/// The arcs' flows are a feasible flow.
pub(crate) proof fn lemma_arc_flows_feasible(edges: Seq<Edge>, n: int)
    requires
        pairs_ok(edges, n),
    ensures
        feasible(edges, arc_flows(edges)),
{
    let f = arc_flows(edges);
    assert forall|j: int| 0 <= j < f.len() implies 0 <= #[trigger] f[j] <= arc_cap(edges, j) by {
        assert(edges[2 * j] == edges[2 * j]);
    }
}

/// A flow that leaves no residual path from `s` to `t` is maximum: it
/// carries as much out of `s` as any flow from `s` to `t`.
pub proof fn lemma_no_path_maximum(edges: Seq<Edge>, graph: Seq<Seq<usize>>, n: int, s: int, t: int, f: Seq<int>)
    requires
        pairs_ok(edges, n),
        adjacency_ok(edges, graph, n),
        0 <= s < n,
        0 <= t < n,
        !reachable(net(edges, graph), s, t),
        forall|x: int| 0 <= x < n && x != s && x != t ==> #[trigger] out_flow(edges, x) == 0,
        feasible(edges, f),
        conserves(edges, f, n, s, t),
    ensures
        flow_value(edges, f, s) <= out_flow(edges, s),
{
    let g = net(edges, graph);
    let fl = arc_flows(edges);
    let m = (edges.len() / 2) as int;
    let d = Seq::new(n as nat, |x: int| reachable(g, s, x));
    lemma_reachable_self(g, s);
    assert(edges.take(2 * m) =~= edges);
    // the current flow
    lemma_arc_flows_feasible(edges, n);
    assert forall|x: int| 0 <= x < n && x != s && x != t implies #[trigger] net_of(edges, fl, x, fl.len() as int) == 0 by {
        lemma_out_flow_arcs(edges, n, x, m);
    }
    lemma_out_flow_arcs(edges, n, s, m);
    // arcs leaving the reachable set are full, arcs entering it empty
    assert forall|j: int| 0 <= j < m implies {
        &&& d[edges[2 * j].from as int] && !d[edges[2 * j].to as int] ==> #[trigger] fl[j] == arc_cap(edges, j)
        &&& !d[edges[2 * j].from as int] && d[edges[2 * j].to as int] ==> fl[j] == 0
    } by {
        let a = edges[2 * j];
        let b = edges[2 * j + 1];
        assert(a.from < n && a.to < n);
        if d[a.from as int] && !d[a.to as int] && has_room(a) {
            lemma_edge_residual(edges, graph, n, 2 * j);
            let i = choose|i: int| 0 <= i < graph[a.from as int].len() && graph[a.from as int][i] == 2 * j;
            lemma_net_edge(edges, graph, a.from as int, i);
            lemma_reachable_step(g, s, a.from as int, i);
        }
        if !d[a.from as int] && d[a.to as int] && has_room(b) {
            lemma_edge_residual(edges, graph, n, 2 * j + 1);
            let i = choose|i: int| 0 <= i < graph[b.from as int].len() && graph[b.from as int][i] == 2 * j + 1;
            lemma_net_edge(edges, graph, b.from as int, i);
            lemma_reachable_step(g, s, b.from as int, i);
        }
    }
    lemma_set_net(edges, fl, d, n, m);
    lemma_across_cut(edges, fl, d, m);
    lemma_set_net_single(edges, fl, d, n, s, t, m);
    lemma_flow_within_cut(edges, n, s, t, f, d);
}

/// Edge `k` is listed under its tail.
proof fn lemma_edge_residual(edges: Seq<Edge>, graph: Seq<Seq<usize>>, n: int, k: int)
    requires
        adjacency_ok(edges, graph, n),
        pairs_ok(edges, n),
        0 <= k < edges.len(),
    ensures
        exists|i: int| 0 <= i < graph[edges[k].from as int].len() && graph[edges[k].from as int][i] == k,
{
    assert(crate::edge_list::listed(edges, graph, k));
}

/// With no flow on any edge, no node sends anything out.
pub proof fn lemma_out_flow_zero(edges: Seq<Edge>, x: int)
    requires
        forall|k: int| 0 <= k < edges.len() ==> (#[trigger] edges[k]).flow == 0,
    ensures
        out_flow(edges, x) == 0,
    decreases edges.len(),
{
    if edges.len() > 0 {
        assert(edges.last() == edges[edges.len() - 1]);
        lemma_out_flow_zero(edges.drop_last(), x);
    }
}

/// Starting from no flow, a search that sends `v` from `s` to `t` and then
/// leaves no residual path from `s` to `t` has found a maximum flow: no flow
/// from `s` to `t` within the capacities carries more than `v`.
pub proof fn lemma_maximum_flow(
    e0: Seq<Edge>,
    edges: Seq<Edge>,
    graph: Seq<Seq<usize>>,
    n: int,
    s: int,
    t: int,
    v: int,
    f: Seq<int>,
)
    requires
        pairs_ok(edges, n),
        adjacency_ok(edges, graph, n),
        0 <= s < n,
        0 <= t < n,
        s != t,
        forall|x: int| #[trigger] out_flow(e0, x) == 0,
        forall|x: int|
            #[trigger] out_flow(edges, x) == out_flow(e0, x) + (if x == s {
                v
            } else {
                0
            }) - (if x == t {
                v
            } else {
                0
            }),
        !reachable(net(edges, graph), s, t),
        feasible(edges, f),
        conserves(edges, f, n, s, t),
    ensures
        flow_value(edges, f, s) <= v,
{
    assert forall|x: int| 0 <= x < n && x != s && x != t implies #[trigger] out_flow(edges, x) == 0 by {
        assert(out_flow(e0, x) == 0);
    }
    assert(out_flow(e0, s) == 0);
    lemma_no_path_maximum(edges, graph, n, s, t, f);
}

/// Net flow depends on the arcs only through their ends.
proof fn lemma_net_of_ends(a: Seq<Edge>, b: Seq<Edge>, f: Seq<int>, x: int, m: int)
    requires
        0 <= m <= a.len() / 2,
        a.len() == b.len(),
        forall|k: int| 0 <= k < a.len() ==> (#[trigger] a[k]).from == b[k].from && a[k].to == b[k].to,
    ensures
        net_of(a, f, x, m) == net_of(b, f, x, m),
    decreases m,
{
    if m > 0 {
        lemma_net_of_ends(a, b, f, x, m - 1);
        assert(a[2 * (m - 1)].from == b[2 * (m - 1)].from);
    }
}

/// More capacity never lowers the maximum flow. Take two edge lists with
/// the same arcs, each arc of the second with at least the capacity it has
/// in the first, each carrying a flow from `s` to `t` (of values `va` and
/// `vb`), the second leaving no residual path from `s` to `t`: then
/// `va <= vb`.
pub proof fn lemma_more_capacity(
    a: Seq<Edge>,
    b: Seq<Edge>,
    gb: Seq<Seq<usize>>,
    n: int,
    s: int,
    t: int,
    va: int,
    vb: int,
)
    requires
        pairs_ok(a, n),
        pairs_ok(b, n),
        adjacency_ok(b, gb, n),
        0 <= s < n,
        0 <= t < n,
        s != t,
        a.len() == b.len(),
        forall|k: int| 0 <= k < a.len() ==> (#[trigger] a[k]).from == b[k].from && a[k].to == b[k].to,
        forall|j: int| 0 <= j < a.len() / 2 ==> #[trigger] arc_cap(a, j) <= arc_cap(b, j),
        forall|x: int|
            #[trigger] out_flow(a, x) == (if x == s {
                va
            } else {
                0
            }) - (if x == t {
                va
            } else {
                0
            }),
        forall|x: int|
            #[trigger] out_flow(b, x) == (if x == s {
                vb
            } else {
                0
            }) - (if x == t {
                vb
            } else {
                0
            }),
        !reachable(net(b, gb), s, t),
    ensures
        va <= vb,
{
    let f = arc_flows(a);
    let m = (a.len() / 2) as int;
    assert(a.take(2 * m) =~= a);
    lemma_arc_flows_feasible(a, n);
    assert forall|j: int| 0 <= j < f.len() implies 0 <= #[trigger] f[j] <= arc_cap(b, j) by {
        assert(arc_cap(a, j) <= arc_cap(b, j));
    }
    assert(feasible(b, f));
    assert forall|x: int| 0 <= x < n && x != s && x != t implies #[trigger] net_of(b, f, x, f.len() as int) == 0 by {
        lemma_out_flow_arcs(a, n, x, m);
        lemma_net_of_ends(a, b, f, x, m);
    }
    lemma_out_flow_arcs(a, n, s, m);
    lemma_net_of_ends(a, b, f, s, m);
    assert forall|x: int| 0 <= x < n && x != s && x != t implies #[trigger] out_flow(b, x) == 0 by {}
    lemma_no_path_maximum(b, gb, n, s, t, f);
}

} // verus!
