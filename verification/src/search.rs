//! The invariant of the shortest-path search on reduced costs, and the
//! lemmas for each of its steps: starting, dropping an outdated queue entry,
//! settling a node, relaxing one edge, and the outcome once the queue is
//! empty.
use vstd::prelude::*;

use crate::graph::FINF;
use crate::network::{
    EdgeView, Network, edge_ok, flow_cost, lemma_push_flow, net_flow, push_flow, spare_out, is_edge, is_walk, lemma_reachable_self, lemma_reachable_step, lemma_walk_subrange,
    node_at, reachable, residual, same_shape, walk_end, well_formed, walk_cost, lemma_walk_concat,
    no_negative_cycle_from, Step, spare_across_net, lemma_leaving_nonneg, net_cut_within,
};
use crate::edge_list::{lemma_walk_outside, lemma_walk_reduced_in};
use crate::queue::Q;

verus! {

/// Costs lie in `[-cost_bound(), cost_bound())`.
pub(crate) open spec fn cost_bound() -> int {
    0x8000_0000
}

/// Bound on the potentials inside the algorithm.
pub(crate) open spec fn pot_bound() -> int {
    0x20_0000_0000_0000_0000_0000_0000
}

pub(crate) open spec fn pv(pot: Seq<Option<i128>>, v: int) -> int {
    pot[v].unwrap() as int
}

pub(crate) open spec fn dv(dist: Seq<Option<i128>>, v: int) -> int {
    dist[v].unwrap() as int
}

pub(crate) open spec fn abs(x: int) -> int {
    if x < 0 {
        -x
    } else {
        x
    }
}

pub(crate) open spec fn min(a: int, b: int) -> int {
    if a < b {
        a
    } else {
        b
    }
}

/// Every cost of `g` lies in `[-cost_bound(), cost_bound())`.
pub(crate) open spec fn costs_fit(g: Network) -> bool {
    forall|u: int, i: int|
        0 <= u < g.len() && 0 <= i < g[u].len() ==> -cost_bound() <= #[trigger] g[u][i].cost
            < cost_bound()
}

/// Cost of `g[u][i]` reduced by the potentials.
pub(crate) open spec fn reduced(g: Network, pot: Seq<Option<i128>>, u: int, i: int) -> int {
    g[u][i].cost + pv(pot, u) - pv(pot, g[u][i].v)
}

/// Bound on the source's potential inside the algorithm.
pub(crate) open spec fn src_bound() -> int {
    0x10_0000_0000_8000_0000_0000_0000
}

/// Finite, bounded potentials under which every residual edge out of a node
/// reachable from `s` has a non-negative reduced cost.
#[verifier::opaque]
pub(crate) open spec fn potential_ok(g: Network, pot: Seq<Option<i128>>, s: int) -> bool {
    &&& pot.len() == g.len()
    &&& 0 <= s < g.len()
    &&& -src_bound() <= pv(pot, s) <= src_bound()
    &&& forall|v: int| 0 <= v < g.len() ==> #[trigger] pot[v] is Some
    &&& forall|v: int| 0 <= v < g.len() ==> -pot_bound() <= #[trigger] pv(pot, v) <= pot_bound()
    &&& forall|u: int, i: int|
        reachable(g, s, u) && #[trigger] residual(g, u, i) ==> reduced(g, pot, u, i) >= 0
}

/// Spare capacity of `g[u][i]`.
pub(crate) open spec fn spare(g: Network, u: int, i: int) -> int {
    g[u][i].cap - g[u][i].f
}

/// Facts about the tree edge `p[v]`.
pub(crate) open spec fn parent_ok(
    g: Network,
    pot: Seq<Option<i128>>,
    p: Seq<Option<(usize, usize)>>,
    dist: Seq<Option<i128>>,
    rank: Seq<int>,
    bott: Seq<int>,
    v: int,
) -> bool {
    let u = p[v].unwrap().0 as int;
    let i = p[v].unwrap().1 as int;
    &&& residual(g, u, i)
    &&& g[u][i].v == v
    &&& dist[u] is Some
    &&& rank[u] < rank[v]
    &&& dv(dist, v) == dv(dist, u) + reduced(g, pot, u, i)
    &&& 0 < bott[v] <= bott[u]
    &&& bott[v] <= spare(g, u, i)
}

/// The outcome of the shortest-path search from `s`: `dist` holds reduced
/// distances of the nodes reached, `p` a tree of residual edges along which
/// those distances are attained, `rank` the order in which nodes were
/// settled and `bott` the bottleneck capacity of each tree path.
pub(crate) open spec fn tree_ok(
    g: Network,
    pot: Seq<Option<i128>>,
    s: int,
    p: Seq<Option<(usize, usize)>>,
    dist: Seq<Option<i128>>,
    rank: Seq<int>,
    bott: Seq<int>,
) -> bool {
    let n = g.len();
    &&& p.len() == n && dist.len() == n && rank.len() == n && bott.len() == n
    &&& dist[s] == Some(0i128)
    &&& p[s] is None
    &&& rank[s] == 0
    &&& bott[s] == FINF
    &&& forall|v: int|
        0 <= v < n && #[trigger] dist[v] is Some ==> {
            &&& reachable(g, s, v)
            &&& 0 <= rank[v] < n
            &&& abs(dv(dist, v) + pv(pot, v) - pv(pot, s)) <= rank[v] * cost_bound()
        }
    &&& forall|u: int, i: int|
        #[trigger] residual(g, u, i) && dist[u] is Some ==> dist[g[u][i].v] is Some && dv(
            dist,
            g[u][i].v,
        ) <= dv(dist, u) + reduced(g, pot, u, i)
    &&& forall|v: int| 0 <= v < n && v != s ==> (#[trigger] dist[v] is Some <==> p[v] is Some)
    &&& forall|v: int| 0 <= v < n && #[trigger] p[v] is Some ==> parent_ok(g, pot, p, dist, rank, bott, v)
}

/// The flow a live queue entry for `v` carries.
pub(crate) open spec fn live_c(g: Network, s: int, p: Seq<Option<(usize, usize)>>, bott: Seq<int>, v: int) -> int {
    if v == s {
        FINF as int
    } else {
        let u = p[v].unwrap().0 as int;
        let i = p[v].unwrap().1 as int;
        min(bott[u], spare(g, u, i))
    }
}

/// The invariant of the search loop. `order` lists the settled nodes, `rank`
/// gives each its position there (`-1` if unsettled), `last` is the distance
/// of the node settled last, and `cur` is the node whose first `done` edges
/// have been relaxed (`-1` between nodes).
/// The state of the search loop. `order` lists the settled nodes, `rank`
/// gives each its position there (`-1` if unsettled), `last` is the distance
/// of the node settled last and `tf` the flow found to the target.
pub(crate) struct SearchState {
    pub(crate) q: Seq<Q>,
    pub(crate) p: Seq<Option<(usize, usize)>>,
    pub(crate) dist: Seq<Option<i128>>,
    pub(crate) rank: Seq<int>,
    pub(crate) bott: Seq<int>,
    pub(crate) order: Seq<int>,
    pub(crate) last: int,
    pub(crate) tf: int,
}

/// Settled nodes are listed once each in `order`, the source first.
#[verifier::opaque]
pub(crate) open spec fn si_order(n: int, s: int, dist: Seq<Option<i128>>, rank: Seq<int>, order: Seq<int>) -> bool {
    &&& order.len() <= n
    &&& order.len() > 0 ==> rank[s] == 0
    &&& order.len() == 0 ==> forall|v: int| 0 <= v < n && v != s ==> #[trigger] dist[v] is None
    &&& forall|k: int| 0 <= k < order.len() ==> 0 <= #[trigger] order[k] < n && rank[order[k]] == k
    &&& forall|v: int| 0 <= v < n && #[trigger] rank[v] >= 0 ==> rank[v] < order.len() && order[rank[v]] == v
}

/// Settled nodes have final distances no larger than `last`.
#[verifier::opaque]
pub(crate) open spec fn si_settled(n: int, pot: Seq<Option<i128>>, s: int, dist: Seq<Option<i128>>, rank: Seq<int>, bott: Seq<int>, last: int) -> bool {
    forall|v: int|
        0 <= v < n && #[trigger] rank[v] >= 0 ==> {
            &&& dist[v] is Some
            &&& dv(dist, v) <= last
            &&& bott[v] > 0
            &&& abs(dv(dist, v) + pv(pot, v) - pv(pot, s)) <= rank[v] * cost_bound()
        }
}

/// Nodes with a distance are reachable, with a bounded distance.
#[verifier::opaque]
pub(crate) open spec fn si_dist(g: Network, pot: Seq<Option<i128>>, s: int, dist: Seq<Option<i128>>, order: Seq<int>) -> bool {
    forall|v: int|
        0 <= v < g.len() && #[trigger] dist[v] is Some ==> {
            &&& reachable(g, s, v)
            &&& abs(dv(dist, v) + pv(pot, v) - pv(pot, s)) <= order.len() * cost_bound()
        }
}

/// The edges of settled nodes are relaxed (those of `cur` up to `done`).
#[verifier::opaque]
pub(crate) open spec fn si_edges(g: Network, pot: Seq<Option<i128>>, dist: Seq<Option<i128>>, rank: Seq<int>, cur: int, done: int) -> bool {
    forall|u: int, i: int|
        #[trigger] residual(g, u, i) && rank[u] >= 0 && (u != cur || i < done) ==> dist[g[u][i].v] is Some
            && dv(dist, g[u][i].v) <= dv(dist, u) + reduced(g, pot, u, i)
}

/// `p` holds the residual edges through which the distances were found.
#[verifier::opaque]
pub(crate) open spec fn si_tree(g: Network, pot: Seq<Option<i128>>, s: int, p: Seq<Option<(usize, usize)>>, dist: Seq<Option<i128>>, rank: Seq<int>, bott: Seq<int>) -> bool {
    &&& forall|v: int| 0 <= v < g.len() && v != s ==> (#[trigger] dist[v] is Some <==> p[v] is Some)
    &&& forall|v: int|
        0 <= v < g.len() && #[trigger] p[v] is Some ==> {
            let u = p[v].unwrap().0 as int;
            let i = p[v].unwrap().1 as int;
            &&& residual(g, u, i)
            &&& g[u][i].v == v
            &&& rank[u] >= 0
            &&& dist[u] is Some
            &&& dv(dist, v) == dv(dist, u) + reduced(g, pot, u, i)
            &&& rank[v] >= 0 ==> rank[u] < rank[v] && bott[v] <= bott[u] && bott[v] <= spare(g, u, i)
        }
}

/// Queue entries: live ones (at their node's distance) belong to unsettled
/// nodes and carry the right flow, no two entries coincide, and every
/// unsettled node with a distance has a live entry.
#[verifier::opaque]
pub(crate) open spec fn si_queue(g: Network, s: int, q: Seq<Q>, p: Seq<Option<(usize, usize)>>, dist: Seq<Option<i128>>, rank: Seq<int>, bott: Seq<int>, last: int) -> bool {
    &&& forall|k: int|
        0 <= k < q.len() ==> {
            let e = #[trigger] q[k];
            &&& e.u < g.len()
            &&& dist[e.u as int] is Some
            &&& e.w >= dv(dist, e.u as int)
            &&& e.w >= last
            &&& e.w == dv(dist, e.u as int) ==> rank[e.u as int] < 0 && e.c == live_c(g, s, p, bott, e.u as int)
        }
    &&& forall|j: int, k: int|
        0 <= j < q.len() && 0 <= k < q.len() && j != k && (#[trigger] q[j]).u == (#[trigger] q[k]).u
            ==> q[j].w != q[k].w
    &&& forall|v: int|
        0 <= v < g.len() && #[trigger] dist[v] is Some && rank[v] < 0 ==> exists|k: int|
            0 <= k < q.len() && (#[trigger] q[k]).u == v && q[k].w == dv(dist, v)
}

/// The invariant of the search loop; `cur` is the node whose first `done`
/// edges have been relaxed (`-1` between nodes).
pub(crate) open spec fn search_inv(g: Network, pot: Seq<Option<i128>>, s: int, t: int, st: SearchState, cur: int, done: int) -> bool {
    let n = g.len() as int;
    &&& st.p.len() == n && st.dist.len() == n && st.rank.len() == n && st.bott.len() == n
    &&& 0 <= s < n && 0 <= t < n
    &&& st.dist[s] == Some(0i128)
    &&& st.p[s] is None
    &&& st.bott[s] == FINF
    &&& 0 <= st.last
    &&& st.rank[t] >= 0 ==> st.tf == st.bott[t]
    &&& st.rank[t] < 0 ==> st.tf == -1
    &&& cur == -1 || (0 <= cur < n && st.rank[cur] >= 0 && dv(st.dist, cur) == st.last && 0 <= done
        <= g[cur].len())
    &&& si_order(n, s, st.dist, st.rank, st.order)
    &&& si_settled(n, pot, s, st.dist, st.rank, st.bott, st.last)
    &&& si_dist(g, pot, s, st.dist, st.order)
    &&& si_edges(g, pot, st.dist, st.rank, cur, done)
    &&& si_tree(g, pot, s, st.p, st.dist, st.rank, st.bott)
    &&& si_queue(g, s, st.q, st.p, st.dist, st.rank, st.bott, st.last)
}

pub(crate) proof fn lemma_search_start(g: Network, pot: Seq<Option<i128>>, su: usize, t: int, dist: Seq<Option<i128>>, p: Seq<Option<(usize, usize)>>)
    requires
        0 <= su < g.len(),
        0 <= t < g.len(),
        dist.len() == g.len(),
        p.len() == g.len(),
        forall|v: int| 0 <= v < g.len() ==> #[trigger] p[v] is None,
        forall|v: int| 0 <= v < g.len() && v != su ==> #[trigger] dist[v] is None,
        dist[su as int] == Some(0i128),
        pot.len() == g.len(),
    ensures
        search_inv(
            g,
            pot,
            su as int,
            t,
            SearchState {
                q: seq![Q { u: su, c: FINF, w: 0 }],
                p,
                dist,
                rank: Seq::new(g.len(), |v: int| -1),
                bott: Seq::new(g.len(), |v: int| FINF as int),
                order: Seq::empty(),
                last: 0,
                tf: -1,
            },
            -1,
            0,
        ),
{
    let s = su as int;
    let n = g.len() as int;
    lemma_reachable_self(g, s);
    let q = seq![Q { u: su, c: FINF, w: 0 }];
    let rank = Seq::new(g.len(), |v: int| -1int);
    let bott = Seq::new(g.len(), |v: int| FINF as int);
    assert(q[0].u == su);
    reveal(si_order);
    reveal(si_settled);
    reveal(si_dist);
    reveal(si_edges);
    reveal(si_tree);
    reveal(si_queue);
    assert(si_dist(g, pot, s, dist, Seq::<int>::empty()));
    assert(si_tree(g, pot, s, p, dist, rank, bott));
    assert forall|v: int| 0 <= v < g.len() && #[trigger] dist[v] is Some && rank[v] < 0 implies exists|k: int|
        0 <= k < q.len() && (#[trigger] q[k]).u == v && q[k].w == dv(dist, v) by {
        assert(v == s);
        assert(q[0].u == v && q[0].w == dv(dist, v));
    }
    assert(si_queue(g, s, q, p, dist, rank, bott, 0));
}

/// Dropping an outdated entry keeps the invariant.
pub(crate) proof fn lemma_search_stale(g: Network, pot: Seq<Option<i128>>, s: int, t: int, st: SearchState, k: int)
    requires
        search_inv(g, pot, s, t, st, -1, 0),
        0 <= k < st.q.len(),
        st.q[k].w != dv(st.dist, st.q[k].u as int),
    ensures
        search_inv(g, pot, s, t, SearchState { q: st.q.remove(k), ..st }, -1, 0),
{
    let q = st.q;
    let dist = st.dist;
    let q2 = q.remove(k);
    reveal(si_queue);
    assert forall|j: int| 0 <= j < q2.len() implies #[trigger] q2[j] == q[if j < k { j } else { j + 1 }] by {}
    assert forall|j: int, l: int|
        0 <= j < q2.len() && 0 <= l < q2.len() && j != l && (#[trigger] q2[j]).u == (
        #[trigger] q2[l]).u implies q2[j].w != q2[l].w by {
        let jj = if j < k { j } else { j + 1 };
        let ll = if l < k { l } else { l + 1 };
        assert(q2[j] == q[jj] && q2[l] == q[ll]);
    }
    assert forall|v: int|
        0 <= v < g.len() && #[trigger] dist[v] is Some && st.rank[v] < 0 implies exists|j: int|
        0 <= j < q2.len() && (#[trigger] q2[j]).u == v && q2[j].w == dv(dist, v) by {
        let j0 = choose|j: int| 0 <= j < q.len() && (#[trigger] q[j]).u == v && q[j].w == dv(dist, v);
        assert(j0 != k);
        let j = if j0 < k { j0 } else { j0 - 1 };
        assert(q2[j] == q[j0]);
    }
    assert(si_queue(g, s, q2, st.p, st.dist, st.rank, st.bott, st.last));
}

/// The state after settling the node of a live entry of smallest distance.
pub(crate) open spec fn settled_state(st: SearchState, k: int, t: int) -> SearchState {
    let e = st.q[k];
    let u = e.u as int;
    SearchState {
        q: st.q.remove(k),
        rank: st.rank.update(u, st.order.len() as int),
        bott: st.bott.update(u, e.c as int),
        order: st.order.push(u),
        last: e.w as int,
        tf: if u == t && st.tf < 0 {
            e.c as int
        } else {
            st.tf
        },
        ..st
    }
}

/// Settling the node of a live entry of smallest distance.
pub(crate) proof fn lemma_search_settle(g: Network, pot: Seq<Option<i128>>, s: int, t: int, st: SearchState, k: int)
    requires
        search_inv(g, pot, s, t, st, -1, 0),
        0 <= k < st.q.len(),
        st.q[k].w == dv(st.dist, st.q[k].u as int),
        forall|j: int| 0 <= j < st.q.len() ==> st.q[k].w <= #[trigger] st.q[j].w,
    ensures
        st.order.len() < g.len(),
        search_inv(g, pot, s, t, settled_state(st, k, t), st.q[k].u as int, 0),
{
    let n = g.len() as int;
    let q = st.q;
    let p = st.p;
    let dist = st.dist;
    let rank = st.rank;
    let bott = st.bott;
    let order = st.order;
    let last = st.last;
    let e = q[k];
    let u = e.u as int;
    let st2 = settled_state(st, k, t);
    let q2 = st2.q;
    let rank2 = st2.rank;
    let bott2 = st2.bott;
    let order2 = st2.order;
    let last2 = st2.last;
    // facts about the popped entry
    assert(u < n && dist[u] is Some && e.w >= last && rank[u] < 0 && e.c == live_c(g, s, p, bott, u)) by {
        reveal(si_queue);
    }
    assert forall|j: int| 0 <= j < q.len() implies #[trigger] q[j].w >= e.w by {}
    // u is new in order, and order stays within n
    assert(order.len() < n && (order.len() == 0 ==> u == s)) by {
        reveal(si_order);
        assert forall|j: int| 0 <= j < order.len() implies order[j] != u by {
            assert(rank[order[j]] == j);
        }
        assert(order2.no_duplicates()) by {
            assert forall|a: int, b: int|
                0 <= a < order2.len() && 0 <= b < order2.len() && a != b implies order2[a] != order2[b] by {
                if a < order.len() && b < order.len() {
                    assert(rank[order[a]] == a);
                    assert(rank[order[b]] == b);
                }
            }
        }
        if order2.len() > n {
            assert forall|j: int| 0 <= j < order2.len() implies 0 <= #[trigger] order2[j] < n by {
                if j < order.len() {
                    assert(0 <= order[j] < n);
                }
            }
            crate::network::lemma_pigeonhole(order2, n);
            let (a, b) = choose|a: int, b: int| 0 <= a < b < order2.len() && order2[a] == order2[b];
            assert(false);
        }
        if order.len() == 0 && u != s {
            assert(dist[u] is None);
        }
    }
    assert(si_order(n, s, dist, rank2, order2)) by {
        reveal(si_order);
        assert forall|j: int| 0 <= j < order2.len() implies 0 <= #[trigger] order2[j] < n && rank2[order2[j]] == j by {
            if j < order.len() {
                assert(order2[j] == order[j]);
                assert(rank[order[j]] == j);
                assert(order[j] != u);
            }
        }
        assert forall|v: int| 0 <= v < n && #[trigger] rank2[v] >= 0 implies rank2[v] < order2.len() && order2[rank2[v]] == v by {
            if v != u {
                assert(rank[v] >= 0);
            }
        }
    }
    // bound and bottleneck of u
    assert(abs(dv(dist, u) + pv(pot, u) - pv(pot, s)) <= order.len() * cost_bound()) by {
        reveal(si_dist);
    }
    assert(e.c > 0) by {
        if u != s {
            reveal(si_tree);
            reveal(si_settled);
            assert(p[u] is Some);
            let pu = p[u].unwrap().0 as int;
            assert(rank[pu] >= 0);
            assert(bott[pu] > 0);
        }
    }
    assert(si_settled(n, pot, s, dist, rank2, bott2, last2)) by {
        reveal(si_settled);
        assert forall|v: int| 0 <= v < n && #[trigger] rank2[v] >= 0 implies {
            &&& dist[v] is Some
            &&& dv(dist, v) <= last2
            &&& bott2[v] > 0
            &&& abs(dv(dist, v) + pv(pot, v) - pv(pot, s)) <= rank2[v] * cost_bound()
        } by {
            if v != u {
                assert(rank[v] >= 0);
            }
        }
    }
    assert(si_dist(g, pot, s, dist, order2)) by {
        reveal(si_dist);
        assert forall|v: int| 0 <= v < n && #[trigger] dist[v] is Some implies {
            &&& reachable(g, s, v)
            &&& abs(dv(dist, v) + pv(pot, v) - pv(pot, s)) <= order2.len() * cost_bound()
        } by {
            assert(order.len() * cost_bound() <= order2.len() * cost_bound()) by (nonlinear_arith)
                requires
                    order.len() <= order2.len(),
            ;
        }
    }
    assert(si_edges(g, pot, dist, rank2, u, 0)) by {
        reveal(si_edges);
        assert forall|a: int, i: int|
            #[trigger] residual(g, a, i) && rank2[a] >= 0 && (a != u || i < 0) implies dist[g[a][i].v] is Some
            && dv(dist, g[a][i].v) <= dv(dist, a) + reduced(g, pot, a, i) by {
            assert(rank[a] >= 0);
        }
    }
    assert(si_tree(g, pot, s, p, dist, rank2, bott2)) by {
        reveal(si_tree);
        assert forall|v: int| 0 <= v < n && #[trigger] p[v] is Some implies {
            let a = p[v].unwrap().0 as int;
            let i = p[v].unwrap().1 as int;
            &&& residual(g, a, i)
            &&& g[a][i].v == v
            &&& rank2[a] >= 0
            &&& dist[a] is Some
            &&& dv(dist, v) == dv(dist, a) + reduced(g, pot, a, i)
            &&& rank2[v] >= 0 ==> rank2[a] < rank2[v] && bott2[v] <= bott2[a] && bott2[v] <= spare(g, a, i)
        } by {
            let a = p[v].unwrap().0 as int;
            assert(rank[a] >= 0);
            assert(a != u);
            assert(rank[a] < order.len()) by {
                reveal(si_order);
            }
        }
    }
    assert(si_queue(g, s, q2, p, dist, rank2, bott2, last2)) by {
        reveal(si_queue);
        assert forall|j: int| 0 <= j < q2.len() implies #[trigger] q2[j] == q[if j < k { j } else { j + 1 }] by {}
        assert forall|j: int| 0 <= j < q2.len() implies {
            let x = #[trigger] q2[j];
            &&& x.u < n
            &&& dist[x.u as int] is Some
            &&& x.w >= dv(dist, x.u as int)
            &&& x.w >= last2
            &&& x.w == dv(dist, x.u as int) ==> rank2[x.u as int] < 0 && x.c == live_c(g, s, p, bott2, x.u as int)
        } by {
            let jj = if j < k { j } else { j + 1 };
            let x = q[jj];
            assert(q2[j] == x);
            if x.w == dv(dist, x.u as int) {
                assert(x.u as int != u) by {
                    if x.u as int == u {
                        assert(jj != k);
                    }
                }
                if x.u as int != s {
                    reveal(si_tree);
                    let a = p[x.u as int].unwrap().0 as int;
                    assert(rank[a] >= 0);
                    assert(a != u);
                }
            }
        }
        assert forall|j: int, l: int|
            0 <= j < q2.len() && 0 <= l < q2.len() && j != l && (#[trigger] q2[j]).u == (
            #[trigger] q2[l]).u implies q2[j].w != q2[l].w by {
            let jj = if j < k { j } else { j + 1 };
            let ll = if l < k { l } else { l + 1 };
            assert(q2[j] == q[jj] && q2[l] == q[ll]);
        }
        assert forall|v: int|
            0 <= v < n && #[trigger] dist[v] is Some && rank2[v] < 0 implies exists|j: int|
            0 <= j < q2.len() && (#[trigger] q2[j]).u == v && q2[j].w == dv(dist, v) by {
            let j0 = choose|j: int| 0 <= j < q.len() && (#[trigger] q[j]).u == v && q[j].w == dv(dist, v);
            assert(v != u);
            assert(j0 != k);
            let j = if j0 < k { j0 } else { j0 - 1 };
            assert(q2[j] == q[j0]);
        }
    }
    if u == t {
        assert(st.tf == -1);
    }
}

/// Moving past edge `done` of `cur` without change.
pub(crate) proof fn lemma_search_skip(g: Network, pot: Seq<Option<i128>>, s: int, t: int, st: SearchState, cur: int, done: int)
    requires
        search_inv(g, pot, s, t, st, cur, done),
        0 <= cur,
        done < g[cur].len(),
        residual(g, cur, done) ==> st.dist[g[cur][done].v] is Some && dv(st.dist, g[cur][done].v)
            <= dv(st.dist, cur) + reduced(g, pot, cur, done),
    ensures
        search_inv(g, pot, s, t, st, cur, done + 1),
{
    reveal(si_edges);
}

/// The state after relaxing edge `i` of `u` to distance `d` with flow `c`.
pub(crate) open spec fn relaxed_state(g: Network, st: SearchState, u: int, i: int, d: i128, c: i64) -> SearchState {
    let v = g[u][i].v;
    SearchState {
        q: st.q.push(Q { u: v as usize, c, w: d }),
        p: st.p.update(v, Some((u as usize, i as usize))),
        dist: st.dist.update(v, Some(d)),
        ..st
    }
}

/// Relaxing edge `done` of `cur` to a strictly shorter distance.
#[verifier::spinoff_prover]
#[verifier::rlimit(50)]
pub(crate) proof fn lemma_search_relax(g: Network, pot: Seq<Option<i128>>, s: int, t: int, st: SearchState, cur: int, done: int, d: i128, c: i64)
    requires
        search_inv(g, pot, s, t, st, cur, done),
        potential_ok(g, pot, s),
        costs_fit(g),
        crate::network::well_formed(g),
        g.len() <= usize::MAX,
        0 <= cur < g.len(),
        g[cur].len() <= usize::MAX,
        done < g[cur].len(),
        residual(g, cur, done),
        d == dv(st.dist, cur) + reduced(g, pot, cur, done),
        st.dist[g[cur][done].v] is None || d < dv(st.dist, g[cur][done].v),
        c == min(st.bott[cur], spare(g, cur, done)),
    ensures
        search_inv(g, pot, s, t, relaxed_state(g, st, cur, done, d, c), cur, done + 1),
{
    reveal(potential_ok);
    let n = g.len() as int;
    let u = cur;
    let i = done;
    let v = g[u][i].v;
    let q = st.q;
    let p = st.p;
    let dist = st.dist;
    let rank = st.rank;
    let bott = st.bott;
    let order = st.order;
    let last = st.last;
    let st2 = relaxed_state(g, st, u, i, d, c);
    let q2 = st2.q;
    let p2 = st2.p;
    let dist2 = st2.dist;
    assert(0 <= v < n) by {
        assert(crate::network::is_edge(g, u, i));
        assert(crate::network::edge_ok(g, u, i));
    }
    assert(reachable(g, s, u) && abs(dv(dist, u) + pv(pot, u) - pv(pot, s)) <= rank[u] * cost_bound()) by {
        reveal(si_dist);
        reveal(si_settled);
    }
    lemma_reachable_step(g, s, u, i);
    assert(reduced(g, pot, u, i) >= 0);
    assert(d >= last);
    // v is neither settled nor the source
    assert(rank[v] < 0) by {
        reveal(si_settled);
        if rank[v] >= 0 {
            assert(dist[v] is Some && dv(dist, v) <= last);
        }
    }
    assert(u != v);
    assert(v != s && rank[u] < order.len()) by {
        reveal(si_order);
        assert(order.len() > 0);
        assert(rank[s] == 0);
    }
    assert(-cost_bound() <= g[u][i].cost < cost_bound());
    assert(abs(d + pv(pot, v) - pv(pot, s)) <= order.len() * cost_bound()) by {
        assert(d + pv(pot, v) - pv(pot, s) == (dv(dist, u) + pv(pot, u) - pv(pot, s)) + g[u][i].cost);
        assert((rank[u] + 1) * cost_bound() <= order.len() * cost_bound()) by (nonlinear_arith)
            requires
                rank[u] + 1 <= order.len(),
        ;
        assert((rank[u] + 1) * cost_bound() == rank[u] * cost_bound() + cost_bound()) by (nonlinear_arith);
    }
    assert(si_order(n, s, dist2, rank, order)) by {
        reveal(si_order);
        assert(order.len() > 0);
    }
    assert(si_settled(n, pot, s, dist2, rank, bott, last)) by {
        reveal(si_settled);
        assert forall|x: int| 0 <= x < n && #[trigger] rank[x] >= 0 implies {
            &&& dist2[x] is Some
            &&& dv(dist2, x) <= last
            &&& bott[x] > 0
            &&& abs(dv(dist2, x) + pv(pot, x) - pv(pot, s)) <= rank[x] * cost_bound()
        } by {
            assert(x != v);
        }
    }
    assert(si_dist(g, pot, s, dist2, order)) by {
        reveal(si_dist);
        assert forall|x: int| 0 <= x < n && #[trigger] dist2[x] is Some implies {
            &&& reachable(g, s, x)
            &&& abs(dv(dist2, x) + pv(pot, x) - pv(pot, s)) <= order.len() * cost_bound()
        } by {
            if x != v {
                assert(dist[x] is Some);
            }
        }
    }
    assert(si_edges(g, pot, dist2, rank, cur, done + 1)) by {
        reveal(si_edges);
        assert forall|a: int, j: int|
            #[trigger] residual(g, a, j) && rank[a] >= 0 && (a != cur || j < done + 1) implies dist2[g[a][j].v] is Some
            && dv(dist2, g[a][j].v) <= dv(dist2, a) + reduced(g, pot, a, j) by {
            assert(a != v);
            if a == cur && j == done {
            } else {
                assert(dist[g[a][j].v] is Some);
            }
        }
    }
    assert(si_tree(g, pot, s, p2, dist2, rank, bott)) by {
        reveal(si_tree);
        assert forall|x: int| 0 <= x < n && x != s implies (#[trigger] dist2[x] is Some <==> p2[x] is Some) by {
            if x != v {
                assert(dist[x] is Some <==> p[x] is Some);
            }
        }
        assert forall|x: int| 0 <= x < n && #[trigger] p2[x] is Some implies {
            let a = p2[x].unwrap().0 as int;
            let j = p2[x].unwrap().1 as int;
            &&& residual(g, a, j)
            &&& g[a][j].v == x
            &&& rank[a] >= 0
            &&& dist2[a] is Some
            &&& dv(dist2, x) == dv(dist2, a) + reduced(g, pot, a, j)
            &&& rank[x] >= 0 ==> rank[a] < rank[x] && bott[x] <= bott[a] && bott[x] <= spare(g, a, j)
        } by {
            if x != v {
                let a = p[x].unwrap().0 as int;
                assert(rank[a] >= 0);
                assert(a != v);
            } else {
                assert(dist[u] is Some) by {
                    reveal(si_settled);
                }
                assert(dist2[u] == dist[u]);
                assert(p2[x] == Some((u as usize, i as usize)));
            }
        }
    }
    assert(si_queue(g, s, q2, p2, dist2, rank, bott, last)) by {
        reveal(si_queue);
        assert forall|k: int| 0 <= k < q2.len() implies {
            let e = #[trigger] q2[k];
            &&& e.u < n
            &&& dist2[e.u as int] is Some
            &&& e.w >= dv(dist2, e.u as int)
            &&& e.w >= last
            &&& e.w == dv(dist2, e.u as int) ==> rank[e.u as int] < 0 && e.c == live_c(g, s, p2, bott, e.u as int)
        } by {
            if k < q.len() {
                let e = q[k];
                assert(q2[k] == e);
                if e.u as int == v {
                    assert(e.w >= dv(dist, v));
                }
            }
        }
        assert forall|j: int, k: int|
            0 <= j < q2.len() && 0 <= k < q2.len() && j != k && (#[trigger] q2[j]).u == (#[trigger] q2[k]).u
            implies q2[j].w != q2[k].w by {
            if j < q.len() && k < q.len() {
                assert(q2[j] == q[j] && q2[k] == q[k]);
            } else if j < q.len() {
                assert(q2[j] == q[j]);
                assert(q[j].u as int == v);
                assert(q[j].w >= dv(dist, v));
            } else {
                assert(q2[k] == q[k]);
                assert(q[k].u as int == v);
                assert(q[k].w >= dv(dist, v));
            }
        }
        assert forall|x: int|
            0 <= x < n && #[trigger] dist2[x] is Some && rank[x] < 0 implies exists|k: int|
            0 <= k < q2.len() && (#[trigger] q2[k]).u == x && q2[k].w == dv(dist2, x) by {
            if x == v {
                assert(q2[q.len() as int].u == x);
            } else {
                let k0 = choose|k: int| 0 <= k < q.len() && (#[trigger] q[k]).u == x && q[k].w == dv(dist, x);
                assert(q2[k0] == q[k0]);
            }
        }
    }
}

/// All edges of `cur` relaxed.
pub(crate) proof fn lemma_search_next(g: Network, pot: Seq<Option<i128>>, s: int, t: int, st: SearchState, cur: int)
    requires
        0 <= cur,
        search_inv(g, pot, s, t, st, cur, g[cur].len() as int),
    ensures
        search_inv(g, pot, s, t, st, -1, 0),
{
    reveal(si_edges);
}

/// With the queue empty the search is complete.
pub(crate) proof fn lemma_search_done(g: Network, pot: Seq<Option<i128>>, s: int, t: int, st: SearchState)
    requires
        search_inv(g, pot, s, t, st, -1, 0),
        st.q.len() == 0,
    ensures
        tree_ok(g, pot, s, st.p, st.dist, st.rank, st.bott),
        st.dist[t] is Some ==> st.tf == st.bott[t] && st.tf > 0,
        st.dist[t] is None ==> st.tf == -1,
{
    reveal(tree_ok);
    let n = g.len() as int;
    let p = st.p;
    let dist = st.dist;
    let rank = st.rank;
    let bott = st.bott;
    reveal(si_queue);
    reveal(si_settled);
    reveal(si_order);
    reveal(si_dist);
    reveal(si_edges);
    reveal(si_tree);
    assert forall|v: int| 0 <= v < n && #[trigger] dist[v] is Some implies rank[v] >= 0 by {
        if rank[v] < 0 {
            let k = choose|k: int| 0 <= k < st.q.len() && (#[trigger] st.q[k]).u == v;
        }
    }
    assert(rank[s] == 0) by {
        assert(rank[s] >= 0);
    }
    assert forall|v: int| 0 <= v < n && #[trigger] dist[v] is Some implies {
        &&& reachable(g, s, v)
        &&& 0 <= rank[v] < n
        &&& abs(dv(dist, v) + pv(pot, v) - pv(pot, s)) <= rank[v] * cost_bound()
    } by {
        assert(rank[v] >= 0);
    }
    assert forall|u: int, i: int|
        #[trigger] residual(g, u, i) && dist[u] is Some implies dist[g[u][i].v] is Some && dv(
            dist,
            g[u][i].v,
        ) <= dv(dist, u) + reduced(g, pot, u, i) by {
        assert(rank[u] >= 0);
    }
    assert forall|v: int| 0 <= v < n && #[trigger] p[v] is Some implies parent_ok(g, pot, p, dist, rank, bott, v) by {
        assert(dist[v] is Some);
        assert(rank[v] >= 0);
    }
    if dist[t] is Some {
        assert(rank[t] >= 0);
    } else {
        if rank[t] >= 0 {
            assert(dist[t] is Some);
        }
    }
}

/// Facts of the search invariant that the loop itself needs.
pub(crate) proof fn lemma_search_facts(g: Network, pot: Seq<Option<i128>>, s: int, t: int, st: SearchState, cur: int, done: int)
    requires
        search_inv(g, pot, s, t, st, cur, done),
    ensures
        st.order.len() <= g.len(),
        forall|k: int| 0 <= k < st.q.len() ==> (#[trigger] st.q[k]).u < g.len() && st.dist[st.q[k].u as int] is Some,
        cur >= 0 ==> st.rank[cur] < st.order.len() && st.dist[cur] is Some && abs(
            dv(st.dist, cur) + pv(pot, cur) - pv(pot, s),
        ) <= st.rank[cur] * cost_bound(),
{
    reveal(si_order);
    reveal(si_queue);
    reveal(si_settled);
}

} // verus!

verus! {

/// `g[x][k]` is the tree edge into a node of `h`.
pub(crate) open spec fn tree_fwd(g: Network, p: Seq<Option<(usize, usize)>>, h: Set<int>, x: int, k: int) -> bool {
    let y = g[x][k].v;
    h.contains(y) && p[y] is Some && p[y].unwrap().0 as int == x && p[y].unwrap().1 as int == k
}

/// `g[x][k]` is the reverse of the tree edge into `x`, a node of `h`.
pub(crate) open spec fn tree_bwd(g: Network, p: Seq<Option<(usize, usize)>>, h: Set<int>, x: int, k: int) -> bool {
    h.contains(x) && p[x] is Some && k == g[p[x].unwrap().0 as int][p[x].unwrap().1 as int].r
}

/// `g1` is `g0` with `f` more units on the tree edges into the nodes of `h`
/// (and `f` fewer on their reverses).
pub(crate) open spec fn augmented(g0: Network, g1: Network, p: Seq<Option<(usize, usize)>>, h: Set<int>, f: int) -> bool {
    &&& same_shape(g0, g1)
    &&& forall|x: int, k: int|
        #[trigger] is_edge(g0, x, k) ==> g1[x][k].f == g0[x][k].f + (if tree_fwd(g0, p, h, x, k) {
            f
        } else {
            0
        }) - (if tree_bwd(g0, p, h, x, k) {
            f
        } else {
            0
        })
}

/// The potentials after adding the distances of the nodes reached.
pub(crate) open spec fn shifted(pot: Seq<Option<i128>>, dist: Seq<Option<i128>>) -> Seq<Option<i128>> {
    Seq::new(
        pot.len(),
        |v: int|
            if dist[v] is Some {
                Some((pv(pot, v) + dv(dist, v)) as i128)
            } else {
                pot[v]
            },
    )
}

/// After augmenting along the tree, every node reachable from `s` was
/// reached by the search.
proof fn lemma_reached_after(
    g0: Network,
    g1: Network,
    pot: Seq<Option<i128>>,
    s: int,
    p: Seq<Option<(usize, usize)>>,
    dist: Seq<Option<i128>>,
    rank: Seq<int>,
    bott: Seq<int>,
    h: Set<int>,
    f: int,
    w: Seq<(int, int)>,
)
    requires
        well_formed(g0),
        tree_ok(g0, pot, s, p, dist, rank, bott),
        augmented(g0, g1, p, h, f),
        f > 0,
        forall|x: int| #[trigger] h.contains(x) ==> 0 <= x < g0.len() && p[x] is Some,
        is_walk(g1, s, w),
    ensures
        dist[walk_end(g1, s, w)] is Some,
    decreases w.len(),
{
    reveal(tree_ok);
    if w.len() > 0 {
        let w1 = w.drop_last();
        lemma_walk_subrange(g1, s, w, 0, w.len() - 1);
        assert(w1 =~= w.subrange(0, w.len() - 1));
        lemma_reached_after(g0, g1, pot, s, p, dist, rank, bott, h, f, w1);
        let x = w[w.len() - 1].0;
        let k = w[w.len() - 1].1;
        assert(residual(g1, x, k));
        assert(x == node_at(g1, s, w, w.len() - 1));
        assert(is_edge(g0, x, k));
        if residual(g0, x, k) {
        } else {
            assert(tree_bwd(g0, p, h, x, k));
            let y = p[x].unwrap().0 as int;
            let j = p[x].unwrap().1 as int;
            assert(parent_ok(g0, pot, p, dist, rank, bott, x));
            assert(is_edge(g0, y, j));
            assert(edge_ok(g0, y, j));
        }
    }
}

/// Shifting the potentials by the distances keeps reduced costs
/// non-negative in the augmented network.
pub(crate) proof fn lemma_potential_shift(
    g0: Network,
    g1: Network,
    pot: Seq<Option<i128>>,
    s: int,
    p: Seq<Option<(usize, usize)>>,
    dist: Seq<Option<i128>>,
    rank: Seq<int>,
    bott: Seq<int>,
    h: Set<int>,
    f: int,
)
    requires
        well_formed(g0),
        g0.len() <= 0x1_0000_0000,
        potential_ok(g0, pot, s),
        tree_ok(g0, pot, s, p, dist, rank, bott),
        augmented(g0, g1, p, h, f),
        f > 0,
        forall|x: int| #[trigger] h.contains(x) ==> 0 <= x < g0.len() && p[x] is Some,
    ensures
        potential_ok(g1, shifted(pot, dist), s),
{
    reveal(tree_ok);
    reveal(potential_ok);
    let n = g0.len() as int;
    let pot1 = shifted(pot, dist);
    assert forall|v: int| 0 <= v < n implies -pot_bound() <= #[trigger] pv(pot1, v) <= pot_bound() by {
        if dist[v] is Some {
            assert(rank[v] * cost_bound() <= n * cost_bound()) by (nonlinear_arith)
                requires
                    rank[v] <= n,
            ;
            assert(n * cost_bound() <= 0x1_0000_0000 * cost_bound()) by (nonlinear_arith)
                requires
                    n <= 0x1_0000_0000,
            ;
            assert(pv(pot1, v) == pv(pot, v) + dv(dist, v));
        } else {
            assert(pot1[v] == pot[v]);
        }
    }
    assert(pot1[s] == pot[s]) by {
        assert(dist[s] == Some(0i128));
    }
    assert forall|u: int, i: int|
        reachable(g1, s, u) && #[trigger] residual(g1, u, i) implies reduced(g1, pot1, u, i) >= 0 by {
        let w = choose|w: Seq<(int, int)>| is_walk(g1, s, w) && walk_end(g1, s, w) == u;
        lemma_reached_after(g0, g1, pot, s, p, dist, rank, bott, h, f, w);
        assert(is_edge(g0, u, i));
        let v = g0[u][i].v;
        assert(g1[u][i].v == v && g1[u][i].cost == g0[u][i].cost);
        if residual(g0, u, i) {
            assert(dist[v] is Some);
            assert(dv(dist, v) <= dv(dist, u) + reduced(g0, pot, u, i));
        } else {
            assert(tree_bwd(g0, p, h, u, i));
            let y = p[u].unwrap().0 as int;
            let j = p[u].unwrap().1 as int;
            assert(parent_ok(g0, pot, p, dist, rank, bott, u));
            assert(is_edge(g0, y, j));
            assert(edge_ok(g0, y, j));
            assert(v == y);
            assert(g0[u][i].cost == -g0[y][j].cost);
        }
    }
}

/// After augmenting along a shortest-path tree, a residual edge out of a
/// reached node leads to a reached node, with a non-negative reduced cost
/// under the shifted potentials.
proof fn lemma_shift_inside(
    g0: Network,
    g1: Network,
    pot: Seq<Option<i128>>,
    s: int,
    p: Seq<Option<(usize, usize)>>,
    dist: Seq<Option<i128>>,
    rank: Seq<int>,
    bott: Seq<int>,
    h: Set<int>,
    f: int,
    d: Seq<bool>,
)
    requires
        well_formed(g0),
        g0.len() <= 0x1_0000_0000,
        potential_ok(g0, pot, s),
        tree_ok(g0, pot, s, p, dist, rank, bott),
        augmented(g0, g1, p, h, f),
        forall|x: int| #[trigger] h.contains(x) ==> 0 <= x < g0.len() && p[x] is Some,
        d == Seq::new(g0.len() as nat, |x: int| dist[x] is Some),
    ensures
        forall|u: int, i: int| #[trigger] residual(g1, u, i) && d[u] ==> 0 <= g1[u][i].v < g1.len() && d[g1[u][i].v]
            && reduced(g1, shifted(pot, dist), u, i) >= 0,
{
    let pot1 = shifted(pot, dist);
    let n = g0.len() as int;
    assert forall|v: int| 0 <= v < n && #[trigger] dist[v] is Some implies pv(pot1, v) == pv(pot, v) + dv(dist, v) by {
        reveal(tree_ok);
        reveal(potential_ok);
        assert(rank[v] * cost_bound() <= n * cost_bound()) by (nonlinear_arith)
            requires
                rank[v] <= n,
        ;
        assert(n * cost_bound() <= 0x1_0000_0000 * cost_bound()) by (nonlinear_arith)
            requires
                n <= 0x1_0000_0000,
        ;
    }
    assert forall|u: int, i: int| #[trigger] residual(g1, u, i) && d[u] implies 0 <= g1[u][i].v < g1.len() && d[g1[u][i].v]
        && reduced(g1, pot1, u, i) >= 0 by {
        reveal(tree_ok);
        reveal(potential_ok);
        assert(is_edge(g0, u, i));
        assert(edge_ok(g0, u, i));
        let v = g0[u][i].v;
        assert(g1[u][i].v == v && g1[u][i].cost == g0[u][i].cost);
        assert(pv(pot1, u) == pv(pot, u) + dv(dist, u));
        if residual(g0, u, i) {
            assert(dist[v] is Some);
            assert(pv(pot1, v) == pv(pot, v) + dv(dist, v));
            assert(dv(dist, v) <= dv(dist, u) + reduced(g0, pot, u, i));
        } else {
            assert(tree_bwd(g0, p, h, u, i));
            let y = p[u].unwrap().0 as int;
            let j = p[u].unwrap().1 as int;
            assert(parent_ok(g0, pot, p, dist, rank, bott, u));
            assert(is_edge(g0, y, j));
            assert(edge_ok(g0, y, j));
            assert(v == y);
            assert(pv(pot1, v) == pv(pot, v) + dv(dist, v));
            assert(g0[u][i].cost == -g0[y][j].cost);
        }
    }
}

/// After augmenting along a shortest-path tree, a residual edge out of a node
/// that was not reached was residual before.
proof fn lemma_shift_outside(
    g0: Network,
    g1: Network,
    pot: Seq<Option<i128>>,
    s: int,
    p: Seq<Option<(usize, usize)>>,
    dist: Seq<Option<i128>>,
    rank: Seq<int>,
    bott: Seq<int>,
    h: Set<int>,
    f: int,
    d: Seq<bool>,
)
    requires
        tree_ok(g0, pot, s, p, dist, rank, bott),
        augmented(g0, g1, p, h, f),
        forall|x: int| #[trigger] h.contains(x) ==> 0 <= x < g0.len() && p[x] is Some,
        d == Seq::new(g0.len() as nat, |x: int| dist[x] is Some),
    ensures
        forall|u: int, i: int| #[trigger] residual(g1, u, i) && !d[u] ==> residual(g0, u, i),
{
    assert forall|u: int, i: int| #[trigger] residual(g1, u, i) && !d[u] implies residual(g0, u, i) by {
        reveal(tree_ok);
        assert(is_edge(g0, u, i));
        if tree_fwd(g0, p, h, u, i) {
            let y = g0[u][i].v;
            assert(parent_ok(g0, pot, p, dist, rank, bott, y));
        }
        if tree_bwd(g0, p, h, u, i) {
            assert(p[u] is Some);
        }
    }
}

/// Augmenting along a shortest-path tree keeps every node of the network
/// free of negative residual cycles when it was so before.
pub(crate) proof fn lemma_shift_global(
    g0: Network,
    g1: Network,
    pot: Seq<Option<i128>>,
    s: int,
    p: Seq<Option<(usize, usize)>>,
    dist: Seq<Option<i128>>,
    rank: Seq<int>,
    bott: Seq<int>,
    h: Set<int>,
    f: int,
)
    requires
        well_formed(g0),
        g0.len() <= 0x1_0000_0000,
        potential_ok(g0, pot, s),
        tree_ok(g0, pot, s, p, dist, rank, bott),
        augmented(g0, g1, p, h, f),
        forall|x: int| #[trigger] h.contains(x) ==> 0 <= x < g0.len() && p[x] is Some,
        forall|y: int| 0 <= y < g0.len() ==> #[trigger] no_negative_cycle_from(g0, y),
    ensures
        forall|y: int| 0 <= y < g1.len() ==> #[trigger] no_negative_cycle_from(g1, y),
{
    let n = g0.len() as int;
    let pot1 = shifted(pot, dist);
    let d = Seq::new(n as nat, |x: int| dist[x] is Some);
    lemma_shift_inside(g0, g1, pot, s, p, dist, rank, bott, h, f, d);
    lemma_shift_outside(g0, g1, pot, s, p, dist, rank, bott, h, f, d);
    assert forall|u: int, i: int| #[trigger] is_edge(g1, u, i) implies is_edge(g0, u, i) && g0[u][i].v == g1[u][i].v
        && g0[u][i].cost == g1[u][i].cost by {
        assert(is_edge(g0, u, i));
    }
    assert forall|y: int| 0 <= y < g1.len() implies #[trigger] no_negative_cycle_from(g1, y) by {
        assert forall|z: int, c: Seq<Step>|
            reachable(g1, y, z) && is_walk(g1, z, c) && walk_end(g1, z, c) == z implies walk_cost(g1, c) >= 0 by {
            if c.len() > 0 {
                assert(residual(g1, c[0].0, c[0].1) && c[0].0 == node_at(g1, z, c, 0));
                assert(is_edge(g0, c[0].0, c[0].1));
                assert(0 <= z < n);
                if d[z] {
                    lemma_walk_reduced_in(g1, pot1, d, z, c);
                } else {
                    lemma_walk_outside(g0, g1, d, z, c);
                    lemma_reachable_self(g0, z);
                    assert(no_negative_cycle_from(g0, z));
                }
            }
        }
    }
}

/// Adding the distances keeps the source's potential and brings every node
/// reached within `n` times the cost bound of it.
pub(crate) proof fn lemma_shift_bound(
    g: Network,
    pot: Seq<Option<i128>>,
    s: int,
    p: Seq<Option<(usize, usize)>>,
    dist: Seq<Option<i128>>,
    rank: Seq<int>,
    bott: Seq<int>,
    b: int,
)
    requires
        tree_ok(g, pot, s, p, dist, rank, bott),
        0 <= s < g.len() <= 0x1_0000_0000,
        pot.len() == g.len(),
        forall|v: int| 0 <= v < g.len() ==> #[trigger] pot[v] is Some,
        0 <= b <= pot_bound(),
        -b <= pv(pot, s) <= b,
        forall|v: int| 0 <= v < g.len() ==> -b - g.len() * cost_bound() <= #[trigger] pv(pot, v) <= b + g.len() * cost_bound(),
    ensures
        pv(shifted(pot, dist), s) == pv(pot, s),
        forall|v: int|
            0 <= v < g.len() ==> -b - g.len() * cost_bound() <= #[trigger] pv(shifted(pot, dist), v) <= b + g.len()
                * cost_bound(),
{
    reveal(tree_ok);
    let n = g.len() as int;
    let pot1 = shifted(pot, dist);
    assert(dist[s] == Some(0i128));
    assert forall|v: int| 0 <= v < n implies -b - n * cost_bound() <= #[trigger] pv(pot1, v) <= b + n * cost_bound() by {
        if dist[v] is Some {
            assert(rank[v] * cost_bound() <= n * cost_bound()) by (nonlinear_arith)
                requires
                    rank[v] <= n,
            ;
            assert(n * cost_bound() <= 0x1_0000_0000 * cost_bound()) by (nonlinear_arith)
                requires
                    n <= 0x1_0000_0000,
            ;
            assert(abs(dv(dist, v) + pv(pot, v) - pv(pot, s)) <= rank[v] * cost_bound());
            assert(pv(pot1, v) == pv(pot, v) + dv(dist, v));
        } else {
            assert(pot1[v] == pot[v]);
        }
    }
}

} // verus!

verus! {

#[verifier::opaque]
/// The invariant of the walk back from `t` along the tree: the tree edges
/// into the nodes of `done` carry `f` more units, `head` is the next node
/// whose tree edge is to be used, and `cost` the cost added so far.
pub(crate) open spec fn aug_inv(
    g0: Network,
    g: Network,
    pot: Seq<Option<i128>>,
    s: int,
    t: int,
    p: Seq<Option<(usize, usize)>>,
    dist: Seq<Option<i128>>,
    rank: Seq<int>,
    bott: Seq<int>,
    f: int,
    done: Set<int>,
    head: int,
    cost: int,
) -> bool {
    let n = g0.len() as int;
    &&& tree_ok(g0, pot, s, p, dist, rank, bott)
    &&& well_formed(g0)
    &&& well_formed(g)
    &&& s != t
    &&& costs_fit(g0)
    &&& n <= 0x1_0000_0000
    &&& 0 <= s < n && 0 <= t < n
    &&& f == bott[t]
    &&& 0 < f <= 0x7fff_ffff_ffff_ffff
    &&& 0 <= head < n
    &&& dist[head] is Some
    &&& f <= bott[head]
    &&& !done.contains(head)
    &&& forall|x: int| #[trigger] done.contains(x) ==> 0 <= x < n && p[x] is Some && rank[x] > rank[head]
    &&& augmented(g0, g, p, done, f)
    &&& forall|x: int|
        0 <= x < n ==> #[trigger] net_flow(g, x) == net_flow(g0, x) + (if x == head {
            f
        } else {
            0
        }) - (if x == t {
            f
        } else {
            0
        })
    &&& spare_out(g, s) == spare_out(g0, s) - (if head == s {
        f
    } else {
        0
    })
    &&& flow_cost(g) == flow_cost(g0) + 2 * cost
    &&& 0 <= rank[head] <= rank[t] < n
    &&& abs(cost) <= f * ((rank[t] - rank[head]) * cost_bound())
}

pub(crate) proof fn lemma_aug_start(g0: Network, pot: Seq<Option<i128>>, s: int, t: int, p: Seq<Option<(usize, usize)>>, dist: Seq<Option<i128>>, rank: Seq<int>, bott: Seq<int>, f: int)
    requires
        tree_ok(g0, pot, s, p, dist, rank, bott),
        well_formed(g0),
        costs_fit(g0),
        g0.len() <= 0x1_0000_0000,
        0 <= s < g0.len(),
        0 <= t < g0.len(),
        s != t,
        dist[t] is Some,
        f == bott[t],
        0 < f <= 0x7fff_ffff_ffff_ffff,
    ensures
        aug_inv(g0, g0, pot, s, t, p, dist, rank, bott, f, Set::empty(), t, 0),
{
    reveal(tree_ok);
    reveal(aug_inv);
    assert(same_shape(g0, g0));
    assert(augmented(g0, g0, p, Set::empty(), f));
    assert(f * ((rank[t] - rank[t]) * cost_bound()) == 0) by (nonlinear_arith);
}

/// One step back along the tree: the tree edge `(u, i)` into `head`.
pub(crate) proof fn lemma_aug_step(
    g0: Network,
    g: Network,
    pot: Seq<Option<i128>>,
    s: int,
    t: int,
    p: Seq<Option<(usize, usize)>>,
    dist: Seq<Option<i128>>,
    rank: Seq<int>,
    bott: Seq<int>,
    f: int,
    done: Set<int>,
    head: int,
    cost: int,
)
    requires
        aug_inv(g0, g, pot, s, t, p, dist, rank, bott, f, done, head, cost),
        p[head] is Some,
    ensures
        ({
            let u = p[head].unwrap().0 as int;
            let i = p[head].unwrap().1 as int;
            &&& is_edge(g, u, i)
            &&& g[u][i].v == head
            &&& g[u][i].v != u
            &&& g[u][i].f + f <= g[u][i].cap
            &&& g[u][i].cost == g0[u][i].cost
            &&& is_edge(g, head, g[u][i].r)
            &&& g[head][g[u][i].r].v == u
            &&& rank[u] < rank[head]
            &&& abs(cost + f * g[u][i].cost) <= f * (g0.len() * cost_bound())
            &&& abs(cost + f * g[u][i].cost) <= 0x4000_0000_0000_0000_0000_0000_0000_0000
            &&& 0 <= rank[u]
            &&& aug_inv(
                g0,
                push_flow(g, u, i, f),
                pot,
                s,
                t,
                p,
                dist,
                rank,
                bott,
                f,
                done.insert(head),
                u,
                cost + f * g[u][i].cost,
            )
        }),
{
    reveal(tree_ok);
    reveal(aug_inv);
    let n = g0.len() as int;
    let u = p[head].unwrap().0 as int;
    let i = p[head].unwrap().1 as int;
    assert(parent_ok(g0, pot, p, dist, rank, bott, head));
    assert(is_edge(g0, u, i));
    assert(edge_ok(g0, u, i));
    assert(!tree_fwd(g0, p, done, u, i));
    assert(!tree_bwd(g0, p, done, u, i)) by {
        if done.contains(u) {
            assert(rank[u] > rank[head]);
        }
    }
    assert(g[u][i].f == g0[u][i].f);
    assert(0 <= rank[u]) by {
        assert(dist[u] is Some);
    }
    assert(head != s) by {
        assert(p[s] is None);
    }
    let r = g0[u][i].r;
    assert(is_edge(g0, head, r));
    assert(is_edge(g, head, r) && g[head][r].v == u);
    lemma_push_flow(g, u, i, f);
    let g2 = push_flow(g, u, i, f);
    let c = g[u][i].cost;
    assert(-cost_bound() <= c < cost_bound());
    assert(abs(f * c) <= f * cost_bound()) by (nonlinear_arith)
        requires
            f > 0,
            -cost_bound() <= c < cost_bound(),
    ;
    assert(f * ((rank[t] - rank[head]) * cost_bound()) + f * cost_bound() == f * ((rank[t] - rank[u])
        * cost_bound()) - f * ((rank[head] - rank[u] - 1) * cost_bound())) by (nonlinear_arith);
    assert(f * ((rank[head] - rank[u] - 1) * cost_bound()) >= 0) by (nonlinear_arith)
        requires
            f > 0,
            rank[head] - rank[u] - 1 >= 0,
    ;
    assert(f * ((rank[t] - rank[u]) * cost_bound()) <= f * (n * cost_bound())) by (nonlinear_arith)
        requires
            f > 0,
            rank[t] - rank[u] <= n,
    ;
    let done2 = done.insert(head);
    assert forall|x: int, k: int| #[trigger] is_edge(g0, x, k) implies g2[x][k].f == g0[x][k].f + (
    if tree_fwd(g0, p, done2, x, k) {
        f
    } else {
        0
    }) - (if tree_bwd(g0, p, done2, x, k) {
        f
    } else {
        0
    }) by {
        assert(is_edge(g, x, k));
        if tree_fwd(g0, p, done2, x, k) && !tree_fwd(g0, p, done, x, k) {
            assert(g0[x][k].v == head);
            assert(x == u && k == i);
        }
        if x == u && k == i {
            assert(tree_fwd(g0, p, done2, x, k));
        }
        if tree_bwd(g0, p, done2, x, k) && !tree_bwd(g0, p, done, x, k) {
            assert(x == head);
        }
        if x == head && k == r {
            assert(tree_bwd(g0, p, done2, x, k));
            assert(!tree_fwd(g0, p, done2, x, k)) by {
                assert(g0[x][k].v == u);
                if done2.contains(u) {
                    assert(rank[u] > rank[head] || u == head);
                }
            }
        }
    }
    assert(same_shape(g0, g2));
    assert forall|x: int| #[trigger] done2.contains(x) implies 0 <= x < n && p[x] is Some && rank[x] > rank[u] by {
        if x != head {
            assert(done.contains(x));
        }
    }
    assert forall|x: int| 0 <= x < n implies #[trigger] net_flow(g2, x) == net_flow(g0, x) + (if x == u {
        f
    } else {
        0
    }) - (if x == t {
        f
    } else {
        0
    }) by {
        assert(net_flow(g, x) == net_flow(g0, x) + (if x == head {
            f
        } else {
            0
        }) - (if x == t {
            f
        } else {
            0
        }));
    }
    if u != s {
        assert(spare_out(g2, s) == spare_out(g, s));
    }
    assert(2 * f * c == 2 * (f * c)) by (nonlinear_arith);
    assert(f * (n * cost_bound()) <= 0x7fff_ffff_ffff_ffff * (0x1_0000_0000 * cost_bound())) by (nonlinear_arith)
        requires
            0 < f <= 0x7fff_ffff_ffff_ffff,
            n <= 0x1_0000_0000,
    ;
}

/// Facts of the walk's invariant needed by its loop.
pub(crate) proof fn lemma_aug_facts(
    g0: Network,
    g: Network,
    pot: Seq<Option<i128>>,
    s: int,
    t: int,
    p: Seq<Option<(usize, usize)>>,
    dist: Seq<Option<i128>>,
    rank: Seq<int>,
    bott: Seq<int>,
    f: int,
    done: Set<int>,
    head: int,
    cost: int,
)
    requires
        aug_inv(g0, g, pot, s, t, p, dist, rank, bott, f, done, head, cost),
    ensures
        0 <= rank[head],
        well_formed(g),
        same_shape(g0, g),
        p[head] is None ==> head == s,
        head == s ==> {
            &&& augmented(g0, g, p, done, f)
            &&& forall|x: int| #[trigger] done.contains(x) ==> 0 <= x < g0.len() && p[x] is Some
            &&& forall|x: int|
                0 <= x < g0.len() ==> #[trigger] net_flow(g, x) == net_flow(g0, x) + (if x == s {
                    f
                } else {
                    0
                }) - (if x == t {
                    f
                } else {
                    0
                })
            &&& spare_out(g, s) == spare_out(g0, s) - f
            &&& flow_cost(g) == flow_cost(g0) + 2 * cost
            &&& abs(cost) <= f * (g0.len() * cost_bound())
        },
{
    reveal(tree_ok);
    reveal(aug_inv);
    let n = g0.len() as int;
    if head != s {
        assert(dist[head] is Some);
    }
    if head == s {
        assert(rank[s] == 0);
        assert(f * ((rank[t] - rank[head]) * cost_bound()) <= f * (n * cost_bound())) by (nonlinear_arith)
            requires
                f > 0,
                rank[t] - rank[head] <= n,
        ;
    }
}

} // verus!

verus! {

/// Every node reachable from `s` was reached by the search.
pub(crate) proof fn lemma_tree_reach(
    g: Network,
    pot: Seq<Option<i128>>,
    s: int,
    p: Seq<Option<(usize, usize)>>,
    dist: Seq<Option<i128>>,
    rank: Seq<int>,
    bott: Seq<int>,
    w: Seq<(int, int)>,
)
    requires
        tree_ok(g, pot, s, p, dist, rank, bott),
        is_walk(g, s, w),
    ensures
        dist[walk_end(g, s, w)] is Some,
    decreases w.len(),
{
    reveal(tree_ok);
    if w.len() > 0 {
        let w1 = w.drop_last();
        lemma_walk_subrange(g, s, w, 0, w.len() - 1);
        assert(w1 =~= w.subrange(0, w.len() - 1));
        lemma_tree_reach(g, pot, s, p, dist, rank, bott, w1);
        let x = w[w.len() - 1].0;
        let k = w[w.len() - 1].1;
        assert(residual(g, x, k));
        assert(x == node_at(g, s, w, w.len() - 1));
    }
}

} // verus!

verus! {

/// The shifted potentials stay within bounds.
pub(crate) proof fn lemma_shift_fits(
    g: Network,
    pot: Seq<Option<i128>>,
    s: int,
    p: Seq<Option<(usize, usize)>>,
    dist: Seq<Option<i128>>,
    rank: Seq<int>,
    bott: Seq<int>,
)
    requires
        g.len() <= 0x1_0000_0000,
        potential_ok(g, pot, s),
        tree_ok(g, pot, s, p, dist, rank, bott),
    ensures
        pot.len() == g.len(),
        dist.len() == g.len(),
        forall|v: int| 0 <= v < g.len() ==> #[trigger] pot[v] is Some,
        forall|v: int|
            0 <= v < g.len() && #[trigger] dist[v] is Some ==> -pot_bound() <= pv(pot, v) + dv(dist, v)
                <= pot_bound(),
{
    reveal(tree_ok);
    reveal(potential_ok);
    let n = g.len() as int;
    assert forall|v: int| 0 <= v < n && #[trigger] dist[v] is Some implies -pot_bound() <= pv(pot, v) + dv(
        dist,
        v,
    ) <= pot_bound() by {
        assert(rank[v] * cost_bound() <= n * cost_bound()) by (nonlinear_arith)
            requires
                rank[v] <= n,
        ;
        assert(n * cost_bound() <= 0x1_0000_0000 * cost_bound()) by (nonlinear_arith)
            requires
                n <= 0x1_0000_0000,
        ;
    }
}

} // verus!

verus! {

/// The invariant of the augmentation rounds: `g` carries `maxflow` more
/// units from `s` to `t` than `g0`, at added cost `cost`.
#[verifier::opaque]
pub(crate) open spec fn run_inv(g0: Network, g: Network, s: int, t: int, maxflow: int, cost: int, d: Seq<bool>) -> bool {
    let n = g0.len() as int;
    &&& same_shape(g0, g)
    &&& 0 <= maxflow
    &&& forall|x: int|
        0 <= x < n ==> #[trigger] net_flow(g, x) == net_flow(g0, x) + (if x == s {
            maxflow
        } else {
            0
        }) - (if x == t {
            maxflow
        } else {
            0
        })
    &&& spare_out(g, s) + maxflow == spare_out(g0, s)
    &&& s != t ==> spare_across_net(g0, d) <= 0x7fff_ffff_ffff_ffff
    &&& s != t ==> spare_across_net(g, d) + maxflow <= spare_across_net(g0, d)
    &&& flow_cost(g) == flow_cost(g0) + 2 * cost
    &&& abs(cost) <= maxflow * (n * cost_bound())
}

pub(crate) proof fn lemma_run_start(g0: Network, s: int, t: int, d: Seq<bool>)
    requires
        s != t ==> spare_across_net(g0, d) <= 0x7fff_ffff_ffff_ffff,
    ensures
        run_inv(g0, g0, s, t, 0, 0, d),
{
    reveal(run_inv);
    assert(0 * (g0.len() * cost_bound()) == 0) by (nonlinear_arith);
}

pub(crate) proof fn lemma_run_step(g0: Network, g1: Network, g2: Network, s: int, t: int, maxflow: int, cost: int, tf: int, dc: int, h: Set<int>, p: Seq<Option<(usize, usize)>>, d: Seq<bool>)
    requires
        run_inv(g0, g1, s, t, maxflow, cost, d),
        g0.len() <= 0x1_0000_0000,
        0 <= s < g0.len(),
        0 <= t < g0.len(),
        s != t,
        tf > 0,
        augmented(g1, g2, p, h, tf),
        forall|x: int|
            0 <= x < g0.len() ==> #[trigger] net_flow(g2, x) == net_flow(g1, x) + (if x == s {
                tf
            } else {
                0
            }) - (if x == t {
                tf
            } else {
                0
            }),
        spare_out(g2, s) == spare_out(g1, s) - tf,
        spare_out(g2, s) >= 0,
        spare_across_net(g2, d) <= spare_across_net(g1, d) - tf,
        flow_cost(g2) == flow_cost(g1) + 2 * dc,
        abs(dc) <= tf * (g0.len() * cost_bound()),
    ensures
        run_inv(g0, g2, s, t, maxflow + tf, cost + dc, d),
        maxflow + tf <= 0x7fff_ffff_ffff_ffff,
        -0x4000_0000_0000_0000_0000_0000_0000_0000 <= cost + dc <= 0x4000_0000_0000_0000_0000_0000_0000_0000,
        spare_out(g2, s) < spare_out(g1, s),
{
    reveal(run_inv);
    lemma_leaving_nonneg(g2, d, g2.len() as int);
    let n = g0.len() as int;
    assert(same_shape(g0, g2)) by {
        assert forall|u: int| 0 <= u < g0.len() implies #[trigger] g0[u].len() == g2[u].len() by {
            assert(g0[u].len() == g1[u].len());
        }
        assert forall|u: int, i: int| #[trigger] is_edge(g0, u, i) implies {
            &&& g0[u][i].v == g2[u][i].v
            &&& g0[u][i].r == g2[u][i].r
            &&& g0[u][i].cap == g2[u][i].cap
            &&& g0[u][i].cost == g2[u][i].cost
        } by {
            assert(is_edge(g1, u, i));
        }
    }
    assert(maxflow * (n * cost_bound()) + tf * (n * cost_bound()) == (maxflow + tf) * (n * cost_bound())) by (nonlinear_arith);
    assert((maxflow + tf) * (n * cost_bound()) <= 0x7fff_ffff_ffff_ffff * (0x1_0000_0000 * cost_bound())) by (nonlinear_arith)
        requires
            0 <= maxflow + tf <= 0x7fff_ffff_ffff_ffff,
            n <= 0x1_0000_0000,
    ;
    assert forall|x: int| 0 <= x < n implies #[trigger] net_flow(g2, x) == net_flow(g0, x) + (if x == s {
        maxflow + tf
    } else {
        0
    }) - (if x == t {
        maxflow + tf
    } else {
        0
    }) by {
        assert(net_flow(g1, x) == net_flow(g0, x) + (if x == s {
            maxflow
        } else {
            0
        }) - (if x == t {
            maxflow
        } else {
            0
        }));
    }
}

/// Some cut between source and target still has at most `i64::MAX` spare
/// capacity leaving it.
pub(crate) proof fn lemma_run_cut(g0: Network, g: Network, s: int, t: int, maxflow: int, cost: int, d: Seq<bool>)
    requires
        run_inv(g0, g, s, t, maxflow, cost, d),
        s != t ==> d.len() == g0.len() && d[s] && !d[t],
    ensures
        s != t ==> net_cut_within(g, s, t, 0x7fff_ffff_ffff_ffff),
{
    reveal(run_inv);
    if s != t {
        assert(d.len() == g.len() && d[s] && !d[t] && spare_across_net(g, d) <= 0x7fff_ffff_ffff_ffff);
    }
}

pub(crate) proof fn lemma_run_facts(g0: Network, g: Network, s: int, t: int, maxflow: int, cost: int, d: Seq<bool>)
    requires
        run_inv(g0, g, s, t, maxflow, cost, d),
    ensures
        same_shape(g0, g),
        0 <= maxflow,
        forall|x: int|
            0 <= x < g0.len() ==> #[trigger] net_flow(g, x) == net_flow(g0, x) + (if x == s {
                maxflow
            } else {
                0
            }) - (if x == t {
                maxflow
            } else {
                0
            }),
        spare_out(g, s) + maxflow == spare_out(g0, s),
        flow_cost(g) == flow_cost(g0) + 2 * cost,
        same_shape(g0, g) ==> g.len() == g0.len(),
{
    reveal(run_inv);
}

} // verus!

verus! {

/// Plain facts of a search outcome.
pub(crate) proof fn lemma_tree_facts(
    g: Network,
    pot: Seq<Option<i128>>,
    s: int,
    p: Seq<Option<(usize, usize)>>,
    dist: Seq<Option<i128>>,
    rank: Seq<int>,
    bott: Seq<int>,
)
    requires
        tree_ok(g, pot, s, p, dist, rank, bott),
    ensures
        p.len() == g.len(),
        dist.len() == g.len(),
        rank.len() == g.len(),
        bott.len() == g.len(),
        p[s] is None,
        forall|v: int| 0 <= v < g.len() && v != s ==> (#[trigger] dist[v] is Some <==> p[v] is Some),
{
    reveal(tree_ok);
}

/// Plain facts of usable potentials.
pub(crate) proof fn lemma_potential_facts(g: Network, pot: Seq<Option<i128>>, s: int)
    requires
        potential_ok(g, pot, s),
    ensures
        pot.len() == g.len(),
        forall|v: int| 0 <= v < g.len() ==> #[trigger] pot[v] is Some,
        forall|v: int| 0 <= v < g.len() ==> -pot_bound() <= #[trigger] pv(pot, v) <= pot_bound(),
{
    reveal(potential_ok);
}

/// A residual walk from a node reachable from `s` costs at least the rise in
/// potential along it, when every residual edge out of such a node has a
/// non-negative reduced cost.
proof fn lemma_walk_reduced(g: Network, pot: Seq<Option<i128>>, s: int, y: int, w: Seq<(int, int)>)
    requires
        potential_ok(g, pot, s),
        reachable(g, s, y),
        is_walk(g, y, w),
    ensures
        walk_cost(g, w) >= pv(pot, walk_end(g, y, w)) - pv(pot, y),
    decreases w.len(),
{
    reveal(potential_ok);
    if w.len() > 0 {
        let l = w.len() - 1;
        let w0 = w.drop_last();
        lemma_walk_subrange(g, y, w, 0, l);
        assert(w.subrange(0, l) =~= w0);
        lemma_walk_reduced(g, pot, s, y, w0);
        let u = walk_end(g, y, w0);
        let w1 = choose|w1: Seq<(int, int)>| is_walk(g, s, w1) && walk_end(g, s, w1) == y;
        lemma_walk_concat(g, s, w1, w0);
        assert(reachable(g, s, u));
        let st = w[l];
        assert(residual(g, st.0, st.1) && st.0 == node_at(g, y, w, l));
        assert(node_at(g, y, w, l) == u);
        assert(reduced(g, pot, u, st.1) >= 0);
        assert(w.drop_last() == w0);
        assert(w.last() == st);
        assert(walk_cost(g, w) == walk_cost(g, w0) + g[u][st.1].cost);
        assert(walk_end(g, y, w) == g[u][st.1].v);
    }
}

/// Potentials under which every residual edge out of a node reachable from
/// `s` has a non-negative reduced cost leave no negative cycle reachable from
/// `s`: around a cycle the potentials cancel.
pub(crate) proof fn lemma_potential_no_negative_cycle(g: Network, pot: Seq<Option<i128>>, s: int)
    requires
        potential_ok(g, pot, s),
    ensures
        no_negative_cycle_from(g, s),
{
    assert forall|y: int, c: Seq<(int, int)>|
        reachable(g, s, y) && is_walk(g, y, c) && walk_end(g, y, c) == y implies walk_cost(g, c) >= 0 by {
        lemma_walk_reduced(g, pot, s, y, c);
    }
}

/// A node the search gave a distance is reachable from the source.
pub(crate) proof fn lemma_tree_reachable(
    g: Network,
    pot: Seq<Option<i128>>,
    s: int,
    p: Seq<Option<(usize, usize)>>,
    dist: Seq<Option<i128>>,
    rank: Seq<int>,
    bott: Seq<int>,
    v: int,
)
    requires
        tree_ok(g, pot, s, p, dist, rank, bott),
        0 <= v < g.len(),
        dist[v] is Some,
    ensures
        reachable(g, s, v),
{
    reveal(tree_ok);
}

} // verus!
