//! Residual flow networks stored as adjacency lists, and minimum-cost maximum
//! flow by successive shortest paths (Bellman-Ford potentials, then Dijkstra
//! on reduced costs).
use vstd::prelude::*;

use crate::network::{
    EdgeView, Network, costs_bounded, edge_ok, flow_cost, is_edge, is_walk, lemma_push_flow, lemma_sum_edges_nonneg,
    net_flow, push_flow, reachable, residual, same_shape, spare_of, spare_out, walk_end, well_formed, spare_across_net, net_cut_within,
    lemma_push_across_net, lemma_heads_ok,
    no_negative_cycle_from,
};
use crate::potentials::lemma_potentials_exist;
use crate::slot_sums::{lemma_network_least_cost, lemma_network_maximum};
use crate::bellman::{
    bf_covered, bf_inv, bf_start_ok, finite_count, lemma_bf_keep, lemma_bf_lower, lemma_bf_next_node,
    lemma_bf_next_round, lemma_bf_result, lemma_bf_rounds_done, lemma_bf_skip_node, lemma_bf_stable,
    lemma_bf_start, max_nodes, zero_unknown, lemma_bf_fresh, pot_limit,
};
use crate::queue::{MinQueue, Q};
use crate::search::{
    SearchState, abs, aug_inv, augmented, cost_bound, costs_fit, dv, lemma_aug_facts, lemma_aug_start, lemma_aug_step, lemma_search_done, lemma_search_facts, lemma_search_next,
    lemma_search_relax, lemma_search_settle, lemma_search_skip, lemma_search_stale, lemma_search_start,
    lemma_potential_facts, lemma_potential_no_negative_cycle, lemma_shift_global, lemma_potential_shift, lemma_run_facts, lemma_run_start, lemma_run_step, lemma_shift_fits,
    lemma_tree_facts, lemma_tree_reach, lemma_tree_reachable, run_inv, potential_ok, pot_bound, pv, relaxed_state, search_inv,
    settled_state, shifted, src_bound, tree_ok, lemma_shift_bound, lemma_run_cut,
};

verus! {

/// Type for flows and capacities. Signed.
pub type F = i64;

/// Type for edge costs. Signed.
pub type W = i32;

/// The bottleneck given to the source when a shortest-path search starts.
pub const FINF: F = 1_000_000_000_000_000_000;

pub(crate) struct Edge {
    /// index of neighbour
    v: usize,
    /// index of reverse edge
    r: usize,
    /// capacity
    cap: F,
    /// cost
    cost: W,
    /// current flow.
    f: F,
}

impl View for Edge {
    type V = EdgeView;

    closed spec fn view(&self) -> EdgeView {
        EdgeView {
            v: self.v as int,
            r: self.r as int,
            cap: self.cap as int,
            cost: self.cost as int,
            f: self.f as int,
        }
    }
}

impl Edge {
    fn new(v: usize, r: usize, cap: F, cost: W) -> (e: Self)
        ensures
            e@ == (EdgeView { v: v as int, r: r as int, cap: cap as int, cost: cost as int, f: 0 }),
    {
        Edge { v, r, cap, cost, f: 0 }
    }
}

/// The network after appending an edge `u -> v` and its reverse `v -> u`.
pub open spec fn with_pair(g: Network, u: int, v: int, c_fwd: int, c_rev: int, cost: int) -> Network {
    let fwd = EdgeView {
        v,
        r: if u == v {
            g[v].len() + 1int
        } else {
            g[v].len() as int
        },
        cap: c_fwd,
        cost,
        f: 0,
    };
    let g1 = g.update(u, g[u].push(fwd));
    let rev = EdgeView { v: u, r: g[u].len() as int, cap: c_rev, cost: -cost, f: 0 };
    g1.update(v, g1[v].push(rev))
}

/// Appending an edge pair: the edge `u -> v` goes at the end of `u`'s list
/// with capacity `c_fwd`, no flow and cost exactly `cost`, and its reverse
/// `v -> u` at the end of `v`'s list with capacity `c_rev`, no flow and cost
/// `-cost`, each one's `r` the other's index (for a loop, the two follow each
/// other in one list); every slot already there keeps its edge and every
/// other list stays as it was.
pub proof fn lemma_with_pair(g: Network, u: int, v: int, c_fwd: int, c_rev: int, cost: int)
    requires
        0 <= u < g.len(),
        0 <= v < g.len(),
    ensures
        with_pair(g, u, v, c_fwd, c_rev, cost).len() == g.len(),
        u != v ==> {
            let h = with_pair(g, u, v, c_fwd, c_rev, cost);
            &&& h[u].len() == g[u].len() + 1
            &&& h[v].len() == g[v].len() + 1
            &&& h[u][g[u].len() as int] == EdgeView { v, r: g[v].len() as int, cap: c_fwd, cost, f: 0 }
            &&& h[v][g[v].len() as int] == EdgeView { v: u, r: g[u].len() as int, cap: c_rev, cost: -cost, f: 0 }
        },
        u == v ==> {
            let h = with_pair(g, u, v, c_fwd, c_rev, cost);
            &&& h[u].len() == g[u].len() + 2
            &&& h[u][g[u].len() as int] == EdgeView { v, r: g[u].len() + 1int, cap: c_fwd, cost, f: 0 }
            &&& h[u][g[u].len() + 1int] == EdgeView { v: u, r: g[u].len() as int, cap: c_rev, cost: -cost, f: 0 }
        },
        forall|x: int, i: int|
            0 <= x < g.len() && 0 <= i < g[x].len() ==> #[trigger] with_pair(g, u, v, c_fwd, c_rev, cost)[x][i] == g[x][i],
        forall|x: int|
            0 <= x < g.len() && x != u && x != v ==> #[trigger] with_pair(g, u, v, c_fwd, c_rev, cost)[x] == g[x],
{
    let h = with_pair(g, u, v, c_fwd, c_rev, cost);
    assert forall|x: int, i: int| 0 <= x < g.len() && 0 <= i < g[x].len() implies #[trigger] h[x][i] == g[x][i] by {
        let g1 = g.update(u, g[u].push(EdgeView { v, r: if u == v { g[v].len() + 1int } else { g[v].len() as int }, cap: c_fwd, cost, f: 0 }));
        assert(g1[x][i] == g[x][i]);
    }
}

pub struct FlowGraph {
    edges: Vec<Vec<Edge>>,
}

impl View for FlowGraph {
    type V = Network;

    closed spec fn view(&self) -> Network {
        Seq::new(self.edges@.len(), |u: int| Seq::new(self.edges@[u]@.len(), |i: int| self.edges@[u]@[i]@))
    }
}

impl FlowGraph {
    /// The graph's structural invariant: see `well_formed`.
    pub open spec fn wf(&self) -> bool {
        well_formed(self@)
    }

    pub fn new(n: usize) -> (g: Self)
        ensures
            g.wf(),
            g@.len() == n,
            forall|u: int| 0 <= u < n ==> #[trigger] g@[u].len() == 0,
    {
        let mut edges: Vec<Vec<Edge>> = Vec::new();
        let mut k: usize = 0;
        while k < n
            invariant
                k <= n,
                edges@.len() == k,
                forall|u: int| 0 <= u < k ==> #[trigger] edges@[u]@.len() == 0,
            decreases n - k,
        {
            edges.push(Vec::new());
            k += 1;
        }
        FlowGraph { edges }
    }

    fn push_pair(&mut self, u: usize, v: usize, c_fwd: F, c_rev: F, cost: W)
        requires
            old(self).wf(),
            u < old(self)@.len(),
            v < old(self)@.len(),
            cost > i32::MIN,
        ensures
            final(self).wf(),
            final(self)@ == with_pair(old(self)@, u as int, v as int, c_fwd as int, c_rev as int, cost as int),
    {
        let ghost g0 = self@;
        // fwd edge
        let r = self.edges[v].len();
        self.edges[u].push(Edge::new(v, r, c_fwd, cost));
        // rev edge
        let r = self.edges[u].len() - 1;
        self.edges[v].push(Edge::new(u, r, c_rev, -cost));
        if u == v {
            // a loop: its reverse went in right after it
            let ri = self.edges[v].len() - 1;
            self.edges[u][r].r = ri;
        }
        let ghost g2 = with_pair(g0, u as int, v as int, c_fwd as int, c_rev as int, cost as int);
        assert(self@ =~= g2) by {
            assert forall|x: int| 0 <= x < g2.len() implies #[trigger] self@[x] =~= g2[x] by {}
        }
        assert forall|x: int, i: int| #[trigger] is_edge(g2, x, i) implies edge_ok(g2, x, i) by {
            if i < g0[x].len() {
                assert(is_edge(g0, x, i));
                assert(edge_ok(g0, x, i));
                let e = g0[x][i];
                assert(g2[x][i] == e);
                assert(is_edge(g0, e.v, e.r));
                assert(g2[e.v][e.r] == g0[e.v][e.r]);
            }
        }
    }

    /// Add undirected edge from u to v with given capacity and cost: up to
    /// `c` units may cross it either way, each at cost `cost`. It is kept as
    /// an arc each way.
    pub fn add_edge(&mut self, u: usize, v: usize, c: F, cost: W)
        requires
            old(self).wf(),
            u < old(self)@.len(),
            v < old(self)@.len(),
            cost > i32::MIN,
        ensures
            final(self).wf(),
            final(self)@ == with_pair(
                with_pair(old(self)@, u as int, v as int, c as int, 0, cost as int),
                v as int,
                u as int,
                c as int,
                0,
                cost as int,
            ),
    {
        self.push_pair(u, v, c, 0, cost);
        self.push_pair(v, u, c, 0, cost);
    }

    /// Add directed edge from u to v with given capacity and cost.
    pub fn add_arc(&mut self, u: usize, v: usize, c: F, cost: W)
        requires
            old(self).wf(),
            u < old(self)@.len(),
            v < old(self)@.len(),
            cost > i32::MIN,
        ensures
            final(self).wf(),
            final(self)@ == with_pair(old(self)@, u as int, v as int, c as int, 0, cost as int),
    {
        self.push_pair(u, v, c, 0, cost);
    }
}


impl FlowGraph {
    /// Every cost fits in a `W`.
    proof fn lemma_costs_fit(&self)
        ensures
            forall|u: int, i: int|
                #[trigger] is_edge(self@, u, i) ==> -cost_bound() <= self@[u][i].cost < cost_bound(),
    {
    }

    /// Sends `d` more units along `edges[u][i]` and takes them off its reverse.
    fn push_flow(&mut self, u: usize, i: usize, d: F)
        requires
            old(self).wf(),
            is_edge(old(self)@, u as int, i as int),
            old(self)@[u as int][i as int].v != u,
            0 <= d,
            old(self)@[u as int][i as int].f + d <= old(self)@[u as int][i as int].cap,
        ensures
            final(self)@ == push_flow(old(self)@, u as int, i as int, d as int),
            final(self).wf(),
    {
        let ghost g0 = self@;
        proof {
            lemma_push_flow(g0, u as int, i as int, d as int);
            assert(edge_ok(g0, u as int, i as int));
        }
        let v = self.edges[u][i].v;
        let r = self.edges[u][i].r;
        self.edges[u][i].f = self.edges[u][i].f + d;
        self.edges[v][r].f = self.edges[v][r].f - d;
        assert(self@ =~= push_flow(g0, u as int, i as int, d as int)) by {
            let g2 = push_flow(g0, u as int, i as int, d as int);
            assert forall|x: int| 0 <= x < g2.len() implies #[trigger] self@[x] =~= g2[x] by {}
        }
    }
}

/// Min-cost-max-flow implementation using Edmonds-Karp with Dijkstra.
pub struct MCMF<'g> {
    /// the underlying graph
    g: &'g mut FlowGraph,
    /// the number of nodes
    n: usize,
    /// the 'start' node of the flow
    s: usize,
    /// the 'target' node of the flow
    t: usize,
    /// The current potentials (`None`: not yet known)
    pot: Vec<Option<i128>>,
}

impl<'g> MCMF<'g> {
    /// The network as it stands.
    pub closed spec fn graph(&self) -> Network {
        self.g@
    }

    /// The borrowed graph, through which its final state is seen.
    pub closed spec fn graph_ref(&self) -> &'g mut FlowGraph {
        self.g
    }

    pub closed spec fn source(&self) -> int {
        self.s as int
    }

    pub closed spec fn target(&self) -> int {
        self.t as int
    }

    /// The potentials, `None` where not yet known.
    pub closed spec fn potentials(&self) -> Seq<Option<i128>> {
        self.pot@
    }

    /// Internal consistency: the graph is well formed and the node count and
    /// potentials match it.
    pub closed spec fn inv(&self) -> bool {
        &&& self.g.wf()
        &&& self.n == self.g@.len()
        &&& self.pot@.len() == self.n
    }

    /// Once the solver is no longer used, the borrowed graph is left as the
    /// solver last saw it.
    pub proof fn lemma_graph_resolved(self)
        requires
            has_resolved(self),
        ensures
            final(self.graph_ref())@ == self.graph(),
    {
    }

    pub fn new(g: &'g mut FlowGraph, s: usize, t: usize) -> (m: Self)
        requires
            old(g).wf(),
        ensures
            m.inv(),
            m.graph() == old(g)@,
            final(m.graph_ref())@ == final(g)@,
            m.source() == s,
            m.target() == t,
            m.potentials().len() == old(g)@.len(),
            forall|v: int| 0 <= v < old(g)@.len() ==> #[trigger] m.potentials()[v] is None,
    {
        let n = g.edges.len();
        let mut pot: Vec<Option<i128>> = Vec::new();
        let mut k: usize = 0;
        while k < n
            invariant
                k <= n,
                pot@.len() == k,
                forall|v: int| 0 <= v < k ==> #[trigger] pot@[v] is None,
            decreases n - k,
        {
            pot.push(None);
            k += 1;
        }
        MCMF { g, n, s, t, pot }
    }
}


impl<'g> MCMF<'g> {
    /// Dijkstra from `s` on reduced costs, with lazy deletion of outdated
    /// queue entries. Returns the flow that reaches `t` along the tree path
    /// (`-1` when `t` is not reached).
    fn shortest_paths(
        &self,
        q: &mut MinQueue,
        p: &mut Vec<Option<(usize, usize)>>,
        dist: &mut Vec<Option<i128>>,
    ) -> (res: (F, Ghost<Seq<int>>, Ghost<Seq<int>>))
        requires
            self.inv(),
            self.s < self.n,
            self.t < self.n,
            self.n <= max_nodes(),
            potential_ok(self.graph(), self.pot@, self.s as int),
            old(p)@.len() == self.n,
            old(dist)@.len() == self.n,
        ensures
            tree_ok(self.graph(), self.pot@, self.s as int, final(p)@, final(dist)@, res.1@, res.2@),
            final(dist)@[self.t as int] is Some ==> res.0 == res.2@[self.t as int] && res.0 > 0,
            final(dist)@[self.t as int] is None ==> res.0 == -1,
    {
        let ghost g = self.graph();
        let ghost pot = self.pot@;
        let n = self.n;
        let s = self.s;
        let t = self.t;
        proof {
            self.g.lemma_costs_fit();
        }
        // Clear all structures.
        q.clear();
        let mut k: usize = 0;
        while k < n
            invariant
                k <= n,
                p@.len() == n,
                dist@.len() == n,
                forall|v: int| 0 <= v < k ==> #[trigger] p@[v] is None && dist@[v] is None,
            decreases n - k,
        {
            p.set(k, None);
            dist.set(k, None);
            k += 1;
        }
        q.push(Q { u: s, c: FINF, w: 0 });
        let ghost dist0 = dist@;
        assert forall|v: int| 0 <= v < n implies #[trigger] p@[v] is None && dist0[v] is None by {
            assert(p@[v] is None && dist@[v] is None);
        }
        dist.set(s, Some(0));
        // total flow to the target.
        let mut tf: F = -1;
        let ghost mut st = SearchState {
            q: q.items@,
            p: p@,
            dist: dist@,
            rank: Seq::new(n as nat, |v: int| -1),
            bott: Seq::new(n as nat, |v: int| FINF as int),
            order: Seq::empty(),
            last: 0,
            tf: -1,
        };
        proof {
            assert(q.items@ =~= seq![Q { u: s as usize, c: FINF, w: 0 }]);
            assert forall|v: int| 0 <= v < n && v != s implies #[trigger] dist@[v] is None by {
                assert(p@[v] is None && dist0[v] is None);
            }
            assert forall|v: int| 0 <= v < n implies #[trigger] p@[v] is None by {
                assert(p@[v] is None && dist0[v] is None);
            }
            lemma_search_start(g, pot, s, t as int, dist@, p@);
        }
        loop
            invariant
                self.graph() == g,
                self.pot@ == pot,
                self.inv(),
                n == self.n,
                s == self.s,
                t == self.t,
                n <= max_nodes(),
                potential_ok(g, pot, s as int),
                costs_fit(g),
                st.q == q.items@,
                st.p == p@,
                st.dist == dist@,
                st.tf == tf,
                search_inv(g, pot, s as int, t as int, st, -1, 0),
            ensures
                q.items@.len() == 0,
                st.q == q.items@,
                st.p == p@,
                st.dist == dist@,
                st.tf == tf,
                search_inv(g, pot, s as int, t as int, st, -1, 0),
            decreases n - st.order.len(), q.items@.len(),
        {
            let ghost q0 = q.items@;
            let popped = q.pop();
            let e = match popped {
                None => {
                    break ;
                },
                Some(e) => e,
            };
            let ghost kk = choose|k: int|
                0 <= k < q0.len() && q0[k] == e && q.items@ == q0.remove(k) && forall|j: int|
                    0 <= j < q0.len() ==> e.w <= #[trigger] q0[j].w;
            proof {
                lemma_search_facts(g, pot, s as int, t as int, st, -1, 0);
                assert(q0[kk] == e);
            }
            let u = e.u;
            let c = e.c;
            let w = e.w;
            let du = dist[u].unwrap();
            if w != du {
                // outdated queue element; a better path to u was found meanwhile.
                proof {
                    lemma_search_stale(g, pot, s as int, t as int, st, kk);
                    st = SearchState { q: q0.remove(kk), ..st };
                }
                continue ;
            }
            proof {
                lemma_search_settle(g, pot, s as int, t as int, st, kk);
                st = settled_state(st, kk, t as int);
                lemma_search_facts(g, pot, s as int, t as int, st, u as int, 0);
            }
            // Update the flow to the target if none found yet.
            if u == t && tf < 0 {
                tf = c;
            }
            let deg = self.g.edges[u].len();
            let ghost olen = st.order.len();
            let mut i: usize = 0;
            while i < deg
                invariant
                    self.graph() == g,
                    self.pot@ == pot,
                    self.inv(),
                    n == self.n,
                    s == self.s,
                    t == self.t,
                    u < n,
                    deg == g[u as int].len(),
                    i <= deg,
                    n <= max_nodes(),
                    potential_ok(g, pot, s as int),
                    costs_fit(g),
                    c == st.bott[u as int],
                    w == dv(st.dist, u as int),
                    st.q == q.items@,
                    st.p == p@,
                    st.dist == dist@,
                    st.tf == tf,
                    st.order.len() <= n,
                    st.order.len() == olen,
                    search_inv(g, pot, s as int, t as int, st, u as int, i as int),
                decreases deg - i,
            {
                let e = &self.g.edges[u][i];
                proof {
                    assert(self.g.edges@[u as int]@[i as int]@ == g[u as int][i as int]);
                    assert(is_edge(g, u as int, i as int));
                    assert(edge_ok(g, u as int, i as int));
                }
                if e.cap > e.f {
                    let ev = e.v;
                    proof {
                        lemma_potential_facts(g, pot, s as int);
                    }
                    let pu = self.pot[u].unwrap();
                    let pvv = self.pot[ev].unwrap();
                    proof {
                        lemma_potential_facts(g, pot, s as int);
                        lemma_search_facts(g, pot, s as int, t as int, st, u as int, i as int);
                        assert(residual(g, u as int, i as int));
                        assert(st.rank[u as int] * cost_bound() <= n * cost_bound()) by (nonlinear_arith)
                            requires st.rank[u as int] <= n;
                        assert(n * cost_bound() <= max_nodes() * cost_bound()) by (nonlinear_arith)
                            requires n <= max_nodes();
                        assert(pu as int == pv(pot, u as int));
                        assert(pvv as int == pv(pot, ev as int));
                        assert(-pot_bound() <= pv(pot, u as int) <= pot_bound());
                        assert(-pot_bound() <= pv(pot, ev as int) <= pot_bound());
                    }
                    let d: i128 = w + e.cost as i128 + pu - pvv;
                    let better = match dist[ev] {
                        None => true,
                        Some(dv0) => d < dv0,
                    };
                    if better {
                        let spare: i128 = e.cap as i128 - e.f as i128;
                        let c2: F = if (c as i128) < spare {
                            c
                        } else {
                            spare as F
                        };
                        proof {
                            lemma_search_relax(g, pot, s as int, t as int, st, u as int, i as int, d, c2);
                            st = relaxed_state(g, st, u as int, i as int, d, c2);
                        }
                        dist.set(ev, Some(d));
                        q.push(Q { u: ev, c: c2, w: d });
                        p.set(ev, Some((u, i)));
                    } else {
                        proof {
                            lemma_search_skip(g, pot, s as int, t as int, st, u as int, i as int);
                        }
                    }
                } else {
                    proof {
                        lemma_search_skip(g, pot, s as int, t as int, st, u as int, i as int);
                    }
                }
                i += 1;
            }
            proof {
                lemma_search_next(g, pot, s as int, t as int, st, u as int);
            }
        }
        proof {
            lemma_search_done(g, pot, s as int, t as int, st);
        }
        (tf, Ghost(st.rank), Ghost(st.bott))
    }
}

impl<'g> MCMF<'g> {
    /// Sends `f` units from `s` to `t` along the tree path found by the
    /// search; returns the cost added.
    fn augment(
        &mut self,
        p: &Vec<Option<(usize, usize)>>,
        f: F,
        Ghost(pot): Ghost<Seq<Option<i128>>>,
        Ghost(dist): Ghost<Seq<Option<i128>>>,
        Ghost(rank): Ghost<Seq<int>>,
        Ghost(bott): Ghost<Seq<int>>,
        Ghost(dcut): Ghost<Seq<bool>>,
    ) -> (res: (i128, Ghost<Set<int>>))
        requires
            dcut.len() == old(self).n,
            dcut[old(self).s as int],
            !dcut[old(self).t as int],
            old(self).inv(),
            old(self).s < old(self).n,
            old(self).t < old(self).n,
            old(self).n <= max_nodes(),
            tree_ok(old(self).graph(), pot, old(self).s as int, p@, dist, rank, bott),
            dist[old(self).t as int] is Some,
            old(self).t != old(self).s,
            f == bott[old(self).t as int],
            f > 0,
            potential_ok(old(self).graph(), pot, old(self).s as int),
        ensures
            final(self).inv(),
            final(self).s == old(self).s,
            final(self).t == old(self).t,
            final(self).n == old(self).n,
            final(self).pot@ == old(self).pot@,
            final(final(self).graph_ref())@ == final(old(self).graph_ref())@,
            augmented(old(self).graph(), final(self).graph(), p@, res.1@, f as int),
            forall|x: int| #[trigger] res.1@.contains(x) ==> 0 <= x < old(self).n && p@[x] is Some,
            forall|x: int|
                0 <= x < old(self).n ==> #[trigger] net_flow(final(self).graph(), x) == net_flow(
                    old(self).graph(),
                    x,
                ) + (if x == old(self).s {
                    f as int
                } else {
                    0
                }) - (if x == old(self).t {
                    f as int
                } else {
                    0
                }),
            spare_out(final(self).graph(), old(self).s as int) == spare_out(old(self).graph(), old(self).s as int) - f,
            spare_across_net(final(self).graph(), dcut) <= spare_across_net(old(self).graph(), dcut) - f,
            flow_cost(final(self).graph()) == flow_cost(old(self).graph()) + 2 * res.0,
            abs(res.0 as int) <= f * (old(self).n * cost_bound()),
    {
        let ghost g0 = self.graph();
        let n = self.n;
        let s = self.s;
        let t = self.t;
        proof {
            self.g.lemma_costs_fit();
        }
        proof {
            lemma_tree_facts(g0, pot, s as int, p@, dist, rank, bott);
        }
        let mut cost: i128 = 0;
        let mut head: usize = t;
        let mut it = p[t];
        let ghost mut done: Set<int> = Set::empty();
        proof {
            lemma_aug_start(g0, pot, s as int, t as int, p@, dist, rank, bott, f as int);
        }
        while it.is_some()
            invariant
                self.inv(),
                self.s == s,
                self.t == t,
                self.n == n,
                n == g0.len(),
                self.pot@ == old(self).pot@,
                final(self.graph_ref())@ == final(old(self).graph_ref())@,
                head < n,
                f > 0,
                p@.len() == n,
                rank.len() == n,
                it == p@[head as int],
                aug_inv(g0, self.graph(), pot, s as int, t as int, p@, dist, rank, bott, f as int, done, head as int, cost as int),
                dcut.len() == n,
                dcut[s as int],
                !dcut[t as int],
                spare_across_net(self.graph(), dcut) <= spare_across_net(g0, dcut) - (if dcut[head as int] {
                    f as int
                } else {
                    0
                }),
            decreases rank[head as int],
        {
            let (u, nbi) = it.unwrap();
            proof {
                lemma_aug_step(g0, self.graph(), pot, s as int, t as int, p@, dist, rank, bott, f as int, done, head as int, cost as int);
                lemma_aug_facts(g0, self.graph(), pot, s as int, t as int, p@, dist, rank, bott, f as int, done, head as int, cost as int);
            }
            // Add flow to forward edge, remove it from the reverse edge.
            let ev = self.g.edges[u][nbi].v;
            let er = self.g.edges[u][nbi].r;
            let ecost = self.g.edges[u][nbi].cost;
            let ghost gb = self.graph();
            proof {
                assert(self.g.edges@[u as int]@[nbi as int]@ == gb[u as int][nbi as int]);
                assert(ev as int == gb[u as int][nbi as int].v);
                assert(er as int == gb[u as int][nbi as int].r);
                assert(ecost as int == gb[u as int][nbi as int].cost);
                assert(-0x8000_0000_0000_0000_0000_0000 <= (f as int) * (ecost as int) <= 0x8000_0000_0000_0000_0000_0000)
                    by (nonlinear_arith)
                    requires
                        0 < f <= 0x7fff_ffff_ffff_ffff,
                        -0x8000_0000 <= ecost <= 0x7fff_ffff,
                ;
            }
            self.g.push_flow(u, nbi, f);
            cost = cost + f as i128 * ecost as i128;
            proof {
                lemma_push_flow(gb, u as int, nbi as int, f as int);
                lemma_push_across_net(gb, u as int, nbi as int, f as int, dcut);
                assert(self.graph()[ev as int][er as int].v == gb[ev as int][er as int].v);
                assert(self.g.edges@[ev as int]@[er as int]@ == self.graph()[ev as int][er as int]);
            }
            let rv = self.g.edges[ev][er].v;
            proof {
                done = done.insert(head as int);
            }
            head = rv;
            it = p[rv];
        }
        proof {
            lemma_aug_facts(g0, self.graph(), pot, s as int, t as int, p@, dist, rank, bott, f as int, done, head as int, cost as int);
        }
        (cost, Ghost(done))
    }
}

impl<'g> MCMF<'g> {
    /// Bellman-Ford from `s` (and from every node whose potential is already
    /// known), for at most `n - 1` rounds; nodes left unknown get potential 0.
    #[verifier::rlimit(40)]
    fn init_potentials(&mut self)
        requires
            old(self).inv(),
            old(self).s < old(self).n,
            old(self).n <= max_nodes(),
            bf_start_ok(old(self).graph(), old(self).pot@.update(old(self).s as int, Some(0i128))),
        ensures
            final(self).inv(),
            final(self).s == old(self).s,
            final(self).t == old(self).t,
            final(self).n == old(self).n,
            final(self).graph() == old(self).graph(),
            final(final(self).graph_ref())@ == final(old(self).graph_ref())@,
            potential_ok(final(self).graph(), final(self).pot@, final(self).s as int),
            (forall|v: int| 0 <= v < old(self).n && v != old(self).s ==> #[trigger] old(self).pot@[v] is None) ==> forall|v: int|
                0 <= v < old(self).n ==> -old(self).n * cost_bound() <= #[trigger] pv(final(self).pot@, v) <= old(self).n
                    * cost_bound(),
    {
        let ghost g = self.graph();
        let ghost p_in = self.pot@;
        let n = self.n;
        let s = self.s;
        self.pot.set(s, Some(0));
        let ghost pot0 = self.pot@;
        proof {
            lemma_bf_start(g, pot0);
            self.g.lemma_costs_fit();
        }
        let ghost mut potr = pot0;
        let ghost mut ecu: int = 0;
        let mut round: usize = 0;
        while round + 1 < n
            invariant_except_break
                round + 1 <= n,
                ecu == 0,
                bf_inv(g, pot0, potr, self.pot@, round as int, 0, 0, false),
            invariant
                self.inv(),
                self.graph() == g,
                self.n == n,
                self.s == s,
                self.t == old(self).t,
                final(self.graph_ref())@ == final(old(self).graph_ref())@,
                s < n,
                n <= max_nodes(),
                well_formed(g),
                forall|u: int, i: int|
                    #[trigger] is_edge(g, u, i) ==> -cost_bound() <= g[u][i].cost < cost_bound(),
            ensures
                round + 1 <= n,
                ecu == n || (ecu == 0 && round + 1 == n),
                bf_inv(g, pot0, potr, self.pot@, round as int, ecu, 0, false),
            decreases n - round,
        {
            let mut relax = false;
            let ghost rstart = self.pot@;
            let mut u: usize = 0;
            while u < n
                invariant
                    self.inv(),
                    self.graph() == g,
                    self.n == n,
                    self.s == s,
                    self.t == old(self).t,
                    final(self.graph_ref())@ == final(old(self).graph_ref())@,
                    u <= n,
                    n <= max_nodes(),
                    well_formed(g),
                    forall|a: int, i: int|
                        #[trigger] is_edge(g, a, i) ==> -cost_bound() <= g[a][i].cost < cost_bound(),
                    bf_inv(g, pot0, rstart, self.pot@, round as int, u as int, 0, relax),
                decreases n - u,
            {
                if self.pot[u].is_some() {
                    let deg = self.g.edges[u].len();
                    let mut i: usize = 0;
                    while i < deg
                        invariant
                            self.inv(),
                            self.graph() == g,
                            self.n == n,
                            self.s == s,
                            self.t == old(self).t,
                            final(self.graph_ref())@ == final(old(self).graph_ref())@,
                            u < n,
                            deg == g[u as int].len(),
                            i <= deg,
                            n <= max_nodes(),
                            well_formed(g),
                            forall|a: int, j: int|
                                #[trigger] is_edge(g, a, j) ==> -cost_bound() <= g[a][j].cost < cost_bound(),
                            self.pot@[u as int] is Some,
                            bf_inv(g, pot0, rstart, self.pot@, round as int, u as int, i as int, relax),
                        decreases deg - i,
                    {
                        let e = &self.g.edges[u][i];
                        proof {
                            assert(self.g.edges@[u as int]@[i as int]@ == g[u as int][i as int]);
                            assert(is_edge(g, u as int, i as int));
                            assert(edge_ok(g, u as int, i as int));
                        }
                        if e.cap > e.f {
                            let ev = e.v;
                            let pu = self.pot[u].unwrap();
                            proof {
                                assert(max_nodes() * cost_bound() == 0x8000_0000_0000_0000);
                                assert(n * cost_bound() <= max_nodes() * cost_bound()) by (nonlinear_arith)
                                    requires n <= max_nodes();
                                assert(finite_count(self.pot@) * cost_bound() <= n * cost_bound()) by (nonlinear_arith)
                                    requires finite_count(self.pot@) <= n;
                                assert(pu as int == crate::search::pv(self.pot@, u as int));
                            }
                            let nd: i128 = pu + e.cost as i128;
                            let better = match self.pot[ev] {
                                None => true,
                                Some(x) => nd < x,
                            };
                            if better {
                                proof {
                                    lemma_bf_lower(g, pot0, rstart, self.pot@, round as int, u as int, i as int, relax, nd);
                                }
                                self.pot.set(ev, Some(nd));
                                relax = true;
                            } else {
                                proof {
                                    lemma_bf_keep(g, pot0, rstart, self.pot@, round as int, u as int, i as int, relax);
                                }
                            }
                        } else {
                            proof {
                                lemma_bf_keep(g, pot0, rstart, self.pot@, round as int, u as int, i as int, relax);
                            }
                        }
                        i += 1;
                    }
                    proof {
                        lemma_bf_next_node(g, pot0, rstart, self.pot@, round as int, u as int, relax);
                    }
                } else {
                    proof {
                        lemma_bf_skip_node(g, pot0, rstart, self.pot@, round as int, u as int, relax);
                    }
                }
                u += 1;
            }
            if !relax {
                proof {
                    ecu = n as int;
                    potr = rstart;
                }
                break ;
            }
            proof {
                lemma_bf_next_round(g, pot0, rstart, self.pot@, round as int);
                potr = self.pot@;
            }
            round += 1;
        }
        proof {
            if ecu == n {
                lemma_bf_stable(g, pot0, potr, self.pot@, round as int);
            } else {
                lemma_bf_rounds_done(g, pot0, potr, self.pot@, false);
            }
            assert(pot0[s as int] is Some);
            let e: Seq<(int, int)> = Seq::empty();
            crate::network::lemma_empty_walk(g, s as int);
            assert(is_walk(g, s as int, e) && bf_covered(e, round as int, ecu, 0));
            assert(self.pot@[s as int] is Some);
            lemma_bf_result(g, pot0, potr, self.pot@, round as int, ecu, 0, false, s as int);
            if forall|v: int| 0 <= v < n && v != s ==> #[trigger] p_in[v] is None {
                self.g.lemma_costs_fit();
                assert(costs_bounded(g, cost_bound()));
                assert forall|v: int| 0 <= v < n && v != s implies #[trigger] pot0[v] is None by {
                    assert(p_in[v] is None);
                }
                lemma_bf_fresh(g, pot0, potr, self.pot@, round as int, ecu, 0, false, s as int);
            }
        }
        let ghost pb = self.pot@;
        self.fill_unknown_potentials();
        proof {
            if forall|v: int| 0 <= v < n && v != s ==> #[trigger] p_in[v] is None {
                assert forall|v: int| 0 <= v < n implies -n * cost_bound() <= #[trigger] pv(self.pot@, v) <= n * cost_bound() by {
                    if pb[v] is Some {
                        assert(self.pot@[v] == pb[v]);
                    } else {
                        assert(self.pot@[v] == Some(0i128));
                        assert(n * cost_bound() >= 0) by (nonlinear_arith)
                            requires
                                n >= 0,
                        ;
                    }
                }
            }
        }
    }

    /// Nodes whose potential is still unknown get potential 0.
    fn fill_unknown_potentials(&mut self)
        requires
            old(self).inv(),
        ensures
            final(self).inv(),
            final(self).s == old(self).s,
            final(self).t == old(self).t,
            final(self).n == old(self).n,
            final(self).graph() == old(self).graph(),
            final(final(self).graph_ref())@ == final(old(self).graph_ref())@,
            final(self).pot@ == zero_unknown(old(self).pot@),
    {
        let ghost g = self.graph();
        let n = self.n;
        let s = self.s;
        let ghost pbf = self.pot@;
        let mut u: usize = 0;
        while u < n
            invariant
                self.inv(),
                self.graph() == g,
                self.n == n,
                self.s == s,
                self.t == old(self).t,
                final(self.graph_ref())@ == final(old(self).graph_ref())@,
                u <= n,
                pbf.len() == n,
                forall|v: int| 0 <= v < u ==> #[trigger] self.pot@[v] == zero_unknown(pbf)[v],
                forall|v: int| u <= v < n ==> #[trigger] self.pot@[v] == pbf[v],
            decreases n - u,
        {
            if self.pot[u].is_none() {
                self.pot.set(u, Some(0));
            }
            u += 1;
        }
        assert(self.pot@ =~= zero_unknown(pbf));
    }

    /// Adds each reached node's distance to its potential.
    fn update_potentials(
        &mut self,
        dist: &Vec<Option<i128>>,
        Ghost(gs): Ghost<Network>,
        Ghost(p): Ghost<Seq<Option<(usize, usize)>>>,
        Ghost(rank): Ghost<Seq<int>>,
        Ghost(bott): Ghost<Seq<int>>,
    )
        requires
            old(self).inv(),
            old(self).s < old(self).n,
            old(self).n <= max_nodes(),
            gs.len() == old(self).n,
            potential_ok(gs, old(self).pot@, old(self).s as int),
            tree_ok(gs, old(self).pot@, old(self).s as int, p, dist@, rank, bott),
        ensures
            final(self).inv(),
            final(self).s == old(self).s,
            final(self).t == old(self).t,
            final(self).n == old(self).n,
            final(self).graph() == old(self).graph(),
            final(final(self).graph_ref())@ == final(old(self).graph_ref())@,
            final(self).pot@ == shifted(old(self).pot@, dist@),
    {
        let ghost g = self.graph();
        let ghost pot = self.pot@;
        let n = self.n;
        let s = self.s;
        proof {
            lemma_shift_fits(gs, pot, s as int, p, dist@, rank, bott);
        }
        let mut u: usize = 0;
        while u < n
            invariant
                self.inv(),
                self.graph() == g,
                self.n == n,
                self.s == s,
                self.t == old(self).t,
                final(self.graph_ref())@ == final(old(self).graph_ref())@,
                u <= n,
                pot.len() == n,
                dist@.len() == n,
                forall|v: int| 0 <= v < n ==> #[trigger] pot[v] is Some,
                forall|v: int|
                    0 <= v < n && #[trigger] dist@[v] is Some ==> -pot_bound() <= pv(pot, v) + dv(dist@, v)
                        <= pot_bound(),
                forall|v: int| 0 <= v < u ==> #[trigger] self.pot@[v] == shifted(pot, dist@)[v],
                forall|v: int| u <= v < n ==> #[trigger] self.pot@[v] == pot[v],
            decreases n - u,
        {
            if let Some(d) = dist[u] {
                let pu = self.pot[u].unwrap();
                proof {
                    assert(dist@[u as int] is Some);
                    assert(pu as int == pv(pot, u as int));
                }
                self.pot.set(u, Some(pu + d));
            }
            u += 1;
        }
        assert(self.pot@ =~= shifted(pot, dist@));
    }

    #[verifier::rlimit(100)]
    pub fn run(&mut self) -> (res: (F, i128))
        requires
            old(self).inv(),
            old(self).source() < old(self).graph().len(),
            old(self).target() < old(self).graph().len(),
            old(self).graph().len() <= max_nodes(),
            bf_start_ok(old(self).graph(), old(self).potentials().update(old(self).source(), Some(0i128))),
            old(self).source() != old(self).target() ==> net_cut_within(
                old(self).graph(),
                old(self).source(),
                old(self).target(),
                i64::MAX as int,
            ),
        ensures
            final(self).inv(),
            well_formed(final(self).graph()),
            final(self).potentials().len() == final(self).graph().len(),
            final(self).source() == old(self).source(),
            final(self).target() == old(self).target(),
            final(final(self).graph_ref())@ == final(old(self).graph_ref())@,
            same_shape(old(self).graph(), final(self).graph()),
            0 <= res.0,
            forall|x: int|
                0 <= x < old(self).graph().len() ==> #[trigger] net_flow(final(self).graph(), x) == net_flow(
                    old(self).graph(),
                    x,
                ) + (if x == old(self).source() {
                    res.0 as int
                } else {
                    0
                }) - (if x == old(self).target() {
                    res.0 as int
                } else {
                    0
                }),
            spare_out(final(self).graph(), old(self).source()) + res.0 == spare_out(old(self).graph(), old(self).source()),
            flow_cost(final(self).graph()) == flow_cost(old(self).graph()) + 2 * res.1,
            old(self).source() != old(self).target() ==> !reachable(
                final(self).graph(),
                old(self).source(),
                old(self).target(),
            ),
            no_negative_cycle_from(final(self).graph(), old(self).source()),
            !reachable(old(self).graph(), old(self).source(), old(self).target()) ==> res.0 == 0 && res.1 == 0
                && final(self).graph() == old(self).graph(),
            old(self).source() == old(self).target() ==> res.0 == 0 && res.1 == 0 && final(self).graph() == old(
                self,
            ).graph(),
            (forall|y: int| 0 <= y < old(self).graph().len() ==> #[trigger] no_negative_cycle_from(old(self).graph(), y))
                ==> forall|y: int| 0 <= y < final(self).graph().len() ==> #[trigger] no_negative_cycle_from(final(self).graph(), y),
            (forall|y: int| 0 <= y < old(self).graph().len() ==> #[trigger] no_negative_cycle_from(old(self).graph(), y))
                ==> forall|h: Network|
                well_formed(h) && same_shape(final(self).graph(), h) && (forall|u: int, i: int|
                    #[trigger] is_edge(h, u, i) ==> h[u][i].f <= h[u][i].cap) && (forall|x: int|
                    0 <= x < h.len() ==> #[trigger] net_flow(h, x) == net_flow(final(self).graph(), x)) ==> flow_cost(
                    final(self).graph(),
                ) <= #[trigger] flow_cost(h),
            old(self).source() != old(self).target() && (forall|x: int|
                0 <= x < old(self).graph().len() && x != old(self).source() && x != old(self).target()
                    ==> #[trigger] net_flow(old(self).graph(), x) == 0) ==> forall|h: Network|
                well_formed(h) && same_shape(final(self).graph(), h) && (forall|u: int, i: int|
                    #[trigger] is_edge(h, u, i) ==> h[u][i].f <= h[u][i].cap) && (forall|x: int|
                    0 <= x < h.len() && x != old(self).source() && x != old(self).target() ==> #[trigger] net_flow(h, x)
                        == 0) ==> #[trigger] net_flow(h, old(self).source()) <= net_flow(final(self).graph(), old(self).source()),
            old(self).source() != old(self).target() ==> net_cut_within(
                final(self).graph(),
                old(self).source(),
                old(self).target(),
                i64::MAX as int,
            ),
            (forall|v: int|
                0 <= v < old(self).graph().len() && v != old(self).source() ==> #[trigger] old(self).potentials()[v] is None)
                && (forall|y: int| 0 <= y < old(self).graph().len() ==> #[trigger] no_negative_cycle_from(old(self).graph(), y))
                ==> bf_start_ok(final(self).graph(), final(self).potentials().update(old(self).source(), Some(0i128))),
    {
        let ghost g0 = self.graph();
        let n = self.n;
        let s = self.s;
        let t = self.t;
        let mut maxflow: F = 0;
        let mut cost: i128 = 0;
        let ghost fresh = forall|v: int| 0 <= v < n && v != s ==> #[trigger] old(self).pot@[v] is None;
        assert(self.pot@ == old(self).pot@);
        let ghost nc: int = n * cost_bound();
        let ghost dcut: Seq<bool> = if s != t {
            choose|d: Seq<bool>| d.len() == g0.len() && d[s as int] && !d[t as int] && #[trigger] spare_across_net(g0, d) <= i64::MAX as int
        } else {
            Seq::empty()
        };
        self.init_potentials();
        proof {
            assert(0 <= nc <= 0x1_0000_0000 * cost_bound()) by (nonlinear_arith)
                requires
                    nc == n * cost_bound(),
                    0 <= n <= 0x1_0000_0000,
            ;
        }
        // Queue for Dijkstra.
        let mut q = MinQueue::new();
        // Indices (u, nbi) of the best/chosen edge to v, to trace back the path.
        // The second component is the index in `g.edges[u]` of the edge.
        let mut p: Vec<Option<(usize, usize)>> = vec![None; n];
        // Best distances.
        let mut dist: Vec<Option<i128>> = vec![None; n];
        proof {
            lemma_run_start(g0, s as int, t as int, dcut);
        }
        loop
            invariant
                self.inv(),
                self.n == n,
                self.s == s,
                self.t == t,
                s < n,
                t < n,
                n <= max_nodes(),
                n == g0.len(),
                s == old(self).s,
                t == old(self).t,
                g0 == old(self).graph(),
                final(self.graph_ref())@ == final(old(self).graph_ref())@,
                potential_ok(self.graph(), self.pot@, s as int),
                p@.len() == n,
                dist@.len() == n,
                run_inv(g0, self.graph(), s as int, t as int, maxflow as int, cost as int, dcut),
                s != t ==> dcut.len() == n && dcut[s as int] && !dcut[t as int],
                !reachable(g0, s as int, t as int) ==> maxflow == 0 && cost == 0 && self.graph() == g0,
                s == t ==> maxflow == 0 && cost == 0 && self.graph() == g0,
                nc == n * cost_bound(),
                0 <= nc <= 0x1_0000_0000 * cost_bound(),
                fresh == forall|v: int| 0 <= v < n && v != s ==> #[trigger] old(self).pot@[v] is None,
                fresh ==> -nc <= pv(self.pot@, s as int) <= nc && forall|v: int|
                    0 <= v < n ==> -nc - n * cost_bound() <= #[trigger] pv(self.pot@, v) <= nc + n * cost_bound(),
                (forall|y: int| 0 <= y < n ==> #[trigger] no_negative_cycle_from(g0, y)) ==> forall|y: int|
                    0 <= y < n ==> #[trigger] no_negative_cycle_from(self.graph(), y),
            decreases spare_out(self.graph(), s as int),
        {
            let (tf, Ghost(rank), Ghost(bott)) = self.shortest_paths(&mut q, &mut p, &mut dist);
            proof {
                lemma_tree_facts(self.graph(), self.pot@, s as int, p@, dist@, rank, bott);
            }
            // No new path to t found.
            let it = p[t];
            if it.is_none() {
                proof {
                    lemma_potential_no_negative_cycle(self.graph(), self.pot@, s as int);
                    if forall|y: int| 0 <= y < n ==> #[trigger] no_negative_cycle_from(g0, y) {
                        let gf = self.graph();
                        lemma_heads_ok(gf);
                        let pot = lemma_potentials_exist(gf);
                        assert forall|h: Network|
                            well_formed(h) && same_shape(gf, h) && (forall|u: int, i: int|
                                #[trigger] is_edge(h, u, i) ==> h[u][i].f <= h[u][i].cap) && (forall|x: int|
                                0 <= x < h.len() ==> #[trigger] net_flow(h, x) == net_flow(gf, x)) implies flow_cost(gf)
                            <= #[trigger] flow_cost(h) by {
                            lemma_network_least_cost(gf, h, pot);
                        }
                    }
                    lemma_run_facts(g0, self.graph(), s as int, t as int, maxflow as int, cost as int, dcut);
                    lemma_run_cut(g0, self.graph(), s as int, t as int, maxflow as int, cost as int, dcut);
                    if forall|v: int| 0 <= v < n && v != s ==> #[trigger] old(self).potentials()[v] is None {
                        assert forall|v: int| 0 <= v < n && v != s implies #[trigger] old(self).pot@[v] is None by {
                            assert(old(self).potentials()[v] is None);
                        }
                        assert(fresh);
                    }
                    if fresh && forall|y: int| 0 <= y < n ==> #[trigger] no_negative_cycle_from(g0, y) {
                        lemma_potential_facts(self.graph(), self.pot@, s as int);
                        let p2 = self.pot@.update(s as int, Some(0i128));
                        assert forall|x: int| 0 <= x < n && #[trigger] p2[x] is Some implies -pot_limit() <= p2[x].unwrap()
                            <= pot_limit() && no_negative_cycle_from(self.graph(), x) by {
                            if x != s {
                                assert(p2[x] == self.pot@[x]);
                                assert(-nc - n * cost_bound() <= pv(self.pot@, x) <= nc + n * cost_bound());
                            }
                            assert(no_negative_cycle_from(self.graph(), x));
                        }
                        assert(bf_start_ok(self.graph(), p2));
                    }
                    if s != t {
                        assert(dist@[t as int] is None);
                        if reachable(self.graph(), s as int, t as int) {
                            let w = choose|w: Seq<(int, int)>| is_walk(self.graph(), s as int, w) && walk_end(self.graph(), s as int, w) == t;
                            lemma_tree_reach(self.graph(), self.pot@, s as int, p@, dist@, rank, bott, w);
                        }
                    }
                    if s != t && forall|x: int| 0 <= x < n && x != s && x != t ==> #[trigger] net_flow(g0, x) == 0 {
                        let gf = self.graph();
                        assert forall|x: int| 0 <= x < n && x != s && x != t implies #[trigger] net_flow(gf, x) == 0 by {
                            assert(net_flow(g0, x) == 0);
                        }
                        assert forall|h: Network|
                            well_formed(h) && same_shape(gf, h) && (forall|u: int, i: int|
                                #[trigger] is_edge(h, u, i) ==> h[u][i].f <= h[u][i].cap) && (forall|x: int|
                                0 <= x < h.len() && x != s && x != t ==> #[trigger] net_flow(h, x) == 0) implies #[trigger] net_flow(
                            h,
                            s as int,
                        ) <= net_flow(gf, s as int) by {
                            lemma_network_maximum(gf, h, s as int, t as int);
                        }
                    }
                }
                return (maxflow, cost);
            }
            let ghost g1 = self.graph();
            let ghost pot1 = self.pot@;
            proof {
                assert(t != s);
                assert(dist@[t as int] is Some);
                lemma_tree_reachable(g1, pot1, s as int, p@, dist@, rank, bott, t as int);
            }
            let (dc, Ghost(h)) = self.augment(&p, tf, Ghost(pot1), Ghost(dist@), Ghost(rank), Ghost(bott), Ghost(dcut));
            proof {
                lemma_sum_edges_nonneg(self.graph()[s as int], spare_of());
                lemma_run_step(g0, g1, self.graph(), s as int, t as int, maxflow as int, cost as int, tf as int, dc as int, h, p@, dcut);
            }
            // Update the total flow.
            maxflow = maxflow + tf;
            cost = cost + dc;
            // Update potentials.
            self.update_potentials(&dist, Ghost(g1), Ghost(p@), Ghost(rank), Ghost(bott));
            proof {
                lemma_potential_shift(g1, self.graph(), pot1, s as int, p@, dist@, rank, bott, h, tf as int);
                if forall|y: int| 0 <= y < n ==> #[trigger] no_negative_cycle_from(g1, y) {
                    lemma_shift_global(g1, self.graph(), pot1, s as int, p@, dist@, rank, bott, h, tf as int);
                }
                if fresh {
                    lemma_potential_facts(g1, pot1, s as int);
                    lemma_shift_bound(g1, pot1, s as int, p@, dist@, rank, bott, nc);
                }
            }
        }
    }
}

} // verus!
