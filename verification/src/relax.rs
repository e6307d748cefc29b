//! What the label-correcting search (SPFA) on an edge list establishes: the
//! edge list seen as a residual network, walks along parent pointers, and
//! why a cut-short search means a negative cycle.
use vstd::prelude::*;

use crate::bellman::{finite_count, lemma_finite_count_bounds, lemma_finite_count_update};
use crate::chains::{anc, lemma_reparent, parents_rooted, up};
use crate::edge_list::{Edge, adjacency_ok, has_room, listed, pairs_ok};
use crate::network::{
    EdgeView, Network, Step, heads_ok, is_edge, is_walk, lemma_empty_walk, lemma_shorten, lemma_walk_concat,
    lemma_walk_cost_bound, lemma_walk_push, lemma_walk_subrange, node_at, no_negative_cycle_from, reachable,
    residual, costs_bounded, walk_cost, walk_end,
};

verus! {

/// The edge list as a residual network: node `u`'s `j`-th edge is edge
/// `graph[u][j]` of the list.
pub open spec fn net(edges: Seq<Edge>, graph: Seq<Seq<usize>>) -> Network {
    Seq::new(
        graph.len(),
        |u: int|
            Seq::new(
                graph[u].len(),
                |j: int|
                    {
                        let e = edges[graph[u][j] as int];
                        EdgeView { v: e.to as int, r: 0, cap: e.capacity as int, cost: e.cost as int, f: e.flow as int }
                    },
            ),
    )
}

/// Node `u`'s `j`-th edge in the network is its `j`-th listed edge.
pub proof fn lemma_net_edge(edges: Seq<Edge>, graph: Seq<Seq<usize>>, u: int, j: int)
    requires
        0 <= u < graph.len(),
        0 <= j < graph[u].len(),
    ensures
        net(edges, graph)[u][j].v == edges[graph[u][j] as int].to,
        net(edges, graph)[u][j].cost == edges[graph[u][j] as int].cost,
        residual(net(edges, graph), u, j) == has_room(edges[graph[u][j] as int]),
{
}

/// A set of nodes (those marked `true`) that holds `x` and that no residual
/// edge leaves holds every node reachable from `x`.
pub proof fn lemma_closed_walk(g: Network, d: Seq<bool>, x: int, w: Seq<Step>)
    requires
        d.len() == g.len(),
        0 <= x < g.len(),
        d[x],
        forall|u: int, j: int| #[trigger] residual(g, u, j) && d[u] ==> 0 <= g[u][j].v < g.len() && d[g[u][j].v],
        is_walk(g, x, w),
    ensures
        0 <= walk_end(g, x, w) < g.len(),
        d[walk_end(g, x, w)],
    decreases w.len(),
{
    if w.len() > 0 {
        let l = w.len() - 1;
        lemma_walk_subrange(g, x, w, 0, l);
        assert(w.subrange(0, l) =~= w.drop_last());
        lemma_closed_walk(g, d, x, w.drop_last());
        let st = w[l];
        assert(residual(g, st.0, st.1) && st.0 == node_at(g, x, w, l));
    }
}

/// Along parent edges whose costs stay within the drops of `dist`, the tree
/// path from `anc(u, t)` down to `u` is a residual walk costing at most
/// `dist[u] - dist[anc(u, t)]`.
pub proof fn lemma_chain_walk(
    edges: Seq<Edge>,
    graph: Seq<Seq<usize>>,
    n: int,
    source: int,
    dist: Seq<Option<i128>>,
    parent: Seq<Option<usize>>,
    u: int,
    t: nat,
) -> (w: Seq<Step>)
    requires
        graph.len() == n,
        dist.len() == n,
        parent.len() == n,
        0 <= u < n,
        dist[u] is Some,
        forall|k: int| 0 <= k < edges.len() ==> #[trigger] listed(edges, graph, k),
        forall|k: int| 0 <= k < edges.len() ==> (#[trigger] edges[k]).from < n && edges[k].to < n,
        forall|v: int|
            0 <= v < n && #[trigger] parent[v] is Some ==> {
                let k = parent[v].unwrap() as int;
                &&& 0 <= k < edges.len()
                &&& edges[k].to == v
                &&& has_room(edges[k])
                &&& dist[v] is Some
                &&& dist[edges[k].from as int] is Some
                &&& dist[v].unwrap() >= dist[edges[k].from as int].unwrap() + edges[k].cost
            },
        forall|j: nat| j < t ==> anc(edges, parent, source, u, j) != source && #[trigger] parent[anc(
            edges,
            parent,
            source,
            u,
            j,
        )] is Some,
    ensures
        0 <= anc(edges, parent, source, u, t) < n,
        dist[anc(edges, parent, source, u, t)] is Some,
        is_walk(net(edges, graph), anc(edges, parent, source, u, t), w),
        walk_end(net(edges, graph), anc(edges, parent, source, u, t), w) == u,
        walk_cost(net(edges, graph), w) <= dist[u].unwrap() - dist[anc(edges, parent, source, u, t)].unwrap(),
    decreases t,
{
    let g = net(edges, graph);
    if t == 0 {
        lemma_empty_walk(g, u);
        Seq::empty()
    } else {
        let t1 = (t - 1) as nat;
        let w1 = lemma_chain_walk(edges, graph, n, source, dist, parent, u, t1);
        let a = anc(edges, parent, source, u, t1);
        assert(a != source && parent[a] is Some);
        let e = parent[a].unwrap() as int;
        let b = edges[e].from as int;
        assert(anc(edges, parent, source, u, t) == up(edges, parent, source, a));
        assert(up(edges, parent, source, a) == b);
        assert(listed(edges, graph, e));
        let j = choose|j: int| 0 <= j < graph[b].len() && graph[b][j] == e;
        lemma_net_edge(edges, graph, b, j);
        lemma_empty_walk(g, b);
        lemma_walk_push(g, b, Seq::empty(), b, j);
        let first = Seq::<Step>::empty().push((b, j));
        lemma_walk_concat(g, b, first, w1);
        first + w1
    }
}

/// A relaxation that improves `dist[v]` along edge `graph[u][i]` while `v`
/// lies `t` parent steps above `u` closes a negative cycle through `v`, when
/// the parent edges' costs stay within the drops of `dist`.
pub proof fn lemma_skip_cycle(
    edges: Seq<Edge>,
    graph: Seq<Seq<usize>>,
    n: int,
    source: int,
    dist: Seq<Option<i128>>,
    parent: Seq<Option<usize>>,
    u: int,
    i: int,
    t: nat,
    v: int,
    wv: Seq<Step>,
)
    requires
        graph.len() == n,
        dist.len() == n,
        parent.len() == n,
        0 <= u < n,
        0 <= source < n,
        0 <= i < graph[u].len(),
        graph[u][i] < edges.len(),
        edges[graph[u][i] as int].from == u,
        edges[graph[u][i] as int].to == v,
        has_room(edges[graph[u][i] as int]),
        dist[u] is Some,
        dist[v] is Some,
        dist[u].unwrap() + edges[graph[u][i] as int].cost < dist[v].unwrap(),
        anc(edges, parent, source, u, t) == v,
        is_walk(net(edges, graph), source, wv),
        walk_end(net(edges, graph), source, wv) == v,
        forall|k: int| 0 <= k < edges.len() ==> #[trigger] listed(edges, graph, k),
        forall|k: int| 0 <= k < edges.len() ==> (#[trigger] edges[k]).from < n && edges[k].to < n,
        forall|x: int|
            0 <= x < n && #[trigger] parent[x] is Some ==> {
                let k = parent[x].unwrap() as int;
                &&& 0 <= k < edges.len()
                &&& edges[k].to == x
                &&& has_room(edges[k])
                &&& dist[x] is Some
                &&& dist[edges[k].from as int] is Some
                &&& dist[x].unwrap() >= dist[edges[k].from as int].unwrap() + edges[k].cost
            },
        forall|j: nat| j < t ==> anc(edges, parent, source, u, j) != source && #[trigger] parent[anc(
            edges,
            parent,
            source,
            u,
            j,
        )] is Some,
    ensures
        !no_negative_cycle_from(net(edges, graph), source),
{
    let g = net(edges, graph);
    let w = lemma_chain_walk(edges, graph, n, source, dist, parent, u, t);
    lemma_net_edge(edges, graph, u, i);
    lemma_walk_push(g, v, w, u, i);
    let c = w.push((u, i));
    assert(reachable(g, source, v));
    assert(is_walk(g, v, c) && walk_end(g, v, c) == v && walk_cost(g, c) < 0);
}

/// `a`, raised to the smallest `i128` if below it.
pub open spec fn lo(a: int) -> int {
    if a < i128::MIN {
        i128::MIN as int
    } else {
        a
    }
}

/// The parent edges enter their nodes, have room, and join nodes that have
/// a distance; a node with a distance other than the source has a parent
/// edge.
pub open spec fn parents_ok(edges: Seq<Edge>, dist: Seq<Option<i128>>, parent: Seq<Option<usize>>, n: int, source: int) -> bool {
    &&& forall|v: int|
        0 <= v < n && #[trigger] parent[v] is Some ==> {
            let k = parent[v].unwrap() as int;
            &&& 0 <= k < edges.len()
            &&& edges[k].to == v
            &&& has_room(edges[k])
            &&& dist[v] is Some
            &&& dist[edges[k].from as int] is Some
        }
    &&& forall|v: int| 0 <= v < n && #[trigger] dist[v] is Some ==> v == source || parent[v] is Some
}

/// Each parent edge costs no more than the drop in distance along it.
pub open spec fn tree_tight(edges: Seq<Edge>, dist: Seq<Option<i128>>, parent: Seq<Option<usize>>, n: int) -> bool {
    forall|v: int|
        0 <= v < n && #[trigger] parent[v] is Some ==> dist[v].unwrap() >= dist[edges[parent[v].unwrap() as int].from as int].unwrap()
            + edges[parent[v].unwrap() as int].cost
}

/// The first `lim` edges listed at `x` that have room lead to nodes with a
/// distance.
pub open spec fn closed_upto(edges: Seq<Edge>, graph: Seq<Seq<usize>>, dist: Seq<Option<i128>>, x: int, lim: int) -> bool {
    forall|j: int|
        0 <= j < lim && #[trigger] has_room(edges[graph[x][j] as int]) ==> dist[edges[graph[x][j] as int].to as int] is Some
}

/// ... and the distances there are no larger than through `x`.
pub open spec fn tight_upto(edges: Seq<Edge>, graph: Seq<Seq<usize>>, dist: Seq<Option<i128>>, x: int, lim: int) -> bool {
    forall|j: int|
        0 <= j < lim && #[trigger] has_room(edges[graph[x][j] as int]) ==> dist[edges[graph[x][j] as int].to as int] is Some
            && dist[edges[graph[x][j] as int].to as int].unwrap() <= lo(dist[x].unwrap() + edges[graph[x][j] as int].cost)
}

/// How many of `x`'s edges have been scanned: all, unless `x` is being
/// scanned (then `i`).
pub open spec fn lim_of(graph: Seq<Seq<usize>>, x: int, cur: int, i: int) -> int {
    if x == cur {
        i
    } else {
        graph[x].len() as int
    }
}

/// A node with a distance that is not waiting in the queue has had its
/// scanned edges relaxed.
pub open spec fn closure(edges: Seq<Edge>, graph: Seq<Seq<usize>>, n: int, dist: Seq<Option<i128>>, q: Seq<usize>, cur: int, i: int) -> bool {
    forall|x: int|
        0 <= x < n && #[trigger] dist[x] is Some && !q.contains(x as usize) ==> closed_upto(edges, graph, dist, x, lim_of(graph, x, cur, i))
}

pub open spec fn tight(edges: Seq<Edge>, graph: Seq<Seq<usize>>, n: int, dist: Seq<Option<i128>>, q: Seq<usize>, cur: int, i: int) -> bool {
    forall|x: int|
        0 <= x < n && #[trigger] dist[x] is Some && !q.contains(x as usize) ==> tight_upto(edges, graph, dist, x, lim_of(graph, x, cur, i))
}

/// The end of walk `w` from the source has a distance no larger than the
/// walk's cost.
pub open spec fn covered(g: Network, dist: Seq<Option<i128>>, w: Seq<Step>, source: int) -> bool {
    dist[walk_end(g, source, w)] is Some && dist[walk_end(g, source, w)].unwrap() <= walk_cost(g, w)
}

/// Node `x` waits in the queue with an entry of phase `k`.
pub open spec fn awaiting(q: Seq<usize>, ph: Seq<int>, k: int, x: int) -> bool {
    exists|a: int| 0 <= a < q.len() && q[a] == x && ph[a] == k
}

/// In phase `k`: every walk of at most `k` edges is covered, and so is every
/// walk of `k + 1` edges whose last edge has been scanned since the phase
/// began (for walks shorter than `n`).
pub open spec fn phase_cover(g: Network, dist: Seq<Option<i128>>, q: Seq<usize>, ph: Seq<int>, k: int, n: int, source: int, cur: int, i: int) -> bool {
    &&& forall|w: Seq<Step>|
        is_walk(g, source, w) && w.len() <= k && w.len() < n ==> #[trigger] covered(g, dist, w, source)
    &&& forall|w: Seq<Step>|
        is_walk(g, source, w) && w.len() == k + 1 && w.len() < n && !awaiting(q, ph, k, w.last().0) && (w.last().0 != cur
            || w.last().1 < i) ==> #[trigger] covered(g, dist, w, source)
}

/// The queue's entries come in phase order, at most one phase apart; each
/// node's count of entries is at most one more than the phase of its last.
pub open spec fn phases_ok(q: Seq<usize>, ph: Seq<int>, k: int, last: Seq<int>, cnt: Seq<usize>, n: int) -> bool {
    &&& ph.len() == q.len()
    &&& last.len() == n
    &&& cnt.len() == n
    &&& forall|a: int| 0 <= a < ph.len() ==> k <= #[trigger] ph[a] <= k + 1
    &&& forall|a: int, b: int| 0 <= a < b < ph.len() ==> #[trigger] ph[a] <= #[trigger] ph[b]
    &&& forall|a: int| 0 <= a < q.len() ==> #[trigger] last[q[a] as int] == ph[a]
    &&& forall|v: int|
        0 <= v < n ==> #[trigger] last[v] <= k + 1 && (!q.contains(v as usize) ==> last[v] <= k) && cnt[v] <= last[v]
            + 1
}

/// Every distance is at least the cost of some walk from the source.
pub open spec fn dist_walks(g: Network, dist: Seq<Option<i128>>, n: int, source: int) -> bool {
    forall|x: int|
        0 <= x < n && #[trigger] dist[x] is Some ==> exists|w: Seq<Step>|
            is_walk(g, source, w) && walk_end(g, source, w) == x && walk_cost(g, w) <= dist[x].unwrap()
}

/// Distances stay below `2^31` per node that has one.
pub(crate) open spec fn dist_bounded(dist: Seq<Option<i128>>, n: int) -> bool {
    forall|x: int| 0 <= x < n && #[trigger] dist[x] is Some ==> dist[x].unwrap() <= finite_count(dist) * 0x8000_0000
}

/// The invariant of the search while node `cur` is being scanned (edges
/// before `i` done), or between nodes (`cur == -1`). `clean` tells that no
/// improvement has been skipped; until one is, the parent edges are tight,
/// the scanned edges satisfy the triangle inequality and phases cover
/// walks; after one, a negative cycle is known.
#[verifier::opaque]
pub(crate) open spec fn scan_inv(
    edges: Seq<Edge>,
    graph: Seq<Seq<usize>>,
    n: int,
    source: int,
    dist: Seq<Option<i128>>,
    parent: Seq<Option<usize>>,
    inq: Seq<bool>,
    cnt: Seq<usize>,
    q: Seq<usize>,
    ph: Seq<int>,
    k: int,
    last: Seq<int>,
    clean: bool,
    cur: int,
    i: int,
) -> bool {
    let g = net(edges, graph);
    &&& dist.len() == n && parent.len() == n && inq.len() == n
    &&& 0 <= source < n
    &&& parents_ok(edges, dist, parent, n, source)
    &&& parents_rooted(edges, parent, source)
    &&& dist[source] is Some
    &&& dist[source].unwrap() <= 0
    &&& parent[source] is Some ==> dist[source].unwrap() < 0
    &&& forall|v: int| 0 <= v < n ==> #[trigger] inq[v] == q.contains(v as usize)
    &&& forall|a: int| 0 <= a < q.len() ==> #[trigger] q[a] < n && dist[q[a] as int] is Some
    &&& q.no_duplicates()
    &&& closure(edges, graph, n, dist, q, cur, i)
    &&& phases_ok(q, ph, k, last, cnt, n)
    &&& 0 <= k
    &&& dist_walks(g, dist, n, source)
    &&& dist_bounded(dist, n)
    &&& clean ==> tree_tight(edges, dist, parent, n) && tight(edges, graph, n, dist, q, cur, i) && phase_cover(
        g,
        dist,
        q,
        ph,
        k,
        n,
        source,
        cur,
        i,
    )
    &&& !clean ==> !no_negative_cycle_from(g, source)
}

/// The edge list's static facts the search relies on.
pub open spec fn search_ctx(edges: Seq<Edge>, graph: Seq<Seq<usize>>, n: int) -> bool {
    &&& pairs_ok(edges, n)
    &&& adjacency_ok(edges, graph, n)
    &&& 0 < n <= 0x1_0000_0000
}

/// The search's state when it starts: only the source has a distance (0)
/// and it waits in the queue, in phase 0.
pub(crate) proof fn lemma_scan_start(
    edges: Seq<Edge>,
    graph: Seq<Seq<usize>>,
    n: int,
    source: int,
    dist: Seq<Option<i128>>,
    parent: Seq<Option<usize>>,
    inq: Seq<bool>,
    cnt: Seq<usize>,
    last: Seq<int>,
)
    requires
        search_ctx(edges, graph, n),
        0 <= source < n,
        dist.len() == n && parent.len() == n && inq.len() == n && cnt.len() == n && last.len() == n,
        forall|v: int| 0 <= v < n ==> #[trigger] dist[v] == if v == source { Some(0i128) } else { None },
        forall|v: int| 0 <= v < n ==> #[trigger] parent[v] is None,
        forall|v: int| 0 <= v < n ==> #[trigger] inq[v] == (v == source),
        forall|v: int| 0 <= v < n ==> #[trigger] cnt[v] == if v == source { 1usize } else { 0usize },
        forall|v: int| 0 <= v < n ==> #[trigger] last[v] == if v == source { 0int } else { -1int },
    ensures
        scan_inv(edges, graph, n, source, dist, parent, inq, cnt, seq![source as usize], seq![0int], 0, last, true, -1, 0),
{
    reveal(scan_inv);
    let g = net(edges, graph);
    let q = seq![source as usize];
    let ph = seq![0int];
    lemma_finite_count_bounds(dist);
    assert forall|v: int| 0 <= v < n implies #[trigger] inq[v] == q.contains(v as usize) by {
        if v == source {
            assert(q[0] == v);
        }
    }
    assert forall|x: int| 0 <= x < n && #[trigger] dist[x] is Some implies exists|w: Seq<Step>|
        is_walk(g, source, w) && walk_end(g, source, w) == x && walk_cost(g, w) <= dist[x].unwrap() by {
        lemma_empty_walk(g, source);
    }
    assert forall|w: Seq<Step>| is_walk(g, source, w) && w.len() <= 0 && w.len() < n implies #[trigger] covered(
        g,
        dist,
        w,
        source,
    ) by {
        assert(w =~= Seq::<Step>::empty());
        lemma_empty_walk(g, source);
    }
    assert forall|w: Seq<Step>|
        is_walk(g, source, w) && w.len() == 0 + 1 && w.len() < n && !awaiting(q, ph, 0, w.last().0) && (w.last().0
            != -1 || w.last().1 < 0) implies #[trigger] covered(g, dist, w, source) by {
        assert(w[0].0 == node_at(g, source, w, 0));
        assert(w.last() == w[0]);
        assert(q[0] == source && ph[0] == 0);
    }
    assert forall|v: int|
        0 <= v < n implies #[trigger] last[v] <= 0 + 1 && (!q.contains(v as usize) ==> last[v] <= 0) && cnt[v]
            <= last[v] + 1 by {}
    assert(q.contains(source as usize)) by {
        assert(q[0] == source as usize);
    }
    assert forall|x: int| 0 <= x < n && #[trigger] dist[x] is Some && !q.contains(x as usize) implies closed_upto(
        edges,
        graph,
        dist,
        x,
        lim_of(graph, x, -1, 0),
    ) && tight_upto(edges, graph, dist, x, lim_of(graph, x, -1, 0)) by {
        assert(x == source);
    }
}

/// A walk ends with its last step, taken from where its prefix ends.
pub proof fn lemma_walk_last(g: Network, x: int, w: Seq<Step>)
    requires
        is_walk(g, x, w),
        w.len() > 0,
    ensures
        is_walk(g, x, w.drop_last()),
        walk_end(g, x, w.drop_last()) == w.last().0,
        residual(g, w.last().0, w.last().1),
        walk_end(g, x, w) == g[w.last().0][w.last().1].v,
        walk_cost(g, w) == walk_cost(g, w.drop_last()) + g[w.last().0][w.last().1].cost,
{
    let l = w.len() - 1;
    lemma_walk_subrange(g, x, w, 0, l);
    assert(w.subrange(0, l) =~= w.drop_last());
    assert(residual(g, w[l].0, w[l].1) && w[l].0 == node_at(g, x, w, l));
}

/// Edge costs are `i32`s.
pub proof fn lemma_net_costs(edges: Seq<Edge>, graph: Seq<Seq<usize>>)
    ensures
        costs_bounded(net(edges, graph), 0x8000_0000),
{
}

/// A walk of at most `2^32` edges costs between `-2^63` and `2^63`.
pub proof fn lemma_short_walk_cost(edges: Seq<Edge>, graph: Seq<Seq<usize>>, x: int, w: Seq<Step>)
    requires
        is_walk(net(edges, graph), x, w),
        w.len() <= 0x1_0000_0000,
    ensures
        -0x8000_0000_0000_0000 <= walk_cost(net(edges, graph), w) <= 0x8000_0000_0000_0000,
{
    lemma_net_costs(edges, graph);
    lemma_walk_cost_bound(net(edges, graph), x, w, 0x8000_0000);
    assert(0x8000_0000 * w.len() <= 0x8000_0000_0000_0000) by (nonlinear_arith)
        requires
            w.len() <= 0x1_0000_0000,
    ;
}

/// The phase after taking the front entry off the queue: the next one once
/// the current phase's entries are all gone.
pub open spec fn next_phase(ph: Seq<int>, k: int) -> int {
    if ph[0] == k + 1 {
        k + 1
    } else {
        k
    }
}

/// Taking the front node off the queue to scan it.
pub(crate) proof fn lemma_scan_pop(
    edges: Seq<Edge>,
    graph: Seq<Seq<usize>>,
    n: int,
    source: int,
    dist: Seq<Option<i128>>,
    parent: Seq<Option<usize>>,
    inq: Seq<bool>,
    cnt: Seq<usize>,
    q: Seq<usize>,
    ph: Seq<int>,
    k: int,
    last: Seq<int>,
    clean: bool,
)
    requires
        search_ctx(edges, graph, n),
        scan_inv(edges, graph, n, source, dist, parent, inq, cnt, q, ph, k, last, clean, -1, 0),
        q.len() > 0,
    ensures
        q[0] < n,
        dist[q[0] as int] is Some,
        scan_inv(
            edges,
            graph,
            n,
            source,
            dist,
            parent,
            inq.update(q[0] as int, false),
            cnt,
            q.subrange(1, q.len() as int),
            ph.subrange(1, ph.len() as int),
            next_phase(ph, k),
            last,
            clean,
            q[0] as int,
            0,
        ),
{
    reveal(scan_inv);
    let g = net(edges, graph);
    let u = q[0] as int;
    let q2 = q.subrange(1, q.len() as int);
    let ph2 = ph.subrange(1, ph.len() as int);
    let k2 = next_phase(ph, k);
    let inq2 = inq.update(u, false);
    assert(q.contains(q[0]));
    assert(inq[u]);
    // membership in the rest of the queue
    assert forall|x: int| 0 <= x < n implies #[trigger] q2.contains(x as usize) == (q.contains(x as usize) && x != u) by {
        if q2.contains(x as usize) {
            let a = choose|a: int| 0 <= a < q2.len() && q2[a] == x as usize;
            assert(q[a + 1] == x as usize);
            assert(q[0] != q[a + 1]);
        }
        if q.contains(x as usize) && x != u {
            let a = choose|a: int| 0 <= a < q.len() && q[a] == x as usize;
            assert(a != 0);
            assert(q2[a - 1] == x as usize);
        }
    }
    assert forall|x: int| 0 <= x < n && x != u implies (#[trigger] awaiting(q2, ph2, k, x)) == awaiting(q, ph, k, x) by {
        if awaiting(q2, ph2, k, x) {
            let a = choose|a: int| 0 <= a < q2.len() && q2[a] == x && ph2[a] == k;
            assert(q[a + 1] == x && ph[a + 1] == k);
        }
        if awaiting(q, ph, k, x) {
            let a = choose|a: int| 0 <= a < q.len() && q[a] == x && ph[a] == k;
            assert(a != 0);
            assert(q2[a - 1] == x && ph2[a - 1] == k);
        }
    }
    assert forall|v: int| 0 <= v < n implies #[trigger] inq2[v] == q2.contains(v as usize) by {}
    assert forall|a: int| 0 <= a < q2.len() implies #[trigger] q2[a] < n && dist[q2[a] as int] is Some by {
        assert(q2[a] == q[a + 1]);
    }
    assert(q2.no_duplicates()) by {
        assert forall|a: int, b: int| 0 <= a < q2.len() && 0 <= b < q2.len() && a != b implies q2[a] != q2[b] by {
            assert(q2[a] == q[a + 1] && q2[b] == q[b + 1]);
        }
    }
    assert forall|x: int|
        0 <= x < n && #[trigger] dist[x] is Some && !q2.contains(x as usize) implies closed_upto(
        edges,
        graph,
        dist,
        x,
        lim_of(graph, x, u, 0),
    ) && (clean ==> tight_upto(edges, graph, dist, x, lim_of(graph, x, u, 0))) by {
        if x != u {
            assert(!q.contains(x as usize));
        }
    }
    // phases
    assert(ph[0] == k || ph[0] == k + 1);
    assert forall|a: int| 0 <= a < ph2.len() implies k2 <= #[trigger] ph2[a] <= k2 + 1 by {
        assert(ph2[a] == ph[a + 1]);
        assert(ph[0] <= ph[a + 1]);
    }
    assert forall|a: int, b: int| 0 <= a < b < ph2.len() implies #[trigger] ph2[a] <= #[trigger] ph2[b] by {
        assert(ph2[a] == ph[a + 1] && ph2[b] == ph[b + 1]);
    }
    assert forall|a: int| 0 <= a < q2.len() implies #[trigger] last[q2[a] as int] == ph2[a] by {
        assert(q2[a] == q[a + 1] && ph2[a] == ph[a + 1]);
    }
    assert(last[u] == ph[0]);
    assert forall|v: int|
        0 <= v < n implies #[trigger] last[v] <= k2 + 1 && (!q2.contains(v as usize) ==> last[v] <= k2) && cnt[v]
            <= last[v] + 1 by {
        if v != u && !q2.contains(v as usize) {
            assert(!q.contains(v as usize));
        }
    }
    if clean {
        if ph[0] == k + 1 {
            assert forall|a: int| 0 <= a < q.len() implies ph[a] == k + 1 by {
                assert(ph[0] <= ph[a]);
            }
            assert forall|x: int| !awaiting(q, ph, k, x) by {
                if awaiting(q, ph, k, x) {
                    let a = choose|a: int| 0 <= a < q.len() && q[a] == x && ph[a] == k;
                }
            }
            assert forall|w: Seq<Step>| is_walk(g, source, w) && w.len() <= k2 && w.len() < n implies #[trigger] covered(
                g,
                dist,
                w,
                source,
            ) by {
                if w.len() == k + 1 {
                    assert(!awaiting(q, ph, k, w.last().0));
                }
            }
            assert forall|w: Seq<Step>|
                is_walk(g, source, w) && w.len() == k2 + 1 && w.len() < n && !awaiting(q2, ph2, k2, w.last().0) && (
                w.last().0 != u || w.last().1 < 0) implies #[trigger] covered(g, dist, w, source) by {
                let x = w.last().0;
                let j = w.last().1;
                lemma_walk_last(g, source, w);
                let w0 = w.drop_last();
                assert(covered(g, dist, w0, source));
                assert(0 <= x < n);
                if q2.contains(x as usize) {
                    let a = choose|a: int| 0 <= a < q2.len() && q2[a] == x as usize;
                    assert(ph2[a] == k2);
                    assert(awaiting(q2, ph2, k2, x));
                }
                assert(!q.contains(x as usize));
                assert(tight_upto(edges, graph, dist, x, lim_of(graph, x, -1, 0)));
                lemma_net_edge(edges, graph, x, j);
                assert(has_room(edges[graph[x][j] as int]));
                lemma_short_walk_cost(edges, graph, source, w);
            }
        } else {
            assert forall|w: Seq<Step>|
                is_walk(g, source, w) && w.len() == k2 + 1 && w.len() < n && !awaiting(q2, ph2, k2, w.last().0) && (
                w.last().0 != u || w.last().1 < 0) implies #[trigger] covered(g, dist, w, source) by {
                let x = w.last().0;
                lemma_walk_last(g, source, w);
                assert(0 <= x < n) by {
                    assert(is_edge(g, x, w.last().1));
                }
                assert(!awaiting(q, ph, k, x));
            }
        }
    }
}

/// Scanning edge `i` of `u` leaves everything as it was: the edge has no
/// room, or its head already has a distance no larger than through `u`.
pub(crate) proof fn lemma_scan_keep(
    edges: Seq<Edge>,
    graph: Seq<Seq<usize>>,
    n: int,
    source: int,
    dist: Seq<Option<i128>>,
    parent: Seq<Option<usize>>,
    inq: Seq<bool>,
    cnt: Seq<usize>,
    q: Seq<usize>,
    ph: Seq<int>,
    k: int,
    last: Seq<int>,
    clean: bool,
    u: int,
    i: int,
)
    requires
        search_ctx(edges, graph, n),
        scan_inv(edges, graph, n, source, dist, parent, inq, cnt, q, ph, k, last, clean, u, i),
        0 <= u < n,
        dist[u] is Some,
        0 <= i < graph[u].len(),
        !has_room(edges[graph[u][i] as int]) || (dist[edges[graph[u][i] as int].to as int] is Some
            && dist[edges[graph[u][i] as int].to as int].unwrap() <= lo(dist[u].unwrap() + edges[graph[u][i] as int].cost)),
    ensures
        scan_inv(edges, graph, n, source, dist, parent, inq, cnt, q, ph, k, last, clean, u, i + 1),
{
    reveal(scan_inv);
    let g = net(edges, graph);
    assert forall|x: int|
        0 <= x < n && #[trigger] dist[x] is Some && !q.contains(x as usize) implies closed_upto(
        edges,
        graph,
        dist,
        x,
        lim_of(graph, x, u, i + 1),
    ) && (clean ==> tight_upto(edges, graph, dist, x, lim_of(graph, x, u, i + 1))) by {
        if x == u {
            assert(closed_upto(edges, graph, dist, x, lim_of(graph, x, u, i)));
            assert forall|j: int|
                0 <= j < i + 1 && #[trigger] has_room(edges[graph[x][j] as int]) implies dist[edges[graph[x][j] as int].to as int] is Some by {
                if j < i {
                }
            }
            if clean {
                assert(tight_upto(edges, graph, dist, x, lim_of(graph, x, u, i)));
                assert forall|j: int| 0 <= j < i + 1 && #[trigger] has_room(edges[graph[x][j] as int]) implies dist[edges[graph[x][j] as int].to as int] is Some
                    && dist[edges[graph[x][j] as int].to as int].unwrap() <= lo(dist[x].unwrap() + edges[graph[x][j] as int].cost) by {
                    if j < i {
                    }
                }
            }
        }
    }
    if clean {
        assert forall|w: Seq<Step>|
            is_walk(g, source, w) && w.len() == k + 1 && w.len() < n && !awaiting(q, ph, k, w.last().0) && (w.last().0 != u
                || w.last().1 < i + 1) implies #[trigger] covered(g, dist, w, source) by {
            if w.last().0 == u && w.last().1 == i {
                let j = w.last().1;
                lemma_walk_last(g, source, w);
                let w0 = w.drop_last();
                assert(covered(g, dist, w0, source));
                lemma_net_edge(edges, graph, u, j);
                lemma_short_walk_cost(edges, graph, source, w);
            }
        }
    }
}

/// The network's edges lead to its nodes.
pub proof fn lemma_net_heads(edges: Seq<Edge>, graph: Seq<Seq<usize>>, n: int)
    requires
        search_ctx(edges, graph, n),
    ensures
        heads_ok(net(edges, graph)),
        net(edges, graph).len() == n,
{
    let g = net(edges, graph);
    assert forall|u: int, j: int| #[trigger] is_edge(g, u, j) implies 0 <= g[u][j].v < g.len() by {
        lemma_net_edge(edges, graph, u, j);
        assert(graph[u][j] < edges.len());
        assert(edges[graph[u][j] as int].to < n);
    }
}

/// Improving the distance of `v` through edge `i` of `u`, making that edge
/// `v`'s parent (the walk up from `u` reaches the source in `k0` steps
/// without meeting `v`), and queueing `v` unless it waits already. When
/// `v` has now entered the queue more than `n` times, there is a negative
/// cycle.
pub(crate) proof fn lemma_scan_improve(
    edges: Seq<Edge>,
    graph: Seq<Seq<usize>>,
    n: int,
    source: int,
    dist: Seq<Option<i128>>,
    parent: Seq<Option<usize>>,
    inq: Seq<bool>,
    cnt: Seq<usize>,
    q: Seq<usize>,
    ph: Seq<int>,
    k: int,
    last: Seq<int>,
    clean: bool,
    u: int,
    i: int,
    nd: i128,
    k0: nat,
)
    requires
        search_ctx(edges, graph, n),
        scan_inv(edges, graph, n, source, dist, parent, inq, cnt, q, ph, k, last, clean, u, i),
        0 <= u < n,
        dist[u] is Some,
        0 <= i < graph[u].len(),
        has_room(edges[graph[u][i] as int]),
        nd == lo(dist[u].unwrap() + edges[graph[u][i] as int].cost),
        dist[edges[graph[u][i] as int].to as int] is None || nd < dist[edges[graph[u][i] as int].to as int].unwrap(),
        anc(edges, parent, source, u, k0) == source,
        forall|j: nat| j < k0 ==> anc(edges, parent, source, u, j) != edges[graph[u][i] as int].to,
    ensures
        ({
            let e = graph[u][i];
            let v = edges[e as int].to as int;
            let dist2 = dist.update(v, Some(nd));
            let parent2 = parent.update(v, Some(e));
            &&& !inq[v] ==> scan_inv(
                edges,
                graph,
                n,
                source,
                dist2,
                parent2,
                inq.update(v, true),
                cnt.update(v, (cnt[v] + 1) as usize),
                q.push(v as usize),
                ph.push(k + 1),
                k,
                last.update(v, k + 1),
                clean,
                u,
                i + 1,
            )
            &&& !inq[v] ==> cnt[v] <= k + 1
            &&& !inq[v] && cnt[v] + 1 > n ==> !no_negative_cycle_from(net(edges, graph), source)
            &&& inq[v] ==> scan_inv(edges, graph, n, source, dist2, parent2, inq, cnt, q, ph, k, last, clean, u, i + 1)
        }),
{
    reveal(scan_inv);
    let g = net(edges, graph);
    let e = graph[u][i];
    let c = edges[e as int].cost;
    let v = edges[e as int].to as int;
    let dist2 = dist.update(v, Some(nd));
    let parent2 = parent.update(v, Some(e));
    let pushed = !inq[v];
    let q2 = if pushed { q.push(v as usize) } else { q };
    let ph2 = if pushed { ph.push(k + 1) } else { ph };
    let inq2 = if pushed { inq.update(v, true) } else { inq };
    let cnt2 = if pushed { cnt.update(v, (cnt[v] + 1) as usize) } else { cnt };
    let last2 = if pushed { last.update(v, k + 1) } else { last };
    assert(e < edges.len() && edges[e as int].from == u);
    assert(0 <= v < n);
    lemma_net_edge(edges, graph, u, i);
    lemma_net_heads(edges, graph, n);
    // queue membership
    assert forall|x: int| 0 <= x < n implies #[trigger] q2.contains(x as usize) == (q.contains(x as usize) || x == v) by {
        if pushed {
            if x == v {
                assert(q2[q.len() as int] == x as usize);
            }
            if q.contains(x as usize) {
                let a = choose|a: int| 0 <= a < q.len() && q[a] == x as usize;
                assert(q2[a] == x as usize);
            }
            if q2.contains(x as usize) && x != v {
                let a = choose|a: int| 0 <= a < q2.len() && q2[a] == x as usize;
                assert(a < q.len());
                assert(q[a] == x as usize);
            }
        } else {
            assert(inq[v]);
        }
    }
    assert(q2.contains(v as usize));
    assert forall|v2: int| 0 <= v2 < n implies #[trigger] inq2[v2] == q2.contains(v2 as usize) by {}
    assert forall|a: int| 0 <= a < q2.len() implies #[trigger] q2[a] < n && dist2[q2[a] as int] is Some by {
        if a < q.len() {
            assert(q2[a] == q[a]);
        }
    }
    assert(q2.no_duplicates()) by {
        if pushed {
            assert forall|a: int, b: int| 0 <= a < q2.len() && 0 <= b < q2.len() && a != b implies q2[a] != q2[b] by {
                if a == q.len() {
                    assert(q2[b] == q[b]);
                    assert(!q.contains(v as usize));
                } else if b == q.len() {
                    assert(q2[a] == q[a]);
                    assert(!q.contains(v as usize));
                } else {
                    assert(q2[a] == q[a] && q2[b] == q[b]);
                }
            }
        }
    }
    // parents
    assert forall|w: int|
        0 <= w < n && #[trigger] parent2[w] is Some implies {
            let kk = parent2[w].unwrap() as int;
            &&& 0 <= kk < edges.len()
            &&& edges[kk].to == w
            &&& has_room(edges[kk])
            &&& dist2[w] is Some
            &&& dist2[edges[kk].from as int] is Some
        } by {}
    assert forall|w: int| 0 <= w < n && #[trigger] dist2[w] is Some implies w == source || parent2[w] is Some by {}
    lemma_reparent(edges, parent, source, v, e, k0);
    // closure
    assert forall|x: int|
        0 <= x < n && #[trigger] dist2[x] is Some && !q2.contains(x as usize) implies closed_upto(
        edges,
        graph,
        dist2,
        x,
        lim_of(graph, x, u, i + 1),
    ) && (clean ==> tight_upto(edges, graph, dist2, x, lim_of(graph, x, u, i + 1))) by {
        assert(x != v);
        assert(dist[x] is Some && !q.contains(x as usize));
        assert(closed_upto(edges, graph, dist, x, lim_of(graph, x, u, i)));
        assert forall|j: int|
            0 <= j < lim_of(graph, x, u, i + 1) && #[trigger] has_room(edges[graph[x][j] as int]) implies dist2[edges[graph[x][j] as int].to as int] is Some by {
            if x == u && j == i {
            } else {
                assert(dist[edges[graph[x][j] as int].to as int] is Some);
            }
        }
        if clean {
            assert(tight_upto(edges, graph, dist, x, lim_of(graph, x, u, i)));
            assert forall|j: int| 0 <= j < lim_of(graph, x, u, i + 1) && #[trigger] has_room(edges[graph[x][j] as int]) implies dist2[edges[graph[x][j] as int].to as int] is Some
                && dist2[edges[graph[x][j] as int].to as int].unwrap() <= lo(dist2[x].unwrap() + edges[graph[x][j] as int].cost) by {
                if x == u && j == i {
                } else {
                    assert(dist[edges[graph[x][j] as int].to as int] is Some);
                }
            }
        }
    }
    // phases
    assert(phases_ok(q2, ph2, k, last2, cnt2, n)) by {
        if pushed {
            assert(!q.contains(v as usize));
            assert(last[v] <= k);
            assert forall|a: int| 0 <= a < ph2.len() implies k <= #[trigger] ph2[a] <= k + 1 by {
                if a < ph.len() {
                    assert(ph2[a] == ph[a]);
                }
            }
            assert forall|a: int, b: int| 0 <= a < b < ph2.len() implies #[trigger] ph2[a] <= #[trigger] ph2[b] by {
                if b < ph.len() {
                    assert(ph2[a] == ph[a] && ph2[b] == ph[b]);
                } else {
                    assert(ph2[a] == ph[a]);
                }
            }
            assert forall|a: int| 0 <= a < q2.len() implies #[trigger] last2[q2[a] as int] == ph2[a] by {
                if a < q.len() {
                    assert(q2[a] == q[a] && ph2[a] == ph[a]);
                    assert(q[a] != v as usize);
                }
            }
            assert forall|w: int|
                0 <= w < n implies #[trigger] last2[w] <= k + 1 && (!q2.contains(w as usize) ==> last2[w] <= k)
                    && cnt2[w] <= last2[w] + 1 by {
                if w != v {
                    assert(last[w] <= k + 1 && cnt[w] <= last[w] + 1);
                }
            }
        }
    }
    // walks
    lemma_finite_count_update(dist, v, nd);
    lemma_finite_count_bounds(dist);
    assert(dist[u].unwrap() <= finite_count(dist) * 0x8000_0000);
    assert(finite_count(dist) <= n);
    let wu = choose|w: Seq<Step>| is_walk(g, source, w) && walk_end(g, source, w) == u && walk_cost(g, w) <= dist[u].unwrap();
    lemma_walk_push(g, source, wu, u, i);
    let wv = wu.push((u, i));
    assert(walk_cost(g, wv) <= nd);
    assert forall|x: int|
        0 <= x < n && #[trigger] dist2[x] is Some implies exists|w: Seq<Step>|
            is_walk(g, source, w) && walk_end(g, source, w) == x && walk_cost(g, w) <= dist2[x].unwrap() by {
        if x == v {
            assert(is_walk(g, source, wv) && walk_end(g, source, wv) == x && walk_cost(g, wv) <= dist2[x].unwrap());
        }
    }
    assert forall|x: int| 0 <= x < n && #[trigger] dist2[x] is Some implies dist2[x].unwrap() <= finite_count(dist2) * 0x8000_0000 by {
        if x != v {
            assert(dist[x].unwrap() <= finite_count(dist) * 0x8000_0000);
        }
    }
    if clean {
        // tight parent edges
        assert forall|w: int|
            0 <= w < n && #[trigger] parent2[w] is Some implies dist2[w].unwrap() >= dist2[edges[parent2[w].unwrap() as int].from as int].unwrap()
                + edges[parent2[w].unwrap() as int].cost by {
            if w != v {
                let kk = parent[w].unwrap() as int;
                assert(dist[w].unwrap() >= dist[edges[kk].from as int].unwrap() + edges[kk].cost);
            }
        }
        // walks stay covered; the edge just scanned covers more
        assert forall|w: Seq<Step>|
            is_walk(g, source, w) && w.len() <= k && w.len() < n implies #[trigger] covered(g, dist2, w, source) by {
            assert(covered(g, dist, w, source));
        }
        assert forall|w: Seq<Step>|
            is_walk(g, source, w) && w.len() == k + 1 && w.len() < n && !awaiting(q2, ph2, k, w.last().0) && (w.last().0
                != u || w.last().1 < i + 1) implies #[trigger] covered(g, dist2, w, source) by {
            let x = w.last().0;
            lemma_walk_last(g, source, w);
            assert(0 <= x < n) by {
                assert(is_edge(g, x, w.last().1));
            }
            if awaiting(q, ph, k, x) {
                let a = choose|a: int| 0 <= a < q.len() && q[a] == x && ph[a] == k;
                assert(q2[a] == x && ph2[a] == k);
            }
            if x == u && w.last().1 == i {
                let w0 = w.drop_last();
                assert(covered(g, dist, w0, source));
                lemma_short_walk_cost(edges, graph, source, w);
            } else {
                assert(covered(g, dist, w, source));
            }
        }
    }
    // too many entries means a negative cycle
    if pushed && cnt[v] + 1 > n && clean {
        assert(last[v] <= k);
        if no_negative_cycle_from(g, source) {
            let w2 = lemma_shorten(g, source, wv);
            assert(covered(g, dist, w2, source));
            assert(false);
        }
    }
}

/// Lowering the distance of `v` through edge `i` of `u` without taking the
/// edge as `v`'s parent, because `v` lies `t` steps up from `u`: `v` had a
/// distance already, and there is a negative cycle through it.
#[verifier::rlimit(60)]
pub(crate) proof fn lemma_scan_skip(
    edges: Seq<Edge>,
    graph: Seq<Seq<usize>>,
    n: int,
    source: int,
    dist: Seq<Option<i128>>,
    parent: Seq<Option<usize>>,
    inq: Seq<bool>,
    cnt: Seq<usize>,
    q: Seq<usize>,
    ph: Seq<int>,
    k: int,
    last: Seq<int>,
    clean: bool,
    u: int,
    i: int,
    nd: i128,
    t: nat,
)
    requires
        search_ctx(edges, graph, n),
        scan_inv(edges, graph, n, source, dist, parent, inq, cnt, q, ph, k, last, clean, u, i),
        0 <= u < n,
        dist[u] is Some,
        0 <= i < graph[u].len(),
        has_room(edges[graph[u][i] as int]),
        nd == lo(dist[u].unwrap() + edges[graph[u][i] as int].cost),
        dist[edges[graph[u][i] as int].to as int] is None || nd < dist[edges[graph[u][i] as int].to as int].unwrap(),
        anc(edges, parent, source, u, t) == edges[graph[u][i] as int].to,
        forall|j: nat| j < t ==> anc(edges, parent, source, u, j) != source && #[trigger] parent[anc(
            edges,
            parent,
            source,
            u,
            j,
        )] is Some,
    ensures
        dist[edges[graph[u][i] as int].to as int] is Some,
        scan_inv(
            edges,
            graph,
            n,
            source,
            dist.update(edges[graph[u][i] as int].to as int, Some(nd)),
            parent,
            inq,
            cnt,
            q,
            ph,
            k,
            last,
            false,
            u,
            i + 1,
        ),
{
    reveal(scan_inv);
    let g = net(edges, graph);
    let e = graph[u][i];
    let v = edges[e as int].to as int;
    let dist2 = dist.update(v, Some(nd));
    assert(e < edges.len() && edges[e as int].from == u);
    assert(0 <= v < n);
    lemma_net_edge(edges, graph, u, i);
    if t > 0 {
        let t1 = (t - 1) as nat;
        let a = anc(edges, parent, source, u, t1);
        assert(a != source && parent[a] is Some);
        assert(anc(edges, parent, source, u, t) == up(edges, parent, source, a));
    }
    assert(dist[v] is Some);
    assert forall|w: int|
        0 <= w < n && #[trigger] parent[w] is Some implies {
            let kk = parent[w].unwrap() as int;
            &&& 0 <= kk < edges.len()
            &&& edges[kk].to == w
            &&& has_room(edges[kk])
            &&& dist2[w] is Some
            &&& dist2[edges[kk].from as int] is Some
        } by {}
    assert forall|w: int| 0 <= w < n && #[trigger] dist2[w] is Some implies w == source || parent[w] is Some by {
        assert(dist[w] is Some);
    }
    assert forall|a: int| 0 <= a < q.len() implies #[trigger] q[a] < n && dist2[q[a] as int] is Some by {}
    assert forall|x: int|
        0 <= x < n && #[trigger] dist2[x] is Some && !q.contains(x as usize) implies closed_upto(
        edges,
        graph,
        dist2,
        x,
        lim_of(graph, x, u, i + 1),
    ) by {
        assert(dist[x] is Some);
        assert(closed_upto(edges, graph, dist, x, lim_of(graph, x, u, i)));
        assert forall|j: int|
            0 <= j < lim_of(graph, x, u, i + 1) && #[trigger] has_room(edges[graph[x][j] as int]) implies dist2[edges[graph[x][j] as int].to as int] is Some by {
            if x == u && j == i {
            } else {
                assert(dist[edges[graph[x][j] as int].to as int] is Some);
            }
        }
    }
    let wu = choose|w: Seq<Step>| is_walk(g, source, w) && walk_end(g, source, w) == u && walk_cost(g, w) <= dist[u].unwrap();
    lemma_walk_push(g, source, wu, u, i);
    let wv = wu.push((u, i));
    assert(walk_cost(g, wv) <= nd);
    assert forall|x: int|
        0 <= x < n && #[trigger] dist2[x] is Some implies exists|w: Seq<Step>|
            is_walk(g, source, w) && walk_end(g, source, w) == x && walk_cost(g, w) <= dist2[x].unwrap() by {
        if x == v {
            assert(is_walk(g, source, wv) && walk_end(g, source, wv) == x && walk_cost(g, wv) <= dist2[x].unwrap());
        }
    }
    lemma_finite_count_update(dist, v, nd);
    assert forall|x: int| 0 <= x < n && #[trigger] dist2[x] is Some implies dist2[x].unwrap() <= finite_count(dist2) * 0x8000_0000 by {
        assert(dist[x].unwrap() <= finite_count(dist) * 0x8000_0000);
    }
    if clean {
        lemma_skip_negative(edges, graph, n, source, dist, parent, u, i, t);
    }
}

proof fn lemma_skip_negative(
    edges: Seq<Edge>,
    graph: Seq<Seq<usize>>,
    n: int,
    source: int,
    dist: Seq<Option<i128>>,
    parent: Seq<Option<usize>>,
    u: int,
    i: int,
    t: nat,
)
    requires
        search_ctx(edges, graph, n),
        0 <= source < n,
        dist.len() == n,
        parent.len() == n,
        parents_ok(edges, dist, parent, n, source),
        tree_tight(edges, dist, parent, n),
        dist_walks(net(edges, graph), dist, n, source),
        0 <= u < n,
        dist[u] is Some,
        0 <= i < graph[u].len(),
        has_room(edges[graph[u][i] as int]),
        dist[edges[graph[u][i] as int].to as int] is Some,
        dist[u].unwrap() + edges[graph[u][i] as int].cost < dist[edges[graph[u][i] as int].to as int].unwrap(),
        anc(edges, parent, source, u, t) == edges[graph[u][i] as int].to,
        forall|j: nat| j < t ==> anc(edges, parent, source, u, j) != source && #[trigger] parent[anc(
            edges,
            parent,
            source,
            u,
            j,
        )] is Some,
    ensures
        !no_negative_cycle_from(net(edges, graph), source),
{
    let g = net(edges, graph);
    let v = edges[graph[u][i] as int].to as int;
    assert(0 <= v < n);
    let wv0 = choose|w: Seq<Step>| is_walk(g, source, w) && walk_end(g, source, w) == v && walk_cost(g, w) <= dist[v].unwrap();
    assert forall|x: int|
        0 <= x < n && #[trigger] parent[x] is Some implies {
            let kk = parent[x].unwrap() as int;
            &&& 0 <= kk < edges.len()
            &&& edges[kk].to == x
            &&& has_room(edges[kk])
            &&& dist[x] is Some
            &&& dist[edges[kk].from as int] is Some
            &&& dist[x].unwrap() >= dist[edges[kk].from as int].unwrap() + edges[kk].cost
        } by {}
    assert forall|kk: int| 0 <= kk < edges.len() implies (#[trigger] edges[kk]).from < n && edges[kk].to < n by {}
    lemma_skip_cycle(edges, graph, n, source, dist, parent, u, i, t, v, wv0);
}

/// Plain facts of the search's invariant.
pub(crate) proof fn lemma_scan_facts(
    edges: Seq<Edge>,
    graph: Seq<Seq<usize>>,
    n: int,
    source: int,
    dist: Seq<Option<i128>>,
    parent: Seq<Option<usize>>,
    inq: Seq<bool>,
    cnt: Seq<usize>,
    q: Seq<usize>,
    ph: Seq<int>,
    k: int,
    last: Seq<int>,
    clean: bool,
    cur: int,
    i: int,
)
    requires
        search_ctx(edges, graph, n),
        scan_inv(edges, graph, n, source, dist, parent, inq, cnt, q, ph, k, last, clean, cur, i),
    ensures
        dist.len() == n,
        parent.len() == n,
        inq.len() == n,
        dist[source] is Some,
        forall|v: int| 0 <= v < n ==> #[trigger] inq[v] == q.contains(v as usize),
        forall|a: int| 0 <= a < q.len() ==> #[trigger] q[a] < n && dist[q[a] as int] is Some,
        forall|v: int| 0 <= v < n && #[trigger] dist[v] is Some ==> dist[v].unwrap() <= 0x8000_0000_0000_0000,
        parents_ok(edges, dist, parent, n, source),
        parents_rooted(edges, parent, source),
        forall|v: int| 0 <= v < n && #[trigger] dist[v] is Some ==> reachable(net(edges, graph), source, v),
{
    reveal(scan_inv);
    lemma_finite_count_bounds(dist);
    assert forall|v: int| 0 <= v < n && #[trigger] dist[v] is Some implies dist[v].unwrap() <= 0x8000_0000_0000_0000 by {
        assert(dist[v].unwrap() <= finite_count(dist) * 0x8000_0000);
        assert(finite_count(dist) * 0x8000_0000 <= 0x1_0000_0000 * 0x8000_0000) by (nonlinear_arith)
            requires
                0 <= finite_count(dist) <= 0x1_0000_0000,
        ;
    }
}

/// All of `u`'s edges scanned: back between nodes.
pub(crate) proof fn lemma_scan_node_done(
    edges: Seq<Edge>,
    graph: Seq<Seq<usize>>,
    n: int,
    source: int,
    dist: Seq<Option<i128>>,
    parent: Seq<Option<usize>>,
    inq: Seq<bool>,
    cnt: Seq<usize>,
    q: Seq<usize>,
    ph: Seq<int>,
    k: int,
    last: Seq<int>,
    clean: bool,
    u: int,
)
    requires
        search_ctx(edges, graph, n),
        0 <= u < n,
        scan_inv(edges, graph, n, source, dist, parent, inq, cnt, q, ph, k, last, clean, u, graph[u].len() as int),
    ensures
        scan_inv(edges, graph, n, source, dist, parent, inq, cnt, q, ph, k, last, clean, -1, 0),
{
    reveal(scan_inv);
    let g = net(edges, graph);
    assert forall|x: int| 0 <= x < n implies #[trigger] lim_of(graph, x, u, graph[u].len() as int) == lim_of(graph, x, -1, 0) by {}
    assert forall|x: int|
        0 <= x < n && #[trigger] dist[x] is Some && !q.contains(x as usize) implies closed_upto(
        edges,
        graph,
        dist,
        x,
        lim_of(graph, x, -1, 0),
    ) && (clean ==> tight_upto(edges, graph, dist, x, lim_of(graph, x, -1, 0))) by {
        assert(lim_of(graph, x, u, graph[u].len() as int) == lim_of(graph, x, -1, 0));
    }
    if clean {
        assert forall|w: Seq<Step>|
            is_walk(g, source, w) && w.len() == k + 1 && w.len() < n && !awaiting(q, ph, k, w.last().0) && (w.last().0
                != -1 || w.last().1 < 0) implies #[trigger] covered(g, dist, w, source) by {
            lemma_walk_last(g, source, w);
            assert(is_edge(g, w.last().0, w.last().1));
        }
    }
}

/// An empty queue: every residual edge out of a node with a distance leads
/// to a node with a distance.
pub(crate) proof fn lemma_scan_done(
    edges: Seq<Edge>,
    graph: Seq<Seq<usize>>,
    n: int,
    source: int,
    dist: Seq<Option<i128>>,
    parent: Seq<Option<usize>>,
    inq: Seq<bool>,
    cnt: Seq<usize>,
    q: Seq<usize>,
    ph: Seq<int>,
    k: int,
    last: Seq<int>,
    clean: bool,
)
    requires
        search_ctx(edges, graph, n),
        scan_inv(edges, graph, n, source, dist, parent, inq, cnt, q, ph, k, last, clean, -1, 0),
        q.len() == 0,
    ensures
        forall|kk: int|
            0 <= kk < edges.len() && has_room(#[trigger] edges[kk]) && dist[edges[kk].from as int] is Some ==> dist[edges[kk].to as int] is Some,
{
    reveal(scan_inv);
    assert forall|kk: int|
        0 <= kk < edges.len() && has_room(#[trigger] edges[kk]) && dist[edges[kk].from as int] is Some implies dist[edges[kk].to as int] is Some by {
        let x = edges[kk].from as int;
        assert(listed(edges, graph, kk));
        let j = choose|j: int| 0 <= j < graph[x].len() && graph[x][j] == kk;
        assert(0 <= x < n);
        assert(!q.contains(x as usize));
        assert(closed_upto(edges, graph, dist, x, lim_of(graph, x, -1, 0)));
        assert(has_room(edges[graph[x][j] as int]));
    }
}

/// When no negative cycle is reachable from the source, a finished search
/// never skipped an improvement: its distances satisfy the triangle
/// inequality on every residual edge, parent edges cost no more than the
/// drop in distance, and no distance is below `-2^63`.
pub(crate) proof fn lemma_scan_done_clean(
    edges: Seq<Edge>,
    graph: Seq<Seq<usize>>,
    n: int,
    source: int,
    dist: Seq<Option<i128>>,
    parent: Seq<Option<usize>>,
    inq: Seq<bool>,
    cnt: Seq<usize>,
    q: Seq<usize>,
    ph: Seq<int>,
    k: int,
    last: Seq<int>,
    clean: bool,
)
    requires
        search_ctx(edges, graph, n),
        scan_inv(edges, graph, n, source, dist, parent, inq, cnt, q, ph, k, last, clean, -1, 0),
        q.len() == 0,
        no_negative_cycle_from(net(edges, graph), source),
    ensures
        forall|kk: int|
            0 <= kk < edges.len() && has_room(#[trigger] edges[kk]) && dist[edges[kk].from as int] is Some ==> dist[edges[kk].to as int] is Some
                && dist[edges[kk].to as int].unwrap() <= dist[edges[kk].from as int].unwrap() + edges[kk].cost,
        tree_tight(edges, dist, parent, n),
        forall|x: int| 0 <= x < n && #[trigger] dist[x] is Some ==> dist[x].unwrap() >= -0x8000_0000_0000_0000,
        dist[source] == Some(0i128),
        parent[source] is None,
{
    reveal(scan_inv);
    let g = net(edges, graph);
    assert(clean);
    lemma_net_heads(edges, graph, n);
    let ws = choose|w: Seq<Step>| is_walk(g, source, w) && walk_end(g, source, w) == source && walk_cost(g, w) <= dist[source].unwrap();
    crate::network::lemma_reachable_self(g, source);
    assert(walk_cost(g, ws) >= 0);
    assert forall|x: int| 0 <= x < n && #[trigger] dist[x] is Some implies dist[x].unwrap() >= -0x8000_0000_0000_0000 by {
        let w = choose|w: Seq<Step>| is_walk(g, source, w) && walk_end(g, source, w) == x && walk_cost(g, w) <= dist[x].unwrap();
        let w2 = lemma_shorten(g, source, w);
        lemma_short_walk_cost(edges, graph, source, w2);
    }
    assert forall|kk: int|
        0 <= kk < edges.len() && has_room(#[trigger] edges[kk]) && dist[edges[kk].from as int] is Some implies dist[edges[kk].to as int] is Some
            && dist[edges[kk].to as int].unwrap() <= dist[edges[kk].from as int].unwrap() + edges[kk].cost by {
        let x = edges[kk].from as int;
        assert(listed(edges, graph, kk));
        let j = choose|j: int| 0 <= j < graph[x].len() && graph[x][j] == kk;
        assert(0 <= x < n);
        assert(!q.contains(x as usize));
        assert(tight_upto(edges, graph, dist, x, lim_of(graph, x, -1, 0)));
        assert(has_room(edges[graph[x][j] as int]));
        assert(dist[x].unwrap() >= -0x8000_0000_0000_0000);
    }
}

} // verus!
