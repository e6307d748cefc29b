//! The mathematical model of a flow network stored as adjacency lists, and
//! the facts about residual walks, flow sums and potentials that the
//! algorithms rely on.
use vstd::prelude::*;
use vstd::set_lib::set_int_range;

verus! {

/// One edge slot of an adjacency list, as mathematical integers.
pub struct EdgeView {
    /// Head of the edge.
    pub v: int,
    /// Index of the paired (reverse) edge in the head's list.
    pub r: int,
    /// Capacity.
    pub cap: int,
    /// Cost of one unit of flow.
    pub cost: int,
    /// Current flow.
    pub f: int,
}

/// A network: `g[u]` is the list of edges leaving node `u`.
pub type Network = Seq<Seq<EdgeView>>;

/// One step of a walk: the edge `g[u][i]` taken from node `u`.
pub type Step = (int, int);

pub open spec fn is_edge(g: Network, u: int, i: int) -> bool {
    0 <= u < g.len() && 0 <= i < g[u].len()
}

/// The local conditions on one edge slot: its head and pair exist, its flow
/// stays within its capacity (or is non-positive), and it is paired with a
/// different slot, its reverse, that carries the opposite flow and the
/// opposite cost.
pub open spec fn edge_ok(g: Network, u: int, i: int) -> bool {
    let e = g[u][i];
    &&& 0 <= e.v < g.len()
    &&& 0 <= e.r < g[e.v].len()
    &&& (e.f <= e.cap || e.f <= 0)
    &&& !(e.v == u && e.r == i)
    &&& {
        let b = g[e.v][e.r];
        &&& b.v == u
        &&& b.r == i
        &&& b.f == -e.f
        &&& b.cost == -e.cost
    }
}

pub open spec fn well_formed(g: Network) -> bool {
    forall|u: int, i: int| #[trigger] is_edge(g, u, i) ==> edge_ok(g, u, i)
}

/// Every edge's head is a node of the network.
pub open spec fn heads_ok(g: Network) -> bool {
    forall|u: int, i: int| #[trigger] is_edge(g, u, i) ==> 0 <= g[u][i].v < g.len()
}

pub proof fn lemma_heads_ok(g: Network)
    requires
        well_formed(g),
    ensures
        heads_ok(g),
{
    assert forall|u: int, i: int| #[trigger] is_edge(g, u, i) implies 0 <= g[u][i].v < g.len() by {
        assert(edge_ok(g, u, i));
    }
}

/// The edge `g[u][i]` can take more flow.
pub open spec fn residual(g: Network, u: int, i: int) -> bool {
    is_edge(g, u, i) && g[u][i].f < g[u][i].cap
}

/// Two networks with the same nodes and edges, that may differ in flows only.
pub open spec fn same_shape(g1: Network, g2: Network) -> bool {
    &&& g1.len() == g2.len()
    &&& forall|u: int| 0 <= u < g1.len() ==> #[trigger] g1[u].len() == g2[u].len()
    &&& forall|u: int, i: int|
        #[trigger] is_edge(g1, u, i) ==> {
            &&& g1[u][i].v == g2[u][i].v
            &&& g1[u][i].r == g2[u][i].r
            &&& g1[u][i].cap == g2[u][i].cap
            &&& g1[u][i].cost == g2[u][i].cost
        }
}

pub open spec fn step_head(g: Network, st: Step) -> int {
    g[st.0][st.1].v
}

/// The node reached after the first `k` steps of walk `w` from `x`.
pub open spec fn node_at(g: Network, x: int, w: Seq<Step>, k: int) -> int {
    if k == 0 {
        x
    } else {
        step_head(g, w[k - 1])
    }
}

pub open spec fn walk_end(g: Network, x: int, w: Seq<Step>) -> int {
    node_at(g, x, w, w.len() as int)
}

/// `w` is a walk from `x` along residual edges.
pub open spec fn is_walk(g: Network, x: int, w: Seq<Step>) -> bool {
    forall|k: int|
        0 <= k < w.len() ==> residual(g, #[trigger] w[k].0, w[k].1) && w[k].0 == node_at(
            g,
            x,
            w,
            k,
        )
}

pub open spec fn walk_cost(g: Network, w: Seq<Step>) -> int
    decreases w.len(),
{
    if w.len() == 0 {
        0
    } else {
        walk_cost(g, w.drop_last()) + g[w.last().0][w.last().1].cost
    }
}

/// `y` can be reached from `x` in the residual network.
pub open spec fn reachable(g: Network, x: int, y: int) -> bool {
    exists|w: Seq<Step>| is_walk(g, x, w) && walk_end(g, x, w) == y
}

/// No closed residual walk through a node reachable from `x` has negative cost.
pub open spec fn no_negative_cycle_from(g: Network, x: int) -> bool {
    forall|y: int, c: Seq<Step>|
        reachable(g, x, y) && is_walk(g, y, c) && walk_end(g, y, c) == y ==> walk_cost(g, c) >= 0
}

/// Every edge cost lies in `[-b, b]`.
pub open spec fn costs_bounded(g: Network, b: int) -> bool {
    forall|u: int, i: int| #[trigger] is_edge(g, u, i) ==> -b <= g[u][i].cost <= b
}

// ---------------------------------------------------------------------------
// Walks
// ---------------------------------------------------------------------------
pub proof fn lemma_empty_walk(g: Network, x: int)
    ensures
        is_walk(g, x, Seq::<Step>::empty()),
        walk_end(g, x, Seq::<Step>::empty()) == x,
        walk_cost(g, Seq::<Step>::empty()) == 0,
{
}

pub proof fn lemma_walk_push(g: Network, x: int, w: Seq<Step>, u: int, i: int)
    requires
        is_walk(g, x, w),
        walk_end(g, x, w) == u,
        residual(g, u, i),
    ensures
        is_walk(g, x, w.push((u, i))),
        walk_end(g, x, w.push((u, i))) == g[u][i].v,
        walk_cost(g, w.push((u, i))) == walk_cost(g, w) + g[u][i].cost,
{
    let w2 = w.push((u, i));
    assert(w2.drop_last() =~= w);
    assert forall|k: int| 0 <= k < w2.len() implies residual(g, #[trigger] w2[k].0, w2[k].1)
        && w2[k].0 == node_at(g, x, w2, k) by {
        if k < w.len() {
            assert(w2[k] == w[k]);
            if k > 0 {
                assert(w2[k - 1] == w[k - 1]);
            }
        } else {
            if k > 0 {
                assert(w2[k - 1] == w[k - 1]);
            }
        }
    }
}

pub proof fn lemma_walk_cost_concat(g: Network, w1: Seq<Step>, w2: Seq<Step>)
    ensures
        walk_cost(g, w1 + w2) == walk_cost(g, w1) + walk_cost(g, w2),
    decreases w2.len(),
{
    if w2.len() == 0 {
        assert(w1 + w2 =~= w1);
    } else {
        assert((w1 + w2).drop_last() =~= w1 + w2.drop_last());
        lemma_walk_cost_concat(g, w1, w2.drop_last());
    }
}

/// A piece of a walk is a walk between the corresponding nodes.
pub proof fn lemma_walk_subrange(g: Network, x: int, w: Seq<Step>, i: int, j: int)
    requires
        is_walk(g, x, w),
        0 <= i <= j <= w.len(),
    ensures
        is_walk(g, node_at(g, x, w, i), w.subrange(i, j)),
        walk_end(g, node_at(g, x, w, i), w.subrange(i, j)) == node_at(g, x, w, j),
{
    let s = w.subrange(i, j);
    let y = node_at(g, x, w, i);
    assert forall|k: int| 0 <= k < s.len() implies residual(g, #[trigger] s[k].0, s[k].1) && s[k].0
        == node_at(g, y, s, k) by {
        assert(s[k] == w[i + k]);
        assert(w[i + k].0 == node_at(g, x, w, i + k));
        if k > 0 {
            assert(s[k - 1] == w[i + k - 1]);
        }
    }
    if j > i {
        assert(s[j - i - 1] == w[j - 1]);
    }
}

pub proof fn lemma_walk_concat(g: Network, x: int, w1: Seq<Step>, w2: Seq<Step>)
    requires
        is_walk(g, x, w1),
        is_walk(g, walk_end(g, x, w1), w2),
    ensures
        is_walk(g, x, w1 + w2),
        walk_end(g, x, w1 + w2) == walk_end(g, walk_end(g, x, w1), w2),
        walk_cost(g, w1 + w2) == walk_cost(g, w1) + walk_cost(g, w2),
{
    let w = w1 + w2;
    let y = walk_end(g, x, w1);
    lemma_walk_cost_concat(g, w1, w2);
    assert forall|k: int| 0 <= k < w.len() implies residual(g, #[trigger] w[k].0, w[k].1) && w[k].0
        == node_at(g, x, w, k) by {
        if k < w1.len() {
            assert(w[k] == w1[k]);
            if k > 0 {
                assert(w[k - 1] == w1[k - 1]);
            }
        } else {
            assert(w[k] == w2[k - w1.len()]);
            assert(w2[k - w1.len()].0 == node_at(g, y, w2, k - w1.len()));
            if k > 0 {
                assert(w[k - 1] == if k - 1 < w1.len() {
                    w1[k - 1]
                } else {
                    w2[k - 1 - w1.len()]
                });
            }
        }
    }
    if w2.len() > 0 {
        assert(w[w.len() - 1] == w2[w2.len() - 1]);
    }
}

/// The walk and the cost of a walk split at three points.
proof fn lemma_walk_split_cost(g: Network, w: Seq<Step>, i: int, j: int)
    requires
        0 <= i <= j <= w.len(),
    ensures
        walk_cost(g, w) == walk_cost(g, w.subrange(0, i)) + walk_cost(g, w.subrange(i, j))
            + walk_cost(g, w.subrange(j, w.len() as int)),
{
    let a = w.subrange(0, i);
    let b = w.subrange(i, j);
    let c = w.subrange(j, w.len() as int);
    assert(w =~= a + b + c);
    lemma_walk_cost_concat(g, a + b, c);
    lemma_walk_cost_concat(g, a, b);
}

/// A sequence of more than `n` values in `[0, n)` repeats a value.
pub proof fn lemma_pigeonhole(s: Seq<int>, n: int)
    requires
        0 <= n < s.len(),
        forall|k: int| 0 <= k < s.len() ==> 0 <= #[trigger] s[k] < n,
    ensures
        exists|i: int, j: int| 0 <= i < j < s.len() && s[i] == s[j],
{
    if !(exists|i: int, j: int| 0 <= i < j < s.len() && s[i] == s[j]) {
        assert(s.no_duplicates()) by {
            assert forall|i: int, j: int|
                0 <= i < s.len() && 0 <= j < s.len() && i != j implies s[i] != s[j] by {
                if i < j {
                    assert(!(s[i] == s[j]));
                } else {
                    assert(!(s[j] == s[i]));
                }
            }
        }
        s.unique_seq_to_set();
        vstd::set_lib::lemma_int_range(0, n);
        assert(s.to_set().subset_of(set_int_range(0, n)));
        vstd::set_lib::lemma_len_subset(s.to_set(), set_int_range(0, n));
    }
}

/// Appending a new value in `[0, n)` to a list of distinct such values keeps
/// it distinct and no longer than `n`.
pub proof fn lemma_distinct_push(trail: Seq<int>, x: int, n: int)
    requires
        trail.no_duplicates(),
        forall|k: int| 0 <= k < trail.len() ==> 0 <= #[trigger] trail[k] < n,
        !trail.contains(x),
        0 <= x < n,
    ensures
        trail.push(x).no_duplicates(),
        trail.push(x).len() <= n,
{
    let t2 = trail.push(x);
    assert forall|a: int, b: int| 0 <= a < t2.len() && 0 <= b < t2.len() && a != b implies t2[a] != t2[b] by {
        if a == trail.len() {
            assert(t2[b] == trail[b]);
        } else if b == trail.len() {
            assert(t2[a] == trail[a]);
        }
    }
    if t2.len() > n {
        assert forall|k: int| 0 <= k < t2.len() implies 0 <= #[trigger] t2[k] < n by {
            if k < trail.len() {
                assert(t2[k] == trail[k]);
            }
        }
        lemma_pigeonhole(t2, n);
        let (a, b) = choose|a: int, b: int| 0 <= a < b < t2.len() && t2[a] == t2[b];
        assert(false);
    }
}

/// Without negative cycles, every walk can be replaced by one with fewer
/// edges than there are nodes, between the same nodes, at no greater cost.
pub proof fn lemma_shorten(g: Network, x: int, w: Seq<Step>) -> (w2: Seq<Step>)
    requires
        heads_ok(g),
        0 <= x < g.len(),
        is_walk(g, x, w),
        no_negative_cycle_from(g, x),
    ensures
        is_walk(g, x, w2),
        walk_end(g, x, w2) == walk_end(g, x, w),
        w2.len() < g.len(),
        walk_cost(g, w2) <= walk_cost(g, w),
    decreases w.len(),
{
    if w.len() < g.len() {
        w
    } else {
        let nodes = Seq::new((w.len() + 1) as nat, |k: int| node_at(g, x, w, k));
        assert forall|k: int| 0 <= k < nodes.len() implies 0 <= #[trigger] nodes[k] < g.len() by {
            if k > 0 {
                let st = w[k - 1];
                assert(residual(g, w[k - 1].0, w[k - 1].1));
                assert(is_edge(g, st.0, st.1));
            }
        }
        lemma_pigeonhole(nodes, g.len() as int);
        let (i, j) = choose|i: int, j: int| 0 <= i < j < nodes.len() && nodes[i] == nodes[j];
        assert(nodes[i] == node_at(g, x, w, i));
        assert(nodes[j] == node_at(g, x, w, j));
        let y = node_at(g, x, w, i);
        let pre = w.subrange(0, i);
        let cyc = w.subrange(i, j);
        let post = w.subrange(j, w.len() as int);
        lemma_walk_subrange(g, x, w, 0, i);
        lemma_walk_subrange(g, x, w, i, j);
        lemma_walk_subrange(g, x, w, j, w.len() as int);
        assert(node_at(g, x, w, 0) == x);
        assert(reachable(g, x, y));
        assert(walk_cost(g, cyc) >= 0);
        lemma_walk_split_cost(g, w, i, j);
        lemma_walk_concat(g, x, pre, post);
        let w1 = pre + post;
        lemma_shorten(g, x, w1)
    }
}

/// A residual walk costs nothing negative when no residual edge does.
proof fn lemma_walk_cost_nonneg(g: Network, x: int, w: Seq<Step>)
    requires
        is_walk(g, x, w),
        forall|u: int, i: int| #[trigger] residual(g, u, i) ==> g[u][i].cost >= 0,
    ensures
        walk_cost(g, w) >= 0,
    decreases w.len(),
{
    if w.len() > 0 {
        let l = w.len() - 1;
        lemma_walk_subrange(g, x, w, 0, l);
        assert(w.subrange(0, l) =~= w.drop_last());
        lemma_walk_cost_nonneg(g, x, w.drop_last());
        assert(residual(g, w[l].0, w[l].1));
    }
}

/// Without residual edges of negative cost there is no negative cycle.
pub proof fn lemma_no_negative_cycle_nonneg(g: Network, x: int)
    requires
        forall|u: int, i: int| #[trigger] residual(g, u, i) ==> g[u][i].cost >= 0,
    ensures
        no_negative_cycle_from(g, x),
{
    assert forall|y: int, c: Seq<Step>| reachable(g, x, y) && is_walk(g, y, c) && walk_end(g, y, c) == y implies walk_cost(
        g,
        c,
    ) >= 0 by {
        lemma_walk_cost_nonneg(g, y, c);
    }
}

/// A walk's cost is bounded by its length times the largest edge cost.
pub proof fn lemma_walk_cost_bound(g: Network, x: int, w: Seq<Step>, b: int)
    requires
        is_walk(g, x, w),
        costs_bounded(g, b),
    ensures
        -b * w.len() <= walk_cost(g, w) <= b * w.len(),
    decreases w.len(),
{
    if w.len() > 0 {
        let w1 = w.drop_last();
        lemma_walk_subrange(g, x, w, 0, w.len() - 1);
        assert(w1 =~= w.subrange(0, w.len() - 1));
        lemma_walk_cost_bound(g, x, w1, b);
        let st = w[w.len() - 1];
        assert(residual(g, st.0, st.1));
        assert(is_edge(g, st.0, st.1));
        assert(b * w.len() == b * w1.len() + b && -b * w.len() == -b * w1.len() - b)
            by (nonlinear_arith)
            requires
                w.len() == w1.len() + 1,
        ;
        assert(walk_cost(g, w) == walk_cost(g, w1) + g[st.0][st.1].cost);
    }
}

/// Reachability is transitive along one residual edge.
pub proof fn lemma_reachable_step(g: Network, x: int, u: int, i: int)
    requires
        reachable(g, x, u),
        residual(g, u, i),
    ensures
        reachable(g, x, g[u][i].v),
{
    let w = choose|w: Seq<Step>| is_walk(g, x, w) && walk_end(g, x, w) == u;
    lemma_walk_push(g, x, w, u, i);
}

pub proof fn lemma_reachable_self(g: Network, x: int)
    ensures
        reachable(g, x, x),
{
    lemma_empty_walk(g, x);
}


// ---------------------------------------------------------------------------
// Sums over edges
// ---------------------------------------------------------------------------
pub open spec fn sum_edges(s: Seq<EdgeView>, m: spec_fn(EdgeView) -> int) -> int
    decreases s.len(),
{
    if s.len() == 0 {
        0
    } else {
        sum_edges(s.drop_last(), m) + m(s.last())
    }
}

pub open spec fn sum_rows(g: Network, m: spec_fn(EdgeView) -> int) -> int
    decreases g.len(),
{
    if g.len() == 0 {
        0
    } else {
        sum_rows(g.drop_last(), m) + sum_edges(g.last(), m)
    }
}

pub open spec fn flow_of() -> spec_fn(EdgeView) -> int {
    |e: EdgeView| e.f
}

pub open spec fn spare_of() -> spec_fn(EdgeView) -> int {
    |e: EdgeView|
        if e.f < e.cap {
            e.cap - e.f
        } else {
            0
        }
}

pub open spec fn flow_cost_of() -> spec_fn(EdgeView) -> int {
    |e: EdgeView| e.f * e.cost
}

/// Net flow out of `u`: the sum of the flows on the edges that leave it
/// (a reverse edge carries the negated flow of its arc).
pub open spec fn net_flow(g: Network, u: int) -> int {
    sum_edges(g[u], flow_of())
}

/// Total residual capacity on the edges leaving `u`.
pub open spec fn spare_out(g: Network, u: int) -> int {
    sum_edges(g[u], spare_of())
}

/// Sum of flow times cost over all edge slots. A unit of flow on an arc is
/// counted on the arc and again on its reverse (negative flow, negated cost).
pub open spec fn flow_cost(g: Network) -> int {
    sum_rows(g, flow_cost_of())
}

pub proof fn lemma_sum_edges_update(s: Seq<EdgeView>, i: int, e: EdgeView, m: spec_fn(EdgeView) -> int)
    requires
        0 <= i < s.len(),
    ensures
        sum_edges(s.update(i, e), m) == sum_edges(s, m) - m(s[i]) + m(e),
    decreases s.len(),
{
    let s2 = s.update(i, e);
    if i == s.len() - 1 {
        assert(s2.drop_last() =~= s.drop_last());
    } else {
        assert(s2.drop_last() =~= s.drop_last().update(i, e));
        lemma_sum_edges_update(s.drop_last(), i, e, m);
    }
}

pub proof fn lemma_sum_rows_update(g: Network, u: int, row: Seq<EdgeView>, m: spec_fn(EdgeView) -> int)
    requires
        0 <= u < g.len(),
    ensures
        sum_rows(g.update(u, row), m) == sum_rows(g, m) - sum_edges(g[u], m) + sum_edges(row, m),
    decreases g.len(),
{
    let g2 = g.update(u, row);
    if u == g.len() - 1 {
        assert(g2.drop_last() =~= g.drop_last());
    } else {
        assert(g2.drop_last() =~= g.drop_last().update(u, row));
        lemma_sum_rows_update(g.drop_last(), u, row, m);
    }
}

pub proof fn lemma_sum_edges_nonneg(s: Seq<EdgeView>, m: spec_fn(EdgeView) -> int)
    requires
        forall|e: EdgeView| #[trigger] m(e) >= 0,
    ensures
        sum_edges(s, m) >= 0,
    decreases s.len(),
{
    if s.len() > 0 {
        lemma_sum_edges_nonneg(s.drop_last(), m);
        assert(m(s.last()) >= 0);
    }
}

// ---------------------------------------------------------------------------
// Pushing flow along one edge and its reverse
// ---------------------------------------------------------------------------
/// The network after `d` more units of flow on `g[u][i]` (and `d` fewer on
/// its reverse).
pub open spec fn push_flow(g: Network, u: int, i: int, d: int) -> Network {
    let e = g[u][i];
    let g1 = g.update(u, g[u].update(i, EdgeView { f: e.f + d, ..e }));
    let b = g1[e.v][e.r];
    g1.update(e.v, g1[e.v].update(e.r, EdgeView { f: b.f - d, ..b }))
}

pub proof fn lemma_push_flow(g: Network, u: int, i: int, d: int)
    requires
        well_formed(g),
        is_edge(g, u, i),
        g[u][i].v != u,
        0 <= d,
        g[u][i].f + d <= g[u][i].cap,
    ensures
        well_formed(push_flow(g, u, i, d)),
        same_shape(g, push_flow(g, u, i, d)),
        forall|x: int|
            0 <= x < g.len() ==> #[trigger] net_flow(push_flow(g, u, i, d), x) == net_flow(g, x) + (
            if x == u {
                d
            } else {
                0
            }) - (if x == g[u][i].v {
                d
            } else {
                0
            }),
        forall|x: int|
            0 <= x < g.len() && x != u && x != g[u][i].v ==> #[trigger] spare_out(
                push_flow(g, u, i, d),
                x,
            ) == spare_out(g, x),
        spare_out(push_flow(g, u, i, d), u) == spare_out(g, u) - d,
        flow_cost(push_flow(g, u, i, d)) == flow_cost(g) + 2 * d * g[u][i].cost,
        forall|x: int, k: int|
            #[trigger] is_edge(g, x, k) ==> push_flow(g, u, i, d)[x][k].f == g[x][k].f + (if x == u
                && k == i {
                d
            } else {
                0
            }) - (if x == g[u][i].v && k == g[u][i].r {
                d
            } else {
                0
            }),
{
    let e = g[u][i];
    let v = e.v;
    let r = e.r;
    assert(edge_ok(g, u, i));
    let e1 = EdgeView { f: e.f + d, ..e };
    let row_u = g[u].update(i, e1);
    let g1 = g.update(u, row_u);
    let b = g1[v][r];
    assert(b == g[v][r]);
    let b1 = EdgeView { f: b.f - d, ..b };
    let row_v = g1[v].update(r, b1);
    let g2 = g1.update(v, row_v);
    assert(g2 == push_flow(g, u, i, d));
    assert forall|x: int, k: int| #[trigger] is_edge(g, x, k) implies g2[x][k].f == g[x][k].f + (
    if x == u && k == i {
        d
    } else {
        0
    }) - (if x == v && k == r {
        d
    } else {
        0
    }) && g2[x][k].v == g[x][k].v && g2[x][k].r == g[x][k].r && g2[x][k].cap == g[x][k].cap
        && g2[x][k].cost == g[x][k].cost by {}
    assert(same_shape(g, g2));
    // well-formedness
    assert forall|x: int, k: int| #[trigger] is_edge(g2, x, k) implies edge_ok(g2, x, k) by {
        assert(is_edge(g, x, k));
        assert(edge_ok(g, x, k));
        let a = g[x][k];
        assert(is_edge(g, a.v, a.r));
        if x == v && k == r {
            assert(a.v == u && a.r == i);
        }
        if a.v == v && a.r == r {
            assert(x == u && k == i);
        }
        if x == u && k == i {
        }
        if a.v == u && a.r == i {
            assert(x == v && k == r);
        }
    }
    // sums
    lemma_sum_edges_update(g[u], i, e1, flow_of());
    lemma_sum_edges_update(g1[v], r, b1, flow_of());
    lemma_sum_edges_update(g[u], i, e1, spare_of());
    lemma_sum_rows_update(g, u, row_u, flow_cost_of());
    lemma_sum_rows_update(g1, v, row_v, flow_cost_of());
    lemma_sum_edges_update(g[u], i, e1, flow_cost_of());
    lemma_sum_edges_update(g1[v], r, b1, flow_cost_of());
    assert(e1.f * e1.cost == e.f * e.cost + d * e.cost) by (nonlinear_arith)
        requires
            e1.f == e.f + d,
            e1.cost == e.cost,
    ;
    assert(b1.f * b1.cost == b.f * b.cost + d * e.cost) by (nonlinear_arith)
        requires
            b1.f == b.f - d,
            b1.cost == b.cost,
            b.cost == -e.cost,
    ;
    assert(2 * d * e.cost == d * e.cost + d * e.cost) by (nonlinear_arith);
    assert forall|x: int| 0 <= x < g.len() implies #[trigger] net_flow(g2, x) == net_flow(g, x) + (
    if x == u {
        d
    } else {
        0
    }) - (if x == v {
        d
    } else {
        0
    }) by {
        if x == u {
            assert(g2[x] == row_u);
        } else if x == v {
            assert(g1[x] == g[x]);
        } else {
            assert(g2[x] == g[x]);
        }
    }
    assert forall|x: int| 0 <= x < g.len() && x != u && x != v implies #[trigger] spare_out(g2, x)
        == spare_out(g, x) by {
        assert(g2[x] == g[x]);
    }
    assert(g2[u] == row_u);
}

} // verus!

verus! {

/// Spare capacity of an edge slot whose head lies outside the node set `d`.
pub open spec fn cut_spare_of(d: Seq<bool>) -> spec_fn(EdgeView) -> int {
    |e: EdgeView|
        if 0 <= e.v < d.len() && !d[e.v] && e.f < e.cap {
            e.cap - e.f
        } else {
            0
        }
}

/// Spare capacity on the edges that leave the node set `d`, over the first
/// `k` rows.
pub open spec fn spare_leaving(g: Network, d: Seq<bool>, k: int) -> int
    decreases k,
{
    if k <= 0 {
        0
    } else {
        spare_leaving(g, d, k - 1) + if d[k - 1] {
            sum_edges(g[k - 1], cut_spare_of(d))
        } else {
            0
        }
    }
}

/// Spare capacity on the edges that leave the node set `d` (node `x` is in
/// the set when `d[x]`).
pub open spec fn spare_across_net(g: Network, d: Seq<bool>) -> int {
    spare_leaving(g, d, g.len() as int)
}

/// Some set of nodes that holds `s` and not `t` has at most `b` spare
/// capacity leaving it: no more than `b` further units can go from `s` to
/// `t`.
pub open spec fn net_cut_within(g: Network, s: int, t: int, b: int) -> bool {
    exists|d: Seq<bool>| d.len() == g.len() && d[s] && !d[t] && #[trigger] spare_across_net(g, d) <= b
}

proof fn lemma_leaving_update(g: Network, d: Seq<bool>, u: int, row: Seq<EdgeView>, k: int)
    requires
        0 <= u < g.len(),
        0 <= k <= g.len(),
    ensures
        spare_leaving(g.update(u, row), d, k) == spare_leaving(g, d, k) + if u < k && d[u] {
            sum_edges(row, cut_spare_of(d)) - sum_edges(g[u], cut_spare_of(d))
        } else {
            0
        },
    decreases k,
{
    if k > 0 {
        lemma_leaving_update(g, d, u, row, k - 1);
    }
}

pub proof fn lemma_leaving_nonneg(g: Network, d: Seq<bool>, k: int)
    ensures
        spare_leaving(g, d, k) >= 0,
    decreases k,
{
    if k > 0 {
        lemma_leaving_nonneg(g, d, k - 1);
        lemma_sum_edges_nonneg(g[k - 1], cut_spare_of(d));
    }
}

/// Pushing `x` units along `g[u][i]` takes them off the spare capacity
/// leaving a node set when the edge leaves it, and gives back at most that
/// much when the edge enters it.
pub proof fn lemma_push_across_net(g: Network, u: int, i: int, x: int, d: Seq<bool>)
    requires
        well_formed(g),
        is_edge(g, u, i),
        g[u][i].v != u,
        0 <= x,
        g[u][i].f + x <= g[u][i].cap,
        d.len() == g.len(),
    ensures
        spare_across_net(push_flow(g, u, i, x), d) <= spare_across_net(g, d) - (if d[u] && !d[g[u][i].v] {
            x
        } else {
            0
        }) + (if d[g[u][i].v] && !d[u] {
            x
        } else {
            0
        }),
{
    let e = g[u][i];
    let v = e.v;
    let r = e.r;
    assert(edge_ok(g, u, i));
    let m = cut_spare_of(d);
    let e1 = EdgeView { f: e.f + x, ..e };
    let row_u = g[u].update(i, e1);
    let g1 = g.update(u, row_u);
    let b = g1[v][r];
    assert(b == g[v][r]);
    assert(b.v == u);
    let b1 = EdgeView { f: b.f - x, ..b };
    let row_v = g1[v].update(r, b1);
    let g2 = g1.update(v, row_v);
    assert(g2 == push_flow(g, u, i, x));
    lemma_sum_edges_update(g[u], i, e1, m);
    lemma_sum_edges_update(g1[v], r, b1, m);
    lemma_leaving_update(g, d, u, row_u, g.len() as int);
    lemma_leaving_update(g1, d, v, row_v, g.len() as int);
    assert(m(e1) == m(e) - if !d[v] {
        x
    } else {
        0
    });
    assert(m(b1) <= m(b) + if !d[u] {
        x
    } else {
        0
    });
}

} // verus!
