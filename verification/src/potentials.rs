//! Without a negative residual cycle anywhere, a network has potentials
//! under which no residual edge has a negative reduced cost: the least cost
//! of a short walk ending at each node, found by Bellman-Ford rounds run
//! from every node at once.
use vstd::prelude::*;

use crate::network::{
    Network, Step, heads_ok, is_edge, is_walk, lemma_empty_walk, lemma_shorten, lemma_walk_push, no_negative_cycle_from,
    residual, walk_cost, walk_end,
};
use crate::relax::lemma_walk_last;

verus! {

/// `a`, lowered by every residual edge among the first `j` of node `u` that
/// enters `v`, to the value `prev` gives `u` plus the edge's cost.
pub open spec fn relax_slots(g: Network, prev: Seq<int>, v: int, u: int, j: int, a: int) -> int
    decreases j,
{
    if j <= 0 {
        a
    } else {
        let b = relax_slots(g, prev, v, u, j - 1, a);
        if residual(g, u, j - 1) && g[u][j - 1].v == v && prev[u] + g[u][j - 1].cost < b {
            prev[u] + g[u][j - 1].cost
        } else {
            b
        }
    }
}

/// `prev[v]`, lowered through every residual edge into `v` out of the first
/// `r` nodes.
pub open spec fn relax_rows(g: Network, prev: Seq<int>, v: int, r: int) -> int
    decreases r,
{
    if r <= 0 {
        prev[v]
    } else {
        relax_slots(g, prev, v, r - 1, g[r - 1].len() as int, relax_rows(g, prev, v, r - 1))
    }
}

/// After `k` rounds: the least cost of a residual walk of at most `k` edges
/// that ends at each node, starting anywhere.
pub open spec fn layer(g: Network, k: nat) -> Seq<int>
    decreases k,
{
    if k == 0 {
        Seq::new(g.len(), |v: int| 0int)
    } else {
        let prev = layer(g, (k - 1) as nat);
        Seq::new(g.len(), |v: int| relax_rows(g, prev, v, g.len() as int))
    }
}

proof fn lemma_relax_slots(g: Network, prev: Seq<int>, v: int, u: int, j: int, a: int)
    requires
        0 <= j <= g[u].len(),
    ensures
        relax_slots(g, prev, v, u, j, a) <= a,
        forall|i: int|
            0 <= i < j && #[trigger] residual(g, u, i) && g[u][i].v == v ==> relax_slots(g, prev, v, u, j, a) <= prev[u]
                + g[u][i].cost,
        relax_slots(g, prev, v, u, j, a) == a || exists|i: int|
            0 <= i < j && #[trigger] residual(g, u, i) && g[u][i].v == v && relax_slots(g, prev, v, u, j, a) == prev[u]
                + g[u][i].cost,
    decreases j,
{
    if j > 0 {
        lemma_relax_slots(g, prev, v, u, j - 1, a);
    }
}

proof fn lemma_relax_rows(g: Network, prev: Seq<int>, v: int, r: int)
    requires
        0 <= r <= g.len(),
    ensures
        relax_rows(g, prev, v, r) <= prev[v],
        forall|u: int, i: int|
            0 <= u < r && #[trigger] residual(g, u, i) && g[u][i].v == v ==> relax_rows(g, prev, v, r) <= prev[u]
                + g[u][i].cost,
        relax_rows(g, prev, v, r) == prev[v] || exists|u: int, i: int|
            0 <= u < r && #[trigger] residual(g, u, i) && g[u][i].v == v && relax_rows(g, prev, v, r) == prev[u]
                + g[u][i].cost,
    decreases r,
{
    if r > 0 {
        lemma_relax_rows(g, prev, v, r - 1);
        let a = relax_rows(g, prev, v, r - 1);
        lemma_relax_slots(g, prev, v, r - 1, g[r - 1].len() as int, a);
        assert forall|u: int, i: int|
            0 <= u < r && #[trigger] residual(g, u, i) && g[u][i].v == v implies relax_rows(g, prev, v, r) <= prev[u]
                + g[u][i].cost by {
            if u == r - 1 {
                assert(0 <= i < g[u].len());
            }
        }
    }
}

/// No walk of at most `k` edges into `v` costs less than `layer(g, k)[v]`.
proof fn lemma_layer_below(g: Network, k: nat, x: int, w: Seq<Step>)
    requires
        heads_ok(g),
        is_walk(g, x, w),
        0 <= walk_end(g, x, w) < g.len(),
        w.len() <= k,
    ensures
        layer(g, k)[walk_end(g, x, w)] <= walk_cost(g, w),
    decreases k,
{
    let v = walk_end(g, x, w);
    if k > 0 {
        let prev = layer(g, (k - 1) as nat);
        lemma_relax_rows(g, prev, v, g.len() as int);
        assert(layer(g, k)[v] == relax_rows(g, prev, v, g.len() as int));
        if w.len() == 0 {
            lemma_layer_below(g, (k - 1) as nat, x, w);
        } else {
            lemma_walk_last(g, x, w);
            let w0 = w.drop_last();
            let u = w.last().0;
            let i = w.last().1;
            assert(is_edge(g, u, i));
            lemma_layer_below(g, (k - 1) as nat, x, w0);
            assert(prev[u] <= walk_cost(g, w0));
        }
    }
}

/// A walk of at most `k` edges into `v` that costs `layer(g, k)[v]`.
proof fn lemma_layer_walk(g: Network, k: nat, v: int) -> (xw: (int, Seq<Step>))
    requires
        heads_ok(g),
        0 <= v < g.len(),
    ensures
        0 <= xw.0 < g.len(),
        is_walk(g, xw.0, xw.1),
        walk_end(g, xw.0, xw.1) == v,
        xw.1.len() <= k,
        walk_cost(g, xw.1) == layer(g, k)[v],
    decreases k,
{
    if k == 0 {
        lemma_empty_walk(g, v);
        (v, Seq::empty())
    } else {
        let prev = layer(g, (k - 1) as nat);
        lemma_relax_rows(g, prev, v, g.len() as int);
        assert(layer(g, k)[v] == relax_rows(g, prev, v, g.len() as int));
        if relax_rows(g, prev, v, g.len() as int) == prev[v] {
            lemma_layer_walk(g, (k - 1) as nat, v)
        } else {
            let (u, i) = choose|u: int, i: int|
                0 <= u < g.len() && #[trigger] residual(g, u, i) && g[u][i].v == v && relax_rows(g, prev, v, g.len() as int)
                    == prev[u] + g[u][i].cost;
            let (x, w) = lemma_layer_walk(g, (k - 1) as nat, u);
            lemma_walk_push(g, x, w, u, i);
            (x, w.push((u, i)))
        }
    }
}

/// Without a negative residual cycle anywhere, the costs of the cheapest
/// short walks into each node are potentials under which every residual edge
/// has a non-negative reduced cost.
pub proof fn lemma_potentials_exist(g: Network) -> (pot: Seq<int>)
    requires
        heads_ok(g),
        forall|x: int| 0 <= x < g.len() ==> #[trigger] no_negative_cycle_from(g, x),
    ensures
        pot.len() == g.len(),
        forall|u: int, i: int| #[trigger] residual(g, u, i) ==> g[u][i].cost + pot[u] - pot[g[u][i].v] >= 0,
{
    if g.len() == 0 {
        Seq::empty()
    } else {
        let k = (g.len() - 1) as nat;
        let pot = layer(g, k);
        assert forall|u: int, i: int| #[trigger] residual(g, u, i) implies g[u][i].cost + pot[u] - pot[g[u][i].v] >= 0 by {
            assert(is_edge(g, u, i));
            let (x, w) = lemma_layer_walk(g, k, u);
            lemma_walk_push(g, x, w, u, i);
            let w2 = w.push((u, i));
            assert(no_negative_cycle_from(g, x));
            let w3 = lemma_shorten(g, x, w2);
            lemma_layer_below(g, k, x, w3);
        }
        pot
    }
}

} // verus!
