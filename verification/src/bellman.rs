//! The invariant of the Bellman-Ford rounds that compute the first
//! potentials, and the facts they establish: every value is the cost of a
//! residual walk from a node whose potential was known, after `r` rounds no
//! walk of at most `r` edges is cheaper, and, without negative cycles, the
//! final potentials satisfy the triangle inequality on every residual edge.
use vstd::prelude::*;

use crate::network::{
    Network, Step, costs_bounded, edge_ok, is_edge, is_walk, lemma_empty_walk, lemma_heads_ok, lemma_shorten,
    lemma_walk_cost_bound, lemma_walk_push, lemma_walk_subrange, no_negative_cycle_from, node_at,
    reachable, residual, walk_cost, walk_end, well_formed,
};
use crate::search::{cost_bound, potential_ok, pot_bound, pv, src_bound};

verus! {

/// Bound on the potentials that `run` may start from.
pub open spec fn pot_limit() -> int {
    0x10_0000_0000_0000_0000_0000_0000
}

/// Largest number of nodes `run` accepts (every distance then fits its type).
pub open spec fn max_nodes() -> int {
    0x1_0000_0000
}

/// Number of known entries.
pub(crate) open spec fn finite_count(pot: Seq<Option<i128>>) -> int
    decreases pot.len(),
{
    if pot.len() == 0 {
        0
    } else {
        finite_count(pot.drop_last()) + if pot.last() is Some {
            1int
        } else {
            0
        }
    }
}

pub(crate) proof fn lemma_finite_count_bounds(pot: Seq<Option<i128>>)
    ensures
        0 <= finite_count(pot) <= pot.len(),
    decreases pot.len(),
{
    if pot.len() > 0 {
        lemma_finite_count_bounds(pot.drop_last());
    }
}

pub(crate) proof fn lemma_finite_count_update(pot: Seq<Option<i128>>, v: int, x: i128)
    requires
        0 <= v < pot.len(),
    ensures
        finite_count(pot.update(v, Some(x))) == finite_count(pot) + if pot[v] is None {
            1int
        } else {
            0
        },
    decreases pot.len(),
{
    let p2 = pot.update(v, Some(x));
    if v == pot.len() - 1 {
        assert(p2.drop_last() =~= pot.drop_last());
    } else {
        assert(p2.drop_last() =~= pot.drop_last().update(v, Some(x)));
        lemma_finite_count_update(pot.drop_last(), v, x);
    }
}

/// The potentials Bellman-Ford starts from: bounded where known, with no
/// negative cycle reachable from a node whose potential is known.
pub open spec fn bf_start_ok(g: Network, pot0: Seq<Option<i128>>) -> bool {
    &&& pot0.len() == g.len()
    &&& forall|x: int|
        0 <= x < g.len() && #[trigger] pot0[x] is Some ==> -pot_limit() <= pot0[x].unwrap() <= pot_limit()
            && no_negative_cycle_from(g, x)
}

/// Walk `w` is among those whose cost bound is established: walks of at most
/// `r` edges, and walks of `r + 1` edges whose last edge was already scanned
/// in the current round (scanning is at edge `ci` of node `cu`).
pub(crate) open spec fn bf_covered(w: Seq<Step>, r: int, cu: int, ci: int) -> bool {
    w.len() <= r || (w.len() == r + 1 && (w.last().0 < cu || (w.last().0 == cu && w.last().1 < ci)))
}

/// The invariant of Bellman-Ford in round `r`, scanning edge `ci` of node
/// `cu`; `potr` are the potentials when the round started and `relax` tells
/// whether one changed since.
pub(crate) open spec fn bf_inv(
    g: Network,
    pot0: Seq<Option<i128>>,
    potr: Seq<Option<i128>>,
    pot: Seq<Option<i128>>,
    r: int,
    cu: int,
    ci: int,
    relax: bool,
) -> bool {
    let n = g.len() as int;
    &&& pot.len() == n && potr.len() == n
    &&& bf_start_ok(g, pot0)
    &&& 0 <= r
    // every known value is the cost of a walk from a start node
    &&& forall|v: int|
        0 <= v < n && #[trigger] pot[v] is Some ==> exists|x: int, w: Seq<Step>|
            0 <= x < n && pot0[x] is Some && #[trigger] is_walk(g, x, w) && walk_end(g, x, w) == v
                && pv(pot, v) == pv(pot0, x) + walk_cost(g, w)
    // no covered walk is cheaper
    &&& forall|x: int, w: Seq<Step>|
        0 <= x < n && pot0[x] is Some && #[trigger] is_walk(g, x, w) && bf_covered(w, r, cu, ci)
            ==> pot[walk_end(g, x, w)] is Some && pv(pot, walk_end(g, x, w)) <= pv(pot0, x)
            + walk_cost(g, w)
    // bounds
    &&& finite_count(pot) <= n
    &&& forall|v: int|
        0 <= v < n && #[trigger] pot[v] is Some ==> -pot_limit() - n * cost_bound() <= pv(pot, v)
            <= pot_limit() + finite_count(pot) * cost_bound()
    // an unchanged round checks the triangle inequality on the edges scanned
    &&& !relax ==> pot == potr && forall|a: int, j: int|
        #[trigger] residual(g, a, j) && (a < cu || (a == cu && j < ci)) && potr[a] is Some ==> pot[g[a][j].v] is Some
            && pv(pot, g[a][j].v) <= pv(pot, a) + g[a][j].cost
}

/// Triangle inequality on every residual edge out of a node with a known
/// potential.
pub(crate) open spec fn triangle(g: Network, pot: Seq<Option<i128>>) -> bool {
    forall|a: int, j: int|
        #[trigger] residual(g, a, j) && pot[a] is Some ==> pot[g[a][j].v] is Some && pv(
            pot,
            g[a][j].v,
        ) <= pv(pot, a) + g[a][j].cost
}

proof fn lemma_costs(g: Network)
    requires
        forall|u: int, i: int|
            #[trigger] is_edge(g, u, i) ==> -cost_bound() <= g[u][i].cost < cost_bound(),
    ensures
        costs_bounded(g, cost_bound()),
{
}

pub(crate) proof fn lemma_bf_start(g: Network, pot0: Seq<Option<i128>>)
    requires
        bf_start_ok(g, pot0),
        g.len() <= max_nodes(),
    ensures
        bf_inv(g, pot0, pot0, pot0, 0, 0, 0, false),
{
    let n = g.len() as int;
    lemma_finite_count_bounds(pot0);
    assert forall|x: int, w: Seq<Step>|
        0 <= x < n && pot0[x] is Some && #[trigger] is_walk(g, x, w) && bf_covered(w, 0, 0, 0)
            implies pot0[walk_end(g, x, w)] is Some && pv(pot0, walk_end(g, x, w)) <= pv(pot0, x) + walk_cost(g, w) by {
        assert(w.len() == 0);
    }
    assert forall|v: int| 0 <= v < n && #[trigger] pot0[v] is Some implies exists|x: int, w: Seq<Step>|
        0 <= x < n && pot0[x] is Some && #[trigger] is_walk(g, x, w) && walk_end(g, x, w) == v && pv(pot0, v)
            == pv(pot0, x) + walk_cost(g, w) by {
        lemma_empty_walk(g, v);
        assert(is_walk(g, v, Seq::<Step>::empty()));
    }
    assert forall|v: int| 0 <= v < n && #[trigger] pot0[v] is Some implies -pot_limit() - n * cost_bound()
        <= pv(pot0, v) <= pot_limit() + finite_count(pot0) * cost_bound() by {
        assert(n * cost_bound() >= 0) by (nonlinear_arith)
            requires
                n >= 0,
        ;
        assert(finite_count(pot0) * cost_bound() >= 0) by (nonlinear_arith)
            requires
                finite_count(pot0) >= 0,
        ;
    }
}

/// Skipping node `cu`, whose potential is unknown.
pub(crate) proof fn lemma_bf_skip_node(g: Network, pot0: Seq<Option<i128>>, potr: Seq<Option<i128>>, pot: Seq<Option<i128>>, r: int, cu: int, relax: bool)
    requires
        bf_inv(g, pot0, potr, pot, r, cu, 0, relax),
        0 <= cu < g.len(),
        pot[cu] is None,
    ensures
        bf_inv(g, pot0, potr, pot, r, cu + 1, 0, relax),
{
    let n = g.len() as int;
    assert forall|x: int, w: Seq<Step>|
        0 <= x < n && pot0[x] is Some && #[trigger] is_walk(g, x, w) && bf_covered(w, r, cu + 1, 0)
            implies pot[walk_end(g, x, w)] is Some && pv(pot, walk_end(g, x, w)) <= pv(pot0, x) + walk_cost(g, w) by {
        if !bf_covered(w, r, cu, 0) {
            let k = w.len() - 1;
            assert(w.last().0 == cu);
            lemma_walk_subrange(g, x, w, 0, k);
            let w1 = w.subrange(0, k);
            assert(node_at(g, x, w, 0) == x);
            assert(w[k].0 == node_at(g, x, w, k));
            assert(bf_covered(w1, r, cu, 0));
            assert(walk_end(g, x, w1) == node_at(g, x, w, k));
        }
    }
}

/// Scanning edge `ci` of `cu` without a change.
pub(crate) proof fn lemma_bf_keep(g: Network, pot0: Seq<Option<i128>>, potr: Seq<Option<i128>>, pot: Seq<Option<i128>>, r: int, cu: int, ci: int, relax: bool)
    requires
        bf_inv(g, pot0, potr, pot, r, cu, ci, relax),
        0 <= cu < g.len(),
        0 <= ci < g[cu].len(),
        pot[cu] is Some,
        residual(g, cu, ci) ==> pot[g[cu][ci].v] is Some && pv(pot, g[cu][ci].v) <= pv(pot, cu)
            + g[cu][ci].cost,
    ensures
        bf_inv(g, pot0, potr, pot, r, cu, ci + 1, relax),
{
    let n = g.len() as int;
    assert forall|x: int, w: Seq<Step>|
        0 <= x < n && pot0[x] is Some && #[trigger] is_walk(g, x, w) && bf_covered(w, r, cu, ci + 1)
            implies pot[walk_end(g, x, w)] is Some && pv(pot, walk_end(g, x, w)) <= pv(pot0, x) + walk_cost(g, w) by {
        if !bf_covered(w, r, cu, ci) {
            let k = w.len() - 1;
            assert(w.last() == (cu, ci));
            lemma_walk_subrange(g, x, w, 0, k);
            let w1 = w.subrange(0, k);
            assert(w1 =~= w.drop_last());
            assert(node_at(g, x, w, 0) == x);
            assert(w[k].0 == node_at(g, x, w, k));
            assert(bf_covered(w1, r, cu, ci));
            assert(walk_end(g, x, w1) == cu);
            assert(residual(g, cu, ci));
        }
    }
}

/// Scanning edge `ci` of `cu` that lowers the potential of its head to `nd`.
#[verifier::rlimit(50)]
pub(crate) proof fn lemma_bf_lower(g: Network, pot0: Seq<Option<i128>>, potr: Seq<Option<i128>>, pot: Seq<Option<i128>>, r: int, cu: int, ci: int, relax: bool, nd: i128)
    requires
        bf_inv(g, pot0, potr, pot, r, cu, ci, relax),
        well_formed(g),
        g.len() <= max_nodes(),
        forall|u: int, i: int|
            #[trigger] is_edge(g, u, i) ==> -cost_bound() <= g[u][i].cost < cost_bound(),
        0 <= cu < g.len(),
        0 <= ci < g[cu].len(),
        pot[cu] is Some,
        residual(g, cu, ci),
        nd == pv(pot, cu) + g[cu][ci].cost,
        pot[g[cu][ci].v] is None || nd < pv(pot, g[cu][ci].v),
    ensures
        bf_inv(g, pot0, potr, pot.update(g[cu][ci].v, Some(nd)), r, cu, ci + 1, true),
{
    let n = g.len() as int;
    let v = g[cu][ci].v;
    let pot2 = pot.update(v, Some(nd));
    assert(is_edge(g, cu, ci) && edge_ok(g, cu, ci));
    assert(0 <= v < n);
    lemma_costs(g);
    lemma_finite_count_update(pot, v, nd);
    lemma_finite_count_bounds(pot2);
    // a witness walk for the new value
    let (x0, w0) = choose|x: int, w: Seq<Step>|
        0 <= x < n && pot0[x] is Some && #[trigger] is_walk(g, x, w) && walk_end(g, x, w) == cu && pv(
            pot,
            cu,
        ) == pv(pot0, x) + walk_cost(g, w);
    lemma_walk_push(g, x0, w0, cu, ci);
    let w1 = w0.push((cu, ci));
    assert(pv(pot2, v) == pv(pot0, x0) + walk_cost(g, w1));
    // lower bound through a short walk
    lemma_heads_ok(g);
    let w2 = lemma_shorten(g, x0, w1);
    lemma_walk_cost_bound(g, x0, w2, cost_bound());
    assert(cost_bound() * w2.len() <= n * cost_bound()) by (nonlinear_arith)
        requires
            w2.len() <= n,
    ;
    assert forall|y: int| 0 <= y < n && #[trigger] pot2[y] is Some implies exists|x: int, w: Seq<Step>|
        0 <= x < n && pot0[x] is Some && #[trigger] is_walk(g, x, w) && walk_end(g, x, w) == y && pv(pot2, y)
            == pv(pot0, x) + walk_cost(g, w) by {
        if y == v {
            assert(is_walk(g, x0, w1));
        } else {
            assert(pot[y] is Some);
        }
    }
    assert forall|x: int, w: Seq<Step>|
        0 <= x < n && pot0[x] is Some && #[trigger] is_walk(g, x, w) && bf_covered(w, r, cu, ci + 1)
            implies pot2[walk_end(g, x, w)] is Some && pv(pot2, walk_end(g, x, w)) <= pv(pot0, x) + walk_cost(g, w) by {
        if !bf_covered(w, r, cu, ci) {
            let k = w.len() - 1;
            assert(w.last() == (cu, ci));
            lemma_walk_subrange(g, x, w, 0, k);
            let w3 = w.subrange(0, k);
            assert(w3 =~= w.drop_last());
            assert(node_at(g, x, w, 0) == x);
            assert(w[k].0 == node_at(g, x, w, k));
            assert(bf_covered(w3, r, cu, ci));
            assert(walk_end(g, x, w3) == cu);
            assert(walk_end(g, x, w) == v);
        } else {
            let e = walk_end(g, x, w);
            assert(pot[e] is Some);
        }
    }
    assert forall|y: int| 0 <= y < n && #[trigger] pot2[y] is Some implies -pot_limit() - n * cost_bound()
        <= pv(pot2, y) <= pot_limit() + finite_count(pot2) * cost_bound() by {
        assert(finite_count(pot) * cost_bound() <= finite_count(pot2) * cost_bound()) by (nonlinear_arith)
            requires
                finite_count(pot) <= finite_count(pot2),
        ;
        if y == v {
            assert(-pot_limit() <= pv(pot0, x0));
            if pot[v] is None {
                assert(finite_count(pot2) * cost_bound() == finite_count(pot) * cost_bound() + cost_bound()) by (nonlinear_arith)
                    requires
                        finite_count(pot2) == finite_count(pot) + 1,
                ;
            }
        } else {
            assert(pot[y] is Some);
        }
    }
}

/// All edges of `cu` scanned.
pub(crate) proof fn lemma_bf_next_node(g: Network, pot0: Seq<Option<i128>>, potr: Seq<Option<i128>>, pot: Seq<Option<i128>>, r: int, cu: int, relax: bool)
    requires
        bf_inv(g, pot0, potr, pot, r, cu, g[cu].len() as int, relax),
        0 <= cu < g.len(),
    ensures
        bf_inv(g, pot0, potr, pot, r, cu + 1, 0, relax),
{
    let n = g.len() as int;
    assert forall|x: int, w: Seq<Step>|
        0 <= x < n && pot0[x] is Some && #[trigger] is_walk(g, x, w) && bf_covered(w, r, cu + 1, 0)
            implies pot[walk_end(g, x, w)] is Some && pv(pot, walk_end(g, x, w)) <= pv(pot0, x) + walk_cost(g, w) by {
        if w.len() == r + 1 && w.last().0 == cu {
            assert(residual(g, w[w.len() - 1].0, w[w.len() - 1].1));
            assert(bf_covered(w, r, cu, g[cu].len() as int));
        }
    }
}

/// A round in which some potential changed ends; the next one starts.
pub(crate) proof fn lemma_bf_next_round(g: Network, pot0: Seq<Option<i128>>, potr: Seq<Option<i128>>, pot: Seq<Option<i128>>, r: int)
    requires
        bf_inv(g, pot0, potr, pot, r, g.len() as int, 0, true),
    ensures
        bf_inv(g, pot0, pot, pot, r + 1, 0, 0, false),
{
    let n = g.len() as int;
    assert forall|x: int, w: Seq<Step>|
        0 <= x < n && pot0[x] is Some && #[trigger] is_walk(g, x, w) && bf_covered(w, r + 1, 0, 0)
            implies pot[walk_end(g, x, w)] is Some && pv(pot, walk_end(g, x, w)) <= pv(pot0, x) + walk_cost(g, w) by {
        if w.len() == r + 1 {
            assert(residual(g, w[w.len() - 1].0, w[w.len() - 1].1));
            assert(bf_covered(w, r, n, 0));
        }
    }
}

/// A round without change leaves the triangle inequality.
pub(crate) proof fn lemma_bf_stable(g: Network, pot0: Seq<Option<i128>>, potr: Seq<Option<i128>>, pot: Seq<Option<i128>>, r: int)
    requires
        bf_inv(g, pot0, potr, pot, r, g.len() as int, 0, false),
    ensures
        triangle(g, pot),
{
}

/// After `n - 1` rounds, without negative cycles, the triangle inequality
/// holds.
pub(crate) proof fn lemma_bf_rounds_done(g: Network, pot0: Seq<Option<i128>>, potr: Seq<Option<i128>>, pot: Seq<Option<i128>>, relax: bool)
    requires
        bf_inv(g, pot0, potr, pot, g.len() - 1, 0, 0, relax),
        well_formed(g),
        g.len() >= 1,
    ensures
        triangle(g, pot),
{
    let n = g.len() as int;
    assert forall|a: int, j: int| #[trigger] residual(g, a, j) && pot[a] is Some implies pot[g[a][j].v] is Some
        && pv(pot, g[a][j].v) <= pv(pot, a) + g[a][j].cost by {
        let (x0, w0) = choose|x: int, w: Seq<Step>|
            0 <= x < n && pot0[x] is Some && #[trigger] is_walk(g, x, w) && walk_end(g, x, w) == a && pv(
                pot,
                a,
            ) == pv(pot0, x) + walk_cost(g, w);
        lemma_walk_push(g, x0, w0, a, j);
        let w1 = w0.push((a, j));
        lemma_heads_ok(g);
        let w2 = lemma_shorten(g, x0, w1);
        assert(bf_covered(w2, n - 1, 0, 0));
    }
}

/// With the triangle inequality, every node reachable from one with a known
/// potential has one too.
pub(crate) proof fn lemma_triangle_reach(g: Network, pot: Seq<Option<i128>>, s: int, w: Seq<Step>)
    requires
        triangle(g, pot),
        pot[s] is Some,
        is_walk(g, s, w),
    ensures
        pot[walk_end(g, s, w)] is Some,
    decreases w.len(),
{
    if w.len() > 0 {
        let k = w.len() - 1;
        lemma_walk_subrange(g, s, w, 0, k);
        let w1 = w.subrange(0, k);
        assert(w1 =~= w.drop_last());
        assert(node_at(g, s, w, 0) == s);
        lemma_triangle_reach(g, pot, s, w1);
        assert(w[k].0 == node_at(g, s, w, k));
        assert(residual(g, w[k].0, w[k].1));
    }
}

/// The potentials after unknown ones are set to zero.
pub(crate) open spec fn zero_unknown(pot: Seq<Option<i128>>) -> Seq<Option<i128>> {
    Seq::new(pot.len(), |v: int| if pot[v] is Some { pot[v] } else { Some(0i128) })
}

/// What Bellman-Ford hands to the shortest-path searches.
pub(crate) proof fn lemma_bf_result(g: Network, pot0: Seq<Option<i128>>, potr: Seq<Option<i128>>, pot: Seq<Option<i128>>, r: int, cu: int, ci: int, relax: bool, s: int)
    requires
        bf_inv(g, pot0, potr, pot, r, cu, ci, relax),
        triangle(g, pot),
        well_formed(g),
        0 <= s < g.len(),
        pot[s] is Some,
        g.len() <= max_nodes(),
    ensures
        potential_ok(g, zero_unknown(pot), s),
{
    reveal(crate::search::potential_ok);
    let n = g.len() as int;
    let pz = zero_unknown(pot);
    assert(n * cost_bound() <= max_nodes() * cost_bound()) by (nonlinear_arith)
        requires
            n <= max_nodes(),
    ;
    assert(finite_count(pot) * cost_bound() <= n * cost_bound()) by (nonlinear_arith)
        requires
            finite_count(pot) <= n,
    ;
    assert(finite_count(pot) >= 0) by {
        lemma_finite_count_bounds(pot);
    }
    assert(finite_count(pot) * cost_bound() >= 0) by (nonlinear_arith)
        requires
            finite_count(pot) >= 0,
    ;
    assert forall|v: int| 0 <= v < n implies -pot_bound() <= #[trigger] pv(pz, v) <= pot_bound() by {
        if pot[v] is Some {
            assert(pz[v] == pot[v]);
        }
    }
    assert(pz[s] == pot[s]);
    assert forall|u: int, i: int| reachable(g, s, u) && #[trigger] residual(g, u, i) implies crate::search::reduced(
        g,
        pz,
        u,
        i,
    ) >= 0 by {
        let w = choose|w: Seq<Step>| is_walk(g, s, w) && walk_end(g, s, w) == u;
        lemma_triangle_reach(g, pot, s, w);
        assert(is_edge(g, u, i) && edge_ok(g, u, i));
        assert(pz[u] == pot[u]);
        assert(pz[g[u][i].v] == pot[g[u][i].v]);
    }
}

/// Under the triangle inequality, a walk from `s` ends at a node whose
/// potential is at most that of `s` plus the walk's cost.
proof fn lemma_triangle_walk(g: Network, pot: Seq<Option<i128>>, s: int, w: Seq<Step>)
    requires
        triangle(g, pot),
        pot[s] is Some,
        is_walk(g, s, w),
    ensures
        pot[walk_end(g, s, w)] is Some,
        pv(pot, walk_end(g, s, w)) <= pv(pot, s) + walk_cost(g, w),
    decreases w.len(),
{
    if w.len() > 0 {
        let k = w.len() - 1;
        lemma_walk_subrange(g, s, w, 0, k);
        let w1 = w.subrange(0, k);
        assert(w1 =~= w.drop_last());
        assert(node_at(g, s, w, 0) == s);
        lemma_triangle_walk(g, pot, s, w1);
        assert(w[k].0 == node_at(g, s, w, k));
        assert(residual(g, w[k].0, w[k].1));
    }
}

/// Started from the source alone, at potential 0, Bellman-Ford ends with
/// potentials of at most `n` times the cost bound either way.
pub(crate) proof fn lemma_bf_fresh(g: Network, pot0: Seq<Option<i128>>, potr: Seq<Option<i128>>, pot: Seq<Option<i128>>, r: int, cu: int, ci: int, relax: bool, s: int)
    requires
        bf_inv(g, pot0, potr, pot, r, cu, ci, relax),
        triangle(g, pot),
        well_formed(g),
        costs_bounded(g, cost_bound()),
        0 <= s < g.len(),
        pot0[s] == Some(0i128),
        forall|v: int| 0 <= v < g.len() && v != s ==> #[trigger] pot0[v] is None,
    ensures
        forall|v: int|
            0 <= v < g.len() && #[trigger] pot[v] is Some ==> -g.len() * cost_bound() <= pv(pot, v) <= g.len()
                * cost_bound(),
{
    let n = g.len() as int;
    lemma_heads_ok(g);
    assert(no_negative_cycle_from(g, s));
    // the source's own potential is at most 0
    lemma_empty_walk(g, s);
    assert(bf_covered(Seq::<Step>::empty(), r, cu, ci));
    assert(pot[s] is Some && pv(pot, s) <= 0);
    assert forall|v: int| 0 <= v < n && #[trigger] pot[v] is Some implies -n * cost_bound() <= pv(pot, v) <= pv(pot, s)
        + n * cost_bound() by {
        let (x, w) = choose|x: int, w: Seq<Step>|
            0 <= x < n && pot0[x] is Some && #[trigger] is_walk(g, x, w) && walk_end(g, x, w) == v && pv(pot, v) == pv(
                pot0,
                x,
            ) + walk_cost(g, w);
        assert(x == s);
        let w2 = lemma_shorten(g, s, w);
        lemma_walk_cost_bound(g, s, w2, cost_bound());
        assert(cost_bound() * w2.len() <= n * cost_bound()) by (nonlinear_arith)
            requires
                w2.len() < n,
        ;
        assert(-cost_bound() * w2.len() >= -n * cost_bound()) by (nonlinear_arith)
            requires
                w2.len() < n,
        ;
        lemma_triangle_walk(g, pot, s, w2);
    }
    assert(-n * cost_bound() <= pv(pot, s));
}

} // verus!
