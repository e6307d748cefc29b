//! Sums over the edge slots of a network, and their invariance when every
//! slot is traded for its reverse.
use vstd::prelude::*;

use crate::network::{
    EdgeView, Network, Step, edge_ok, flow_cost, flow_cost_of, flow_of, is_edge, is_walk, lemma_reachable_self, lemma_reachable_step, net_flow,
    reachable, residual, same_shape, sum_edges, sum_rows, walk_end, well_formed,
};

verus! {

/// Sum of `f` over a list of slots.
pub open spec fn sum_over(s: Seq<Step>, f: spec_fn(int, int) -> int) -> int
    decreases s.len(),
{
    if s.len() == 0 {
        0
    } else {
        sum_over(s.drop_last(), f) + f(s.last().0, s.last().1)
    }
}

/// The first `j` slots of row `u`.
pub open spec fn row_slots(u: int, j: int) -> Seq<Step> {
    Seq::new(j as nat, |i: int| (u, i))
}

/// Every slot of the first `k` rows of `g`, row by row.
pub open spec fn slots_upto(g: Network, k: int) -> Seq<Step>
    decreases k,
{
    if k <= 0 {
        Seq::empty()
    } else {
        slots_upto(g, k - 1) + row_slots(k - 1, g[k - 1].len() as int)
    }
}

pub proof fn lemma_sum_concat(a: Seq<Step>, b: Seq<Step>, f: spec_fn(int, int) -> int)
    ensures
        sum_over(a + b, f) == sum_over(a, f) + sum_over(b, f),
    decreases b.len(),
{
    if b.len() == 0 {
        assert(a + b =~= a);
    } else {
        assert((a + b).drop_last() =~= a + b.drop_last());
        lemma_sum_concat(a, b.drop_last(), f);
    }
}

/// Sums agree where the summands agree on the list.
pub proof fn lemma_sum_combine(s: Seq<Step>, f: spec_fn(int, int) -> int, g1: spec_fn(int, int) -> int, g2: spec_fn(int, int) -> int)
    requires
        forall|k: int| 0 <= k < s.len() ==> f(s[k].0, s[k].1) == g1(s[k].0, s[k].1) + g2(s[k].0, s[k].1),
    ensures
        sum_over(s, f) == sum_over(s, g1) + sum_over(s, g2),
    decreases s.len(),
{
    if s.len() > 0 {
        assert forall|k: int| 0 <= k < s.drop_last().len() implies f(s.drop_last()[k].0, s.drop_last()[k].1) == g1(
            s.drop_last()[k].0,
            s.drop_last()[k].1,
        ) + g2(s.drop_last()[k].0, s.drop_last()[k].1) by {
            assert(s.drop_last()[k] == s[k]);
        }
        lemma_sum_combine(s.drop_last(), f, g1, g2);
        assert(s.last() == s[s.len() - 1]);
    }
}

/// A sum of non-negative summands is non-negative.
pub proof fn lemma_sum_nonneg(s: Seq<Step>, f: spec_fn(int, int) -> int)
    requires
        forall|k: int| 0 <= k < s.len() ==> f(s[k].0, s[k].1) >= 0,
    ensures
        sum_over(s, f) >= 0,
    decreases s.len(),
{
    if s.len() > 0 {
        assert forall|k: int| 0 <= k < s.drop_last().len() implies f(s.drop_last()[k].0, s.drop_last()[k].1) >= 0 by {
            assert(s.drop_last()[k] == s[k]);
        }
        lemma_sum_nonneg(s.drop_last(), f);
        assert(s.last() == s[s.len() - 1]);
    }
}

/// Summing over the images of the slots under `p` sums `f` after `p`.
pub proof fn lemma_sum_map(s: Seq<Step>, p: spec_fn(int, int) -> Step, f: spec_fn(int, int) -> int)
    ensures
        sum_over(Seq::new(s.len(), |k: int| p(s[k].0, s[k].1)), f) == sum_over(
            s,
            |u: int, i: int| f(p(u, i).0, p(u, i).1),
        ),
    decreases s.len(),
{
    let t = Seq::new(s.len(), |k: int| p(s[k].0, s[k].1));
    if s.len() > 0 {
        lemma_sum_map(s.drop_last(), p, f);
        assert(t.drop_last() =~= Seq::new(s.drop_last().len(), |k: int| p(s.drop_last()[k].0, s.drop_last()[k].1)));
        assert(s.last() == s[s.len() - 1]);
    }
}

/// Taking one slot out of a list.
proof fn lemma_sum_remove(s: Seq<Step>, k: int, f: spec_fn(int, int) -> int)
    requires
        0 <= k < s.len(),
    ensures
        sum_over(s, f) == sum_over(s.subrange(0, k) + s.subrange(k + 1, s.len() as int), f) + f(s[k].0, s[k].1),
{
    let a = s.subrange(0, k);
    let b = s.subrange(k + 1, s.len() as int);
    let one = seq![s[k]];
    assert(s =~= a + one + b);
    lemma_sum_concat(a + one, b, f);
    lemma_sum_concat(a, one, f);
    lemma_sum_concat(a, b, f);
    assert(one.drop_last() =~= Seq::<Step>::empty());
    assert(one.last() == s[k]);
    assert(sum_over(one, f) == sum_over(one.drop_last(), f) + f(s[k].0, s[k].1));
    assert(sum_over(Seq::<Step>::empty(), f) == 0);
}

/// Two lists with the same slots, each slot once, have the same sum.
pub proof fn lemma_sum_permuted(a: Seq<Step>, b: Seq<Step>, f: spec_fn(int, int) -> int)
    requires
        a.no_duplicates(),
        b.no_duplicates(),
        forall|x: Step| a.contains(x) <==> b.contains(x),
    ensures
        sum_over(a, f) == sum_over(b, f),
    decreases a.len(),
{
    if a.len() == 0 {
        if b.len() > 0 {
            assert(b.contains(b[0]));
        }
    } else {
        let x = a.last();
        assert(a.contains(x)) by {
            assert(a[a.len() - 1] == x);
        }
        let k = choose|k: int| 0 <= k < b.len() && b[k] == x;
        let b2 = b.subrange(0, k) + b.subrange(k + 1, b.len() as int);
        let a2 = a.drop_last();
        assert(b2.len() == b.len() - 1);
        assert forall|j: int| 0 <= j < b2.len() implies #[trigger] b2[j] == if j < k { b[j] } else { b[j + 1] } by {}
        assert(b2.no_duplicates()) by {
            assert forall|i: int, j: int| 0 <= i < b2.len() && 0 <= j < b2.len() && i != j implies b2[i] != b2[j] by {
                let bi = if i < k { i } else { i + 1 };
                let bj = if j < k { j } else { j + 1 };
                assert(b2[i] == b[bi] && b2[j] == b[bj]);
            }
        }
        assert(a2.no_duplicates()) by {
            assert forall|i: int, j: int| 0 <= i < a2.len() && 0 <= j < a2.len() && i != j implies a2[i] != a2[j] by {
                assert(a2[i] == a[i] && a2[j] == a[j]);
            }
        }
        assert forall|y: Step| a2.contains(y) <==> b2.contains(y) by {
            if a2.contains(y) {
                let i = choose|i: int| 0 <= i < a2.len() && a2[i] == y;
                assert(a[i] == y);
                assert(y != x) by {
                    assert(a[a.len() - 1] == x);
                }
                assert(a.contains(y));
                let j = choose|j: int| 0 <= j < b.len() && b[j] == y;
                assert(j != k);
                let j2 = if j < k { j } else { j - 1 };
                assert(b2[j2] == y);
            }
            if b2.contains(y) {
                let j2 = choose|j2: int| 0 <= j2 < b2.len() && b2[j2] == y;
                let j = if j2 < k { j2 } else { j2 + 1 };
                assert(b[j] == y);
                assert(j != k);
                assert(y != x);
                assert(b.contains(y));
                let i = choose|i: int| 0 <= i < a.len() && a[i] == y;
                assert(i != a.len() - 1);
                assert(a2[i] == y);
            }
        }
        lemma_sum_permuted(a2, b2, f);
        lemma_sum_remove(b, k, f);
    }
}

/// The sum over a row's first `j` slots of a function of the edge there.
pub proof fn lemma_row_sum(g: Network, u: int, j: int, m: spec_fn(EdgeView) -> int)
    requires
        0 <= j <= g[u].len(),
    ensures
        sum_over(row_slots(u, j), |x: int, i: int| m(g[x][i])) == sum_edges(g[u].take(j), m),
    decreases j,
{
    if j > 0 {
        lemma_row_sum(g, u, j - 1, m);
        assert(row_slots(u, j).drop_last() =~= row_slots(u, j - 1));
        assert(g[u].take(j).drop_last() =~= g[u].take(j - 1));
    }
}

/// The sum over all slots of a function of the edge there is `sum_rows`.
pub proof fn lemma_rows_sum(g: Network, k: int, m: spec_fn(EdgeView) -> int)
    requires
        0 <= k <= g.len(),
    ensures
        sum_over(slots_upto(g, k), |x: int, i: int| m(g[x][i])) == sum_rows(g.take(k), m),
    decreases k,
{
    if k > 0 {
        lemma_rows_sum(g, k - 1, m);
        lemma_sum_concat(slots_upto(g, k - 1), row_slots(k - 1, g[k - 1].len() as int), |x: int, i: int| m(g[x][i]));
        lemma_row_sum(g, k - 1, g[k - 1].len() as int, m);
        assert(g[k - 1].take(g[k - 1].len() as int) =~= g[k - 1]);
        assert(g.take(k).drop_last() =~= g.take(k - 1));
    }
}

/// A sum that vanishes on every row vanishes.
pub proof fn lemma_rows_zero(g: Network, k: int, f: spec_fn(int, int) -> int)
    requires
        0 <= k <= g.len(),
        forall|u: int| 0 <= u < k ==> #[trigger] sum_over(row_slots(u, g[u].len() as int), f) == 0,
    ensures
        sum_over(slots_upto(g, k), f) == 0,
    decreases k,
{
    if k > 0 {
        lemma_rows_zero(g, k - 1, f);
        lemma_sum_concat(slots_upto(g, k - 1), row_slots(k - 1, g[k - 1].len() as int), f);
    }
}

/// The slots of the first `k` rows: exactly the pairs `(u, i)` with `u < k`
/// and `i` below the length of row `u`, each once.
pub proof fn lemma_slots_upto(g: Network, k: int)
    requires
        0 <= k <= g.len(),
    ensures
        slots_upto(g, k).no_duplicates(),
        forall|x: Step| slots_upto(g, k).contains(x) <==> (0 <= x.0 < k && 0 <= x.1 < g[x.0].len()),
    decreases k,
{
    if k > 0 {
        lemma_slots_upto(g, k - 1);
        let a = slots_upto(g, k - 1);
        let r = row_slots(k - 1, g[k - 1].len() as int);
        let s = a + r;
        assert forall|x: Step| s.contains(x) <==> (0 <= x.0 < k && 0 <= x.1 < g[x.0].len()) by {
            if s.contains(x) {
                let i = choose|i: int| 0 <= i < s.len() && s[i] == x;
                if i < a.len() {
                    assert(a[i] == x);
                    assert(a.contains(x));
                } else {
                    assert(r[i - a.len()] == x);
                }
            }
            if 0 <= x.0 < k && 0 <= x.1 < g[x.0].len() {
                if x.0 < k - 1 {
                    assert(a.contains(x));
                    let i = choose|i: int| 0 <= i < a.len() && a[i] == x;
                    assert(s[i] == x);
                } else {
                    assert(s[a.len() + x.1] == x);
                }
            }
        }
        assert forall|i: int, j: int| 0 <= i < s.len() && 0 <= j < s.len() && i != j implies s[i] != s[j] by {
            if i < a.len() && j < a.len() {
                assert(s[i] == a[i] && s[j] == a[j]);
            } else if i < a.len() {
                assert(a.contains(a[i]));
                assert(s[j] == r[j - a.len()]);
            } else if j < a.len() {
                assert(a.contains(a[j]));
                assert(s[i] == r[i - a.len()]);
            } else {
                assert(s[i] == r[i - a.len()] && s[j] == r[j - a.len()]);
            }
        }
    }
}

/// Sums agree where the summands agree on the list.
pub proof fn lemma_sum_congr(s: Seq<Step>, f1: spec_fn(int, int) -> int, f2: spec_fn(int, int) -> int)
    requires
        forall|k: int| 0 <= k < s.len() ==> f1(s[k].0, s[k].1) == f2(s[k].0, s[k].1),
    ensures
        sum_over(s, f1) == sum_over(s, f2),
    decreases s.len(),
{
    if s.len() > 0 {
        assert forall|k: int| 0 <= k < s.drop_last().len() implies f1(s.drop_last()[k].0, s.drop_last()[k].1) == f2(
            s.drop_last()[k].0,
            s.drop_last()[k].1,
        ) by {
            assert(s.drop_last()[k] == s[k]);
        }
        lemma_sum_congr(s.drop_last(), f1, f2);
        assert(s.last() == s[s.len() - 1]);
    }
}

/// A sum of zeros is zero.
pub proof fn lemma_sum_zero(s: Seq<Step>, f: spec_fn(int, int) -> int)
    requires
        forall|k: int| 0 <= k < s.len() ==> f(s[k].0, s[k].1) == 0,
    ensures
        sum_over(s, f) == 0,
    decreases s.len(),
{
    if s.len() > 0 {
        assert forall|k: int| 0 <= k < s.drop_last().len() implies f(s.drop_last()[k].0, s.drop_last()[k].1) == 0 by {
            assert(s.drop_last()[k] == s[k]);
        }
        lemma_sum_zero(s.drop_last(), f);
        assert(s.last() == s[s.len() - 1]);
    }
}

proof fn lemma_slots_same(g: Network, h: Network, k: int)
    requires
        0 <= k <= g.len(),
        g.len() == h.len(),
        forall|u: int| 0 <= u < g.len() ==> #[trigger] g[u].len() == h[u].len(),
    ensures
        slots_upto(g, k) == slots_upto(h, k),
    decreases k,
{
    if k > 0 {
        lemma_slots_same(g, h, k - 1);
        assert(g[k - 1].len() == h[k - 1].len());
    }
}

/// Over one row, the change of flow weighted by the row's potential.
proof fn lemma_row_weighted(g: Network, h: Network, pot: Seq<int>, u: int, j: int)
    requires
        0 <= j <= g[u].len(),
        g[u].len() == h[u].len(),
    ensures
        sum_over(row_slots(u, j), |x: int, i: int| (h[x][i].f - g[x][i].f) * pot[x]) == pot[u] * (sum_edges(
            h[u].take(j),
            flow_of(),
        ) - sum_edges(g[u].take(j), flow_of())),
    decreases j,
{
    if j == 0 {
        assert(pot[u] * 0 == 0) by (nonlinear_arith);
    } else {
        lemma_row_weighted(g, h, pot, u, j - 1);
        assert(row_slots(u, j).drop_last() =~= row_slots(u, j - 1));
        assert(g[u].take(j).drop_last() =~= g[u].take(j - 1));
        assert(h[u].take(j).drop_last() =~= h[u].take(j - 1));
        let a = sum_edges(h[u].take(j - 1), flow_of());
        let b = sum_edges(g[u].take(j - 1), flow_of());
        let hf = h[u][j - 1].f;
        let gf = g[u][j - 1].f;
        let p = pot[u];
        assert(p * (a + hf - (b + gf)) == p * (a - b) + (hf - gf) * p) by (nonlinear_arith);
    }
}

/// Under potentials that leave every residual edge a non-negative reduced
/// cost, the flow of `g` is of least cost: every flow `h` on the same
/// network, within the capacities and with the same net flow at every node,
/// costs at least as much.
pub proof fn lemma_network_least_cost(g: Network, h: Network, pot: Seq<int>)
    requires
        well_formed(g),
        well_formed(h),
        same_shape(g, h),
        pot.len() == g.len(),
        forall|u: int, i: int| #[trigger] residual(g, u, i) ==> g[u][i].cost + pot[u] - pot[g[u][i].v] >= 0,
        forall|u: int, i: int| #[trigger] is_edge(h, u, i) ==> h[u][i].f <= h[u][i].cap,
        forall|x: int| 0 <= x < g.len() ==> #[trigger] net_flow(h, x) == net_flow(g, x),
    ensures
        flow_cost(g) <= flow_cost(h),
{
    let n = g.len() as int;
    let a = slots_upto(g, n);
    lemma_slots_upto(g, n);
    lemma_slots_same(g, h, n);
    let fg = |x: int, i: int| flow_cost_of()(g[x][i]);
    let fh = |x: int, i: int| flow_cost_of()(h[x][i]);
    let d = |x: int, i: int| fh(x, i) - fg(x, i);
    let t = |x: int, i: int| (h[x][i].f - g[x][i].f) * (g[x][i].cost + pot[x] - pot[g[x][i].v]);
    let p = |x: int, i: int| (h[x][i].f - g[x][i].f) * pot[x];
    let q = |x: int, i: int| (h[x][i].f - g[x][i].f) * pot[g[x][i].v];
    let qp = |x: int, i: int| q(x, i) - p(x, i);
    // the two costs
    lemma_rows_sum(g, n, flow_cost_of());
    lemma_rows_sum(h, n, flow_cost_of());
    assert(g.take(n) =~= g);
    assert(h.take(n) =~= h);
    lemma_sum_congr(a, |x: int, i: int| flow_cost_of()(g[x][i]), fg);
    lemma_sum_congr(a, |x: int, i: int| flow_cost_of()(h[x][i]), fh);
    // pointwise: the change of cost is the reduced part plus the potential part
    assert forall|k: int| 0 <= k < a.len() implies fh(a[k].0, a[k].1) == fg(a[k].0, a[k].1) + d(a[k].0, a[k].1) by {}
    lemma_sum_combine(a, fh, fg, d);
    assert forall|k: int| 0 <= k < a.len() implies d(a[k].0, a[k].1) == t(a[k].0, a[k].1) + qp(a[k].0, a[k].1) by {
        let x = a[k].0;
        let i = a[k].1;
        assert(a.contains(a[k]));
        assert(is_edge(g, x, i));
        assert(h[x][i].cost == g[x][i].cost);
        let c = g[x][i].cost;
        let hf = h[x][i].f;
        let gf = g[x][i].f;
        let px = pot[x];
        let pv = pot[g[x][i].v];
        assert(hf * c - gf * c == (hf - gf) * (c + px - pv) + ((hf - gf) * pv - (hf - gf) * px)) by (nonlinear_arith);
    }
    lemma_sum_combine(a, d, t, qp);
    assert forall|k: int| 0 <= k < a.len() implies q(a[k].0, a[k].1) == qp(a[k].0, a[k].1) + p(a[k].0, a[k].1) by {}
    lemma_sum_combine(a, q, qp, p);
    // the reduced part is non-negative
    assert forall|k: int| 0 <= k < a.len() implies t(a[k].0, a[k].1) >= 0 by {
        let x = a[k].0;
        let i = a[k].1;
        assert(a.contains(a[k]));
        assert(is_edge(g, x, i));
        assert(edge_ok(g, x, i));
        assert(is_edge(h, x, i));
        assert(edge_ok(h, x, i));
        let v = g[x][i].v;
        let r = g[x][i].r;
        assert(is_edge(g, v, r));
        assert(is_edge(h, v, r));
        let z = h[x][i].f - g[x][i].f;
        let red = g[x][i].cost + pot[x] - pot[v];
        if z > 0 {
            assert(residual(g, x, i));
        } else if z < 0 {
            assert(h[v][r].f == -h[x][i].f);
            assert(g[v][r].f == -g[x][i].f);
            assert(h[v][r].cap == g[v][r].cap);
            assert(residual(g, v, r));
            assert(g[v][r].v == x);
            assert(g[v][r].cost + pot[v] - pot[x] >= 0);
        }
        assert(z * red >= 0) by (nonlinear_arith)
            requires
                z > 0 ==> red >= 0,
                z < 0 ==> red <= 0,
        ;
    }
    lemma_sum_nonneg(a, t);
    // the tail part vanishes row by row
    assert forall|u: int| 0 <= u < n implies #[trigger] sum_over(row_slots(u, g[u].len() as int), p) == 0 by {
        lemma_row_weighted(g, h, pot, u, g[u].len() as int);
        assert(g[u].take(g[u].len() as int) =~= g[u]);
        assert(h[u].take(h[u].len() as int) =~= h[u]);
        assert(net_flow(h, u) == net_flow(g, u));
        assert(pot[u] * 0 == 0) by (nonlinear_arith);
        lemma_sum_congr(row_slots(u, g[u].len() as int), |x: int, i: int| (h[x][i].f - g[x][i].f) * pot[x], p);
    }
    lemma_rows_zero(g, n, p);
    // the head part is the tail part over the reverses
    lemma_sum_reversed(g, p);
    let pp = |x: int, i: int| p(g[x][i].v, g[x][i].r);
    let zq = |x: int, i: int| q(x, i) + pp(x, i);
    assert forall|k: int| 0 <= k < a.len() implies zq(a[k].0, a[k].1) == 0 by {
        let x = a[k].0;
        let i = a[k].1;
        assert(a.contains(a[k]));
        assert(is_edge(g, x, i));
        assert(edge_ok(g, x, i));
        assert(is_edge(h, x, i));
        assert(edge_ok(h, x, i));
        let v = g[x][i].v;
        let r = g[x][i].r;
        assert(h[x][i].v == v && h[x][i].r == r);
        assert(h[v][r].f == -h[x][i].f);
        assert(g[v][r].f == -g[x][i].f);
        let z = h[x][i].f - g[x][i].f;
        assert(pp(x, i) == (h[v][r].f - g[v][r].f) * pot[v]);
        assert((-z) * pot[v] + z * pot[v] == 0) by (nonlinear_arith);
    }
    lemma_sum_zero(a, zq);
    lemma_sum_combine(a, zq, q, pp);
}

/// Trading every slot for its reverse leaves a sum over all slots as it is.
pub proof fn lemma_sum_reversed(g: Network, f: spec_fn(int, int) -> int)
    requires
        well_formed(g),
    ensures
        sum_over(slots_upto(g, g.len() as int), f) == sum_over(
            slots_upto(g, g.len() as int),
            |x: int, i: int| f(g[x][i].v, g[x][i].r),
        ),
{
    let n = g.len() as int;
    let a = slots_upto(g, n);
    lemma_slots_upto(g, n);
    let pair = |x: int, i: int| (g[x][i].v, g[x][i].r);
    let b = Seq::new(a.len(), |k: int| pair(a[k].0, a[k].1));
    assert forall|k: int| 0 <= k < a.len() implies 0 <= (#[trigger] a[k]).0 < n && 0 <= a[k].1 < g[a[k].0].len() by {
        assert(a.contains(a[k]));
    }
    assert(b.no_duplicates()) by {
        assert forall|i: int, j: int| 0 <= i < b.len() && 0 <= j < b.len() && i != j implies b[i] != b[j] by {
            assert(is_edge(g, a[i].0, a[i].1));
            assert(is_edge(g, a[j].0, a[j].1));
            assert(edge_ok(g, a[i].0, a[i].1));
            assert(edge_ok(g, a[j].0, a[j].1));
            if b[i] == b[j] {
                assert(a[i] == a[j]);
            }
        }
    }
    assert forall|y: Step| a.contains(y) <==> b.contains(y) by {
        if a.contains(y) {
            assert(is_edge(g, y.0, y.1));
            assert(edge_ok(g, y.0, y.1));
            let w = pair(y.0, y.1);
            assert(is_edge(g, w.0, w.1));
            assert(a.contains(w));
            let k = choose|k: int| 0 <= k < a.len() && a[k] == w;
            assert(edge_ok(g, w.0, w.1));
            assert(b[k] == y);
        }
        if b.contains(y) {
            let k = choose|k: int| 0 <= k < b.len() && b[k] == y;
            assert(is_edge(g, a[k].0, a[k].1));
            assert(edge_ok(g, a[k].0, a[k].1));
        }
    }
    lemma_sum_permuted(b, a, f);
    lemma_sum_map(a, pair, f);
    lemma_sum_congr(a, |u: int, i: int| f(pair(u, i).0, pair(u, i).1), |x: int, i: int| f(g[x][i].v, g[x][i].r));
}

/// A sum whose rows vanish but for row `s` is that row's sum.
proof fn lemma_rows_single(g: Network, k: int, f: spec_fn(int, int) -> int, s: int)
    requires
        0 <= k <= g.len(),
        forall|u: int| 0 <= u < k && u != s ==> #[trigger] sum_over(row_slots(u, g[u].len() as int), f) == 0,
    ensures
        sum_over(slots_upto(g, k), f) == if 0 <= s < k {
            sum_over(row_slots(s, g[s].len() as int), f)
        } else {
            0
        },
    decreases k,
{
    if k > 0 {
        lemma_rows_single(g, k - 1, f, s);
        lemma_sum_concat(slots_upto(g, k - 1), row_slots(k - 1, g[k - 1].len() as int), f);
    }
}

/// A flow that leaves no residual path from `s` to `t` is maximum: no flow
/// `h` on the same network, within the capacities and passing on at every
/// node but `s` and `t` what it gets, sends more out of `s`.
pub proof fn lemma_network_maximum(g: Network, h: Network, s: int, t: int)
    requires
        well_formed(g),
        well_formed(h),
        same_shape(g, h),
        0 <= s < g.len(),
        0 <= t < g.len(),
        s != t,
        !reachable(g, s, t),
        forall|x: int| 0 <= x < g.len() && x != s && x != t ==> #[trigger] net_flow(g, x) == 0,
        forall|x: int| 0 <= x < g.len() && x != s && x != t ==> #[trigger] net_flow(h, x) == 0,
        forall|u: int, i: int| #[trigger] is_edge(h, u, i) ==> h[u][i].f <= h[u][i].cap,
    ensures
        net_flow(h, s) <= net_flow(g, s),
{
    let n = g.len() as int;
    let a = slots_upto(g, n);
    lemma_slots_upto(g, n);
    let ones = Seq::new(n as nat, |x: int| 1int);
    let fa = |x: int, i: int| if reachable(g, s, x) { h[x][i].f - g[x][i].f } else { 0 };
    let fin = |x: int, i: int| if reachable(g, s, x) && reachable(g, s, g[x][i].v) { h[x][i].f - g[x][i].f } else { 0 };
    let fout = |x: int, i: int| if reachable(g, s, x) && !reachable(g, s, g[x][i].v) { h[x][i].f - g[x][i].f } else { 0 };
    // row by row: only the source's row counts
    assert forall|u: int| 0 <= u < n implies #[trigger] sum_over(row_slots(u, g[u].len() as int), fa) == if reachable(g, s, u) {
        net_flow(h, u) - net_flow(g, u)
    } else {
        0
    } by {
        let r = row_slots(u, g[u].len() as int);
        lemma_row_weighted(g, h, ones, u, g[u].len() as int);
        assert(g[u].take(g[u].len() as int) =~= g[u]);
        assert(h[u].take(h[u].len() as int) =~= h[u]);
        assert(ones[u] == 1);
        assert(ones[u] * (net_flow(h, u) - net_flow(g, u)) == net_flow(h, u) - net_flow(g, u));
        if reachable(g, s, u) {
            assert forall|k: int| 0 <= k < r.len() implies (h[r[k].0][r[k].1].f - g[r[k].0][r[k].1].f) * ones[r[k].0] == fa(
                r[k].0,
                r[k].1,
            ) by {
                assert(r[k] == (u, k));
                let d = h[u][k].f - g[u][k].f;
                assert(d * 1 == d);
            }
            lemma_sum_congr(r, |x: int, i: int| (h[x][i].f - g[x][i].f) * ones[x], fa);
        } else {
            lemma_sum_zero(r, fa);
        }
    }
    lemma_reachable_self(g, s);
    assert forall|u: int| 0 <= u < n && u != s implies #[trigger] sum_over(row_slots(u, g[u].len() as int), fa) == 0 by {
        if reachable(g, s, u) {
            assert(u != t);
        }
    }
    lemma_rows_single(g, n, fa, s);
    // inside the reachable set the reverses cancel
    assert forall|k: int| 0 <= k < a.len() implies fa(a[k].0, a[k].1) == fin(a[k].0, a[k].1) + fout(a[k].0, a[k].1) by {}
    lemma_sum_combine(a, fa, fin, fout);
    lemma_sum_reversed(g, fin);
    let fr = |x: int, i: int| fin(g[x][i].v, g[x][i].r);
    let z = |x: int, i: int| fin(x, i) + fr(x, i);
    assert forall|k: int| 0 <= k < a.len() implies z(a[k].0, a[k].1) == 0 by {
        let x = a[k].0;
        let i = a[k].1;
        assert(a.contains(a[k]));
        assert(is_edge(g, x, i));
        assert(edge_ok(g, x, i));
        assert(is_edge(h, x, i));
        assert(edge_ok(h, x, i));
        let v = g[x][i].v;
        let r = g[x][i].r;
        assert(h[x][i].v == v && h[x][i].r == r);
        assert(g[v][r].v == x);
        assert(h[v][r].f == -h[x][i].f);
        assert(g[v][r].f == -g[x][i].f);
    }
    lemma_sum_zero(a, z);
    lemma_sum_combine(a, z, fin, fr);
    // every edge leaving the reachable set is full
    assert forall|k: int| 0 <= k < a.len() implies -fout(a[k].0, a[k].1) >= 0 by {
        let x = a[k].0;
        let i = a[k].1;
        assert(a.contains(a[k]));
        assert(is_edge(g, x, i));
        assert(is_edge(h, x, i));
        if reachable(g, s, x) && !reachable(g, s, g[x][i].v) {
            if residual(g, x, i) {
                lemma_reachable_step(g, s, x, i);
            }
            assert(h[x][i].cap == g[x][i].cap);
        }
    }
    let nf = |x: int, i: int| -fout(x, i);
    lemma_sum_nonneg(a, nf);
    let zz = |x: int, i: int| fout(x, i) + nf(x, i);
    lemma_sum_zero(a, zz);
    lemma_sum_combine(a, zz, fout, nf);
}

/// More capacity never lowers the maximum flow. Take a flow `g1` from `s`
/// to `t` within its capacities, and a flow `g2` on the same edges with
/// capacities at least as large that leaves no residual path from `s` to
/// `t`: `g1` sends no more out of `s` than `g2`.
pub proof fn lemma_network_more_capacity(g1: Network, g2: Network, s: int, t: int)
    requires
        well_formed(g1),
        well_formed(g2),
        g1.len() == g2.len(),
        forall|u: int| 0 <= u < g1.len() ==> #[trigger] g1[u].len() == g2[u].len(),
        forall|u: int, i: int|
            #[trigger] is_edge(g1, u, i) ==> g1[u][i].v == g2[u][i].v && g1[u][i].r == g2[u][i].r && g1[u][i].cost
                == g2[u][i].cost && g1[u][i].cap <= g2[u][i].cap && g1[u][i].f <= g1[u][i].cap,
        0 <= s < g1.len(),
        0 <= t < g1.len(),
        s != t,
        !reachable(g2, s, t),
        forall|x: int| 0 <= x < g1.len() && x != s && x != t ==> #[trigger] net_flow(g1, x) == 0,
        forall|x: int| 0 <= x < g2.len() && x != s && x != t ==> #[trigger] net_flow(g2, x) == 0,
    ensures
        net_flow(g1, s) <= net_flow(g2, s),
{
    let h = Seq::new(g2.len(), |u: int| Seq::new(g2[u].len(), |i: int| EdgeView { f: g1[u][i].f, ..g2[u][i] }));
    assert forall|u: int, i: int| #[trigger] is_edge(h, u, i) implies edge_ok(h, u, i) by {
        assert(is_edge(g1, u, i));
        assert(edge_ok(g1, u, i));
        let v = g1[u][i].v;
        let r = g1[u][i].r;
        assert(is_edge(g1, v, r));
        assert(h[v][r].f == g1[v][r].f);
    }
    assert(same_shape(g2, h));
    assert forall|u: int, i: int| #[trigger] is_edge(h, u, i) implies h[u][i].f <= h[u][i].cap by {
        assert(is_edge(g1, u, i));
    }
    assert forall|x: int| 0 <= x < g1.len() implies #[trigger] net_flow(h, x) == net_flow(g1, x) by {
        let m = flow_of();
        assert(h[x].len() == g1[x].len());
        lemma_sum_same(h[x], g1[x], m);
    }
    lemma_network_maximum(g2, h, s, t);
}

/// Rows with the same flows have the same flow sum.
proof fn lemma_sum_same(r1: Seq<EdgeView>, r2: Seq<EdgeView>, m: spec_fn(EdgeView) -> int)
    requires
        r1.len() == r2.len(),
        m == flow_of(),
        forall|i: int| 0 <= i < r1.len() ==> #[trigger] r1[i].f == r2[i].f,
    ensures
        sum_edges(r1, m) == sum_edges(r2, m),
    decreases r1.len(),
{
    if r1.len() > 0 {
        lemma_sum_same(r1.drop_last(), r2.drop_last(), m);
        assert(r1.last().f == r2.last().f);
    }
}

} // verus!
