//! Parent pointers of a shortest-path search on an edge list: following
//! them from a node, and when that leads back to the source.
use vstd::prelude::*;

use crate::edge_list::Edge;

verus! {

/// One step up the parent pointers: the tail of `v`'s parent edge. The
/// source, and a node without a parent, stay where they are.
pub open spec fn up(edges: Seq<Edge>, parent: Seq<Option<usize>>, source: int, v: int) -> int {
    if v == source || !(0 <= v < parent.len()) || parent[v] is None {
        v
    } else {
        edges[parent[v].unwrap() as int].from as int
    }
}

/// The node `k` steps up from `v`.
pub open spec fn anc(edges: Seq<Edge>, parent: Seq<Option<usize>>, source: int, v: int, k: nat) -> int
    decreases k,
{
    if k == 0 {
        v
    } else {
        up(edges, parent, source, anc(edges, parent, source, v, (k - 1) as nat))
    }
}

/// Following the parent pointers from `v` leads to the source.
pub open spec fn rooted(edges: Seq<Edge>, parent: Seq<Option<usize>>, source: int, v: int) -> bool {
    exists|k: nat| anc(edges, parent, source, v, k) == source
}

/// From every node with a parent, the parent pointers lead to the source.
pub open spec fn parents_rooted(edges: Seq<Edge>, parent: Seq<Option<usize>>, source: int) -> bool {
    forall|v: int| 0 <= v < parent.len() && #[trigger] parent[v] is Some ==> rooted(edges, parent, source, v)
}

pub proof fn lemma_anc_add(edges: Seq<Edge>, parent: Seq<Option<usize>>, source: int, v: int, i: nat, m: nat)
    ensures
        anc(edges, parent, source, v, i + m) == anc(edges, parent, source, anc(edges, parent, source, v, i), m),
    decreases m,
{
    if m > 0 {
        lemma_anc_add(edges, parent, source, v, i, (m - 1) as nat);
        assert((i + m - 1) as nat == i + (m - 1) as nat);
    }
}

/// A node that does not move stays put for any number of steps.
pub proof fn lemma_anc_fixed(edges: Seq<Edge>, parent: Seq<Option<usize>>, source: int, y: int, m: nat)
    requires
        up(edges, parent, source, y) == y,
    ensures
        anc(edges, parent, source, y, m) == y,
    decreases m,
{
    if m > 0 {
        lemma_anc_fixed(edges, parent, source, y, (m - 1) as nat);
    }
}

/// Changing the parent of `x` does not change the walk up from `w` until it
/// meets `x` (away from the source).
pub proof fn lemma_anc_agree(
    edges: Seq<Edge>,
    p1: Seq<Option<usize>>,
    p2: Seq<Option<usize>>,
    source: int,
    x: int,
    w: int,
    j: nat,
)
    requires
        p1.len() == p2.len(),
        forall|y: int| 0 <= y < p1.len() && y != x ==> #[trigger] p2[y] == p1[y],
        forall|i: nat| i < j ==> anc(edges, p1, source, w, i) != x || anc(edges, p1, source, w, i) == source,
    ensures
        anc(edges, p2, source, w, j) == anc(edges, p1, source, w, j),
    decreases j,
{
    if j > 0 {
        let j1 = (j - 1) as nat;
        lemma_anc_agree(edges, p1, p2, source, x, w, j1);
        let y = anc(edges, p1, source, w, j1);
        assert(y != x || y == source);
        if 0 <= y < p1.len() && y != x {
            assert(p2[y] == p1[y]);
        }
    }
}

/// The first time the walk up from `w` meets `x`.
pub proof fn lemma_first_hit(edges: Seq<Edge>, parent: Seq<Option<usize>>, source: int, w: int, x: int, k: nat) -> (i0: nat)
    requires
        anc(edges, parent, source, w, k) == x,
    ensures
        i0 <= k,
        anc(edges, parent, source, w, i0) == x,
        forall|i: nat| i < i0 ==> anc(edges, parent, source, w, i) != x,
    decreases k,
{
    if exists|i: nat| i < k && anc(edges, parent, source, w, i) == x {
        let i = choose|i: nat| i < k && anc(edges, parent, source, w, i) == x;
        lemma_first_hit(edges, parent, source, w, x, i)
    } else {
        k
    }
}

/// A walk up that comes back to a node before meeting the source never
/// meets it.
pub proof fn lemma_cycle_not_rooted(edges: Seq<Edge>, parent: Seq<Option<usize>>, source: int, w: int, i: nat, t: nat, k: nat)
    requires
        i < t,
        anc(edges, parent, source, w, i) == anc(edges, parent, source, w, t),
        forall|j: nat| j <= t ==> anc(edges, parent, source, w, j) != source,
    ensures
        anc(edges, parent, source, w, k) != source,
    decreases k,
{
    if k > t {
        let d = (k - t) as nat;
        lemma_anc_add(edges, parent, source, w, t, d);
        lemma_anc_add(edges, parent, source, w, i, d);
        assert(t + d == k);
        lemma_cycle_not_rooted(edges, parent, source, w, i, t, i + d);
    }
}

/// A walk up that gets stuck away from the source never meets it.
pub proof fn lemma_stuck_not_rooted(edges: Seq<Edge>, parent: Seq<Option<usize>>, source: int, w: int, t: nat, k: nat)
    requires
        up(edges, parent, source, anc(edges, parent, source, w, t)) == anc(edges, parent, source, w, t),
        forall|j: nat| j <= t ==> anc(edges, parent, source, w, j) != source,
    ensures
        anc(edges, parent, source, w, k) != source,
{
    if k > t {
        let d = (k - t) as nat;
        lemma_anc_add(edges, parent, source, w, t, d);
        lemma_anc_fixed(edges, parent, source, anc(edges, parent, source, w, t), d);
        assert(t + d == k);
    }
}

/// Giving `v` the parent edge `e`, whose tail leads up to the source
/// without meeting `v`, keeps every node with a parent rooted.
pub proof fn lemma_reparent(edges: Seq<Edge>, parent: Seq<Option<usize>>, source: int, v: int, e: usize, k0: nat)
    requires
        parents_rooted(edges, parent, source),
        0 <= v < parent.len(),
        anc(edges, parent, source, edges[e as int].from as int, k0) == source,
        forall|j: nat| j < k0 ==> anc(edges, parent, source, edges[e as int].from as int, j) != v,
    ensures
        parents_rooted(edges, parent.update(v, Some(e)), source),
{
    let p2 = parent.update(v, Some(e));
    let u = edges[e as int].from as int;
    assert forall|w: int| 0 <= w < p2.len() && #[trigger] p2[w] is Some implies rooted(edges, p2, source, w) by {
        if w == source {
            assert(anc(edges, p2, source, w, 0) == source);
        } else if v == source {
            assert(parent[w] is Some);
            let k = choose|k: nat| anc(edges, parent, source, w, k) == source;
            lemma_anc_agree(edges, parent, p2, source, v, w, k);
            assert(anc(edges, p2, source, w, k) == source);
        } else {
            // from v: one step to u, then u's walk, which avoids v
            lemma_anc_agree(edges, parent, p2, source, v, u, k0);
            lemma_anc_add(edges, p2, source, v, 1, k0);
            assert(anc(edges, p2, source, v, 1) == up(edges, p2, source, anc(edges, p2, source, v, 0)));
            assert(anc(edges, p2, source, v, 1) == u);
            assert(anc(edges, p2, source, v, 1 + k0) == source);
            if w == v {
                assert(anc(edges, p2, source, w, 1 + k0) == source);
            } else {
                assert(p2[w] == parent[w]);
                let k = choose|k: nat| anc(edges, parent, source, w, k) == source;
                if exists|i: nat| i <= k && anc(edges, parent, source, w, i) == v {
                    let i = choose|i: nat| i <= k && anc(edges, parent, source, w, i) == v;
                    let i0 = lemma_first_hit(edges, parent, source, w, v, i);
                    lemma_anc_agree(edges, parent, p2, source, v, w, i0);
                    lemma_anc_add(edges, p2, source, w, i0, 1 + k0);
                    assert(anc(edges, p2, source, w, i0 + (1 + k0)) == source);
                } else {
                    lemma_anc_agree(edges, parent, p2, source, v, w, k);
                    assert(anc(edges, p2, source, w, k) == source);
                }
            }
        }
    }
}

} // verus!
