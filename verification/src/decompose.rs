//! Splitting the flow on the arcs into source-to-sink paths.
//!
//! The flow still to be split is kept per arc as a list of
//! `(from, to, flow, arc)` entries. Each round walks from the source, at
//! every node taking the first entry that leaves it, until it reaches the
//! sink; the path found carries the smallest flow met on the way, which is
//! then taken off every entry it used.
use vstd::prelude::*;

use crate::edge_list::{Edge, filled};
use crate::network::lemma_distinct_push;

verus! {

/// What is left to split on one arc: from, to, flow, the arc's index.
pub type Hop = (usize, usize, i64, usize);

/// One edge of an extracted path: from, to, the flow of the path, the cost.
pub type Leg = (usize, usize, i64, i32);

/// The flow to split: one entry for each arc that carries flow, in the
/// order of the arcs.
pub open spec fn remaining(fwd: Seq<Edge>) -> Seq<Hop>
    decreases fwd.len(),
{
    if fwd.len() == 0 {
        Seq::empty()
    } else if fwd.last().flow > 0 {
        remaining(fwd.drop_last()).push((fwd.last().from, fwd.last().to, fwd.last().flow, (fwd.len() - 1) as usize))
    } else {
        remaining(fwd.drop_last())
    }
}

/// Entry `i` is the first entry of `r` that leaves `u`.
pub open spec fn first_hop(r: Seq<Hop>, u: int, i: int) -> bool {
    &&& 0 <= i < r.len()
    &&& r[i].0 == u
    &&& forall|j: int| 0 <= j < i ==> #[trigger] r[j].0 != u
}

/// Some entry of `r` leaves `u`.
pub open spec fn has_hop(r: Seq<Hop>, u: int) -> bool {
    exists|i: int| 0 <= i < r.len() && r[i].0 == u
}

/// The walk moves from `u` to `v`: the first entry leaving `u` enters `v`.
pub open spec fn steps(r: Seq<Hop>, u: int, v: int) -> bool {
    exists|i: int| first_hop(r, u, i) && r[i].1 == v
}

/// `xs` is the walk from `source` to `sink` through distinct nodes.
pub open spec fn hop_chain(r: Seq<Hop>, xs: Seq<int>, source: int, sink: int) -> bool {
    &&& xs.len() >= 1
    &&& xs[0] == source
    &&& xs.last() == sink
    &&& xs.no_duplicates()
    &&& forall|t: int| 0 <= t < xs.len() - 1 ==> #[trigger] step_at(r, xs, t)
}

/// The walk moves from `xs[t]` to `xs[t + 1]`.
pub open spec fn step_at(r: Seq<Hop>, xs: Seq<int>, t: int) -> bool {
    steps(r, xs[t], xs[t + 1])
}

/// The walk from `source` reaches `sink` without visiting a node twice.
pub open spec fn walk_reaches(r: Seq<Hop>, source: int, sink: int) -> bool {
    exists|xs: Seq<int>| #[trigger] hop_chain(r, xs, source, sink)
}

/// The flow that the paths `ps`, whose legs run on the arcs `ids`, route
/// over arc `k`.
pub open spec fn used(ps: Seq<Seq<Leg>>, ids: Seq<Seq<usize>>, k: usize) -> int
    decreases ps.len(),
{
    if ps.len() == 0 {
        0
    } else {
        used(ps.drop_last(), ids.drop_last(), k) + if ids.last().contains(k) {
            ps.last()[0].2 as int
        } else {
            0
        }
    }
}

/// The entries of `s` less the flow that `ps` routes; emptied entries go.
pub open spec fn left(s: Seq<Hop>, ps: Seq<Seq<Leg>>, ids: Seq<Seq<usize>>) -> Seq<Hop>
    decreases s.len(),
{
    if s.len() == 0 {
        Seq::empty()
    } else {
        let rest = left(s.drop_last(), ps, ids);
        let a = s.last();
        let x = a.2 - used(ps, ids, a.3);
        if x > 0 {
            rest.push((a.0, a.1, x as i64, a.3))
        } else {
            rest
        }
    }
}

/// The entries of `t` less `m` on each arc of `id`; emptied entries go.
pub open spec fn less_path(t: Seq<Hop>, id: Seq<usize>, m: int) -> Seq<Hop>
    decreases t.len(),
{
    if t.len() == 0 {
        Seq::empty()
    } else {
        let rest = less_path(t.drop_last(), id, m);
        let a = t.last();
        let x = a.2 - if id.contains(a.3) {
            m
        } else {
            0
        };
        if x > 0 {
            rest.push((a.0, a.1, x as i64, a.3))
        } else {
            rest
        }
    }
}

/// `p[i]` ends where `p[i + 1]` starts.
pub open spec fn links(p: Seq<Leg>, i: int) -> bool {
    p[i].1 == p[i + 1].0
}

/// `p` is a path from `source` to `sink` through distinct nodes, carrying
/// one positive flow; its leg `i` runs on arc `id[i]`, which carries flow,
/// and has that arc's ends and cost.
pub open spec fn leg_path(p: Seq<Leg>, id: Seq<usize>, fwd: Seq<Edge>, source: int, sink: int) -> bool {
    &&& p.len() >= 1
    &&& id.len() == p.len()
    &&& p[0].0 == source
    &&& p.last().1 == sink
    &&& p[0].2 > 0
    &&& forall|i: int| 0 <= i < p.len() - 1 ==> #[trigger] links(p, i)
    &&& forall|i: int, j: int| 0 <= i < j < p.len() ==> #[trigger] p[i].0 != #[trigger] p[j].0
    &&& forall|i: int|
        0 <= i < p.len() ==> {
            &&& (#[trigger] p[i]).2 == p[0].2
            &&& p[i].0 != sink
            &&& id[i] < fwd.len()
            &&& fwd[id[i] as int].from == p[i].0
            &&& fwd[id[i] as int].to == p[i].1
            &&& fwd[id[i] as int].cost == p[i].3
            &&& fwd[id[i] as int].flow > 0
        }
}

/// Path `j` empties one of the arcs it uses: with it, the paths up to it
/// route all the flow that arc carries (its flow is the smallest left on its
/// way).
pub open spec fn saturates(fwd: Seq<Edge>, ps: Seq<Seq<Leg>>, ids: Seq<Seq<usize>>, j: int) -> bool {
    exists|t: int|
        0 <= t < ps[j].len() && used(ps.take(j + 1), ids.take(j + 1), #[trigger] ids[j][t]) == fwd[ids[j][t] as int].flow
}

/// `ps` splits (part of) the flow on the arcs `fwd` into paths from
/// `source` to `sink`, path `j` running on the arcs `ids[j]`: each is a
/// `leg_path`; together they route no more than each arc carries; and on
/// what is left the walk from the source no longer reaches the sink
/// (nothing is split when the source is the sink).
pub open spec fn split_by(fwd: Seq<Edge>, source: int, sink: int, ps: Seq<Seq<Leg>>, ids: Seq<Seq<usize>>) -> bool {
    let r0 = remaining(fwd);
    &&& ids.len() == ps.len()
    &&& forall|j: int| 0 <= j < ps.len() ==> leg_path(#[trigger] ps[j], ids[j], fwd, source, sink)
    &&& forall|j: int| 0 <= j < ps.len() ==> #[trigger] saturates(fwd, ps, ids, j)
    &&& forall|i: int| 0 <= i < r0.len() ==> used(ps, ids, r0[i].3) <= #[trigger] r0[i].2
    &&& source == sink ==> ps.len() == 0
    &&& source == sink || !walk_reaches(left(r0, ps, ids), source, sink)
}

/// `ps` splits the flow on the arcs `fwd` into paths from `source` to
/// `sink`, for some choice of the arcs that the legs run on.
pub open spec fn decomposes(fwd: Seq<Edge>, source: int, sink: int, ps: Seq<Seq<Leg>>) -> bool {
    exists|ids: Seq<Seq<usize>>| split_by(fwd, source, sink, ps, ids)
}

/// Every path carries a positive flow.
pub open spec fn positive_paths(ps: Seq<Seq<Leg>>) -> bool {
    forall|j: int| 0 <= j < ps.len() ==> (#[trigger] ps[j]).len() >= 1 && ps[j][0].2 > 0
}

proof fn lemma_used_nonneg(ps: Seq<Seq<Leg>>, ids: Seq<Seq<usize>>, k: usize)
    requires
        positive_paths(ps),
    ensures
        used(ps, ids, k) >= 0,
    decreases ps.len(),
{
    if ps.len() > 0 {
        assert forall|j: int| 0 <= j < ps.drop_last().len() implies (#[trigger] ps.drop_last()[j]).len() >= 1
            && ps.drop_last()[j][0].2 > 0 by {
            assert(ps.drop_last()[j] == ps[j]);
        }
        assert(ps.last() == ps[ps.len() - 1]);
        lemma_used_nonneg(ps.drop_last(), ids.drop_last(), k);
    }
}

/// One more path adds its flow to what is routed over each arc it runs
/// on, and nothing to the others.
pub proof fn lemma_used_push(ps: Seq<Seq<Leg>>, ids: Seq<Seq<usize>>, p: Seq<Leg>, id: Seq<usize>, k: usize)
    requires
        ids.len() == ps.len(),
    ensures
        used(ps.push(p), ids.push(id), k) == used(ps, ids, k) + if id.contains(k) {
            p[0].2 as int
        } else {
            0
        },
{
    assert(ps.push(p).drop_last() =~= ps);
    assert(ids.push(id).drop_last() =~= ids);
}

/// Taking a new path off what is left is what is left of the flow after
/// all the paths.
proof fn lemma_less_left(s: Seq<Hop>, ps: Seq<Seq<Leg>>, ids: Seq<Seq<usize>>, p: Seq<Leg>, id: Seq<usize>, m: int)
    requires
        positive_paths(ps),
        ids.len() == ps.len(),
        p.len() >= 1,
        p[0].2 == m,
        m > 0,
    ensures
        less_path(left(s, ps, ids), id, m) == left(s, ps.push(p), ids.push(id)),
    decreases s.len(),
{
    if s.len() > 0 {
        lemma_less_left(s.drop_last(), ps, ids, p, id, m);
        let a = s.last();
        lemma_used_nonneg(ps, ids, a.3);
        lemma_used_push(ps, ids, p, id, a.3);
        let x = a.2 - used(ps, ids, a.3);
        let l = left(s, ps, ids);
        if x > 0 {
            assert(l.drop_last() =~= left(s.drop_last(), ps, ids));
            assert(l.last() == (a.0, a.1, x as i64, a.3));
        }
    }
}

/// Each entry of what is left comes from an entry of `s`, less what the
/// paths route over its arc, and is positive.
pub proof fn lemma_left_entry(s: Seq<Hop>, ps: Seq<Seq<Leg>>, ids: Seq<Seq<usize>>)
    requires
        positive_paths(ps),
    ensures
        left(s, ps, ids).len() <= s.len(),
        forall|j: int|
            0 <= j < left(s, ps, ids).len() ==> exists|i: int|
                0 <= i < s.len() && s[i].0 == (#[trigger] left(s, ps, ids)[j]).0 && s[i].1 == left(s, ps, ids)[j].1
                    && s[i].3 == left(s, ps, ids)[j].3 && left(s, ps, ids)[j].2 == s[i].2 - used(ps, ids, s[i].3)
                    && left(s, ps, ids)[j].2 > 0,
    decreases s.len(),
{
    if s.len() > 0 {
        lemma_left_entry(s.drop_last(), ps, ids);
        let a = s.last();
        lemma_used_nonneg(ps, ids, a.3);
        let l = left(s, ps, ids);
        let l0 = left(s.drop_last(), ps, ids);
        assert forall|j: int| 0 <= j < l.len() implies exists|i: int|
            0 <= i < s.len() && s[i].0 == (#[trigger] l[j]).0 && s[i].1 == l[j].1 && s[i].3 == l[j].3 && l[j].2 == s[i].2
                - used(ps, ids, s[i].3) && l[j].2 > 0 by {
            if j < l0.len() {
                assert(l[j] == l0[j]);
                let i = choose|i: int|
                    0 <= i < s.drop_last().len() && s.drop_last()[i].0 == (#[trigger] l0[j]).0 && s.drop_last()[i].1
                        == l0[j].1 && s.drop_last()[i].3 == l0[j].3 && l0[j].2 == s.drop_last()[i].2 - used(
                        ps,
                        ids,
                        s.drop_last()[i].3,
                    ) && l0[j].2 > 0;
                assert(s[i] == s.drop_last()[i]);
            } else {
                assert(s[s.len() - 1] == a);
            }
        }
    }
}

/// Taking a path off never adds entries, and removes one it empties.
proof fn lemma_less_shrinks(t: Seq<Hop>, id: Seq<usize>, m: int, k: int)
    requires
        0 <= k < t.len(),
        id.contains(t[k].3),
        t[k].2 <= m,
    ensures
        less_path(t, id, m).len() < t.len(),
    decreases t.len(),
{
    lemma_less_len(t.drop_last(), id, m);
    if k < t.len() - 1 {
        assert(t.drop_last()[k] == t[k]);
        lemma_less_shrinks(t.drop_last(), id, m, k);
    }
}

proof fn lemma_less_len(t: Seq<Hop>, id: Seq<usize>, m: int)
    ensures
        less_path(t, id, m).len() <= t.len(),
    decreases t.len(),
{
    if t.len() > 0 {
        lemma_less_len(t.drop_last(), id, m);
    }
}

/// The first entry leaving a node is unique.
proof fn lemma_first_hop_unique(r: Seq<Hop>, u: int, i: int, j: int)
    requires
        first_hop(r, u, i),
        first_hop(r, u, j),
    ensures
        i == j,
{
    if i < j {
        assert(r[i].0 != u);
    } else if j < i {
        assert(r[j].0 != u);
    }
}

/// The flow to split has one entry per arc that carries flow, in the order
/// of the arcs, each with that arc's ends and flow.
proof fn lemma_remaining(fwd: Seq<Edge>)
    requires
        fwd.len() <= usize::MAX,
    ensures
        forall|i: int, j: int| 0 <= i < j < remaining(fwd).len() ==> remaining(fwd)[i].3 < remaining(fwd)[j].3,
        forall|i: int|
            0 <= i < remaining(fwd).len() ==> {
                let h = #[trigger] remaining(fwd)[i];
                &&& h.2 > 0
                &&& h.3 < fwd.len()
                &&& fwd[h.3 as int].from == h.0
                &&& fwd[h.3 as int].to == h.1
                &&& fwd[h.3 as int].flow == h.2
            },
    decreases fwd.len(),
{
    if fwd.len() > 0 {
        let f0 = fwd.drop_last();
        lemma_remaining(f0);
        let r0 = remaining(f0);
        let r = remaining(fwd);
        let e = fwd.last();
        assert forall|i: int| 0 <= i < r.len() implies {
            let h = #[trigger] r[i];
            &&& h.2 > 0
            &&& h.3 < fwd.len()
            &&& fwd[h.3 as int].from == h.0
            &&& fwd[h.3 as int].to == h.1
            &&& fwd[h.3 as int].flow == h.2
        } by {
            if e.flow > 0 && i == r0.len() {
                assert(fwd[fwd.len() - 1] == e);
            } else {
                assert(r[i] == r0[i]);
                assert(fwd[r0[i].3 as int] == f0[r0[i].3 as int]);
            }
        }
        assert forall|i: int, j: int| 0 <= i < j < r.len() implies r[i].3 < r[j].3 by {
            assert(r[i] == r0[i]);
            if e.flow > 0 && j == r0.len() {
                assert(r0[i].3 < f0.len());
            } else {
                assert(r[j] == r0[j]);
            }
        }
    }
}

/// The flow that `get_flow_paths` splits has exactly one entry for each arc
/// whose flow is positive, whatever its cost, in the order of the arcs: entry
/// `j` is arc `idx[j]`, with its ends, its whole flow and its index, and arc
/// `k` has an entry if and only if `fwd[k].flow > 0`.
pub proof fn lemma_remaining_arcs(fwd: Seq<Edge>) -> (idx: Seq<int>)
    requires
        fwd.len() <= usize::MAX,
    ensures
        idx.len() == remaining(fwd).len(),
        forall|j: int|
            0 <= j < idx.len() ==> 0 <= #[trigger] idx[j] < fwd.len() && remaining(fwd)[j] == (
                fwd[idx[j]].from,
                fwd[idx[j]].to,
                fwd[idx[j]].flow,
                idx[j] as usize,
            ),
        forall|i: int, j: int| 0 <= i < j < idx.len() ==> idx[i] < idx[j],
        forall|k: int| 0 <= k < fwd.len() ==> (#[trigger] fwd[k].flow > 0 <==> idx.contains(k)),
    decreases fwd.len(),
{
    if fwd.len() == 0 {
        Seq::empty()
    } else {
        let f0 = fwd.drop_last();
        let i0 = lemma_remaining_arcs(f0);
        let l = fwd.len() - 1;
        let idx = if fwd.last().flow > 0 {
            i0.push(l)
        } else {
            i0
        };
        assert forall|j: int|
            0 <= j < idx.len() implies 0 <= #[trigger] idx[j] < fwd.len() && remaining(fwd)[j] == (
                fwd[idx[j]].from,
                fwd[idx[j]].to,
                fwd[idx[j]].flow,
                idx[j] as usize,
            ) by {
            if j < i0.len() {
                assert(idx[j] == i0[j]);
                assert(fwd[i0[j]] == f0[i0[j]]);
            }
        }
        assert forall|k: int| 0 <= k < fwd.len() implies (#[trigger] fwd[k].flow > 0 <==> idx.contains(k)) by {
            if k < l {
                assert(fwd[k] == f0[k]);
                assert(f0[k].flow > 0 <==> i0.contains(k));
                if i0.contains(k) {
                    let j = choose|j: int| 0 <= j < i0.len() && i0[j] == k;
                    assert(idx[j] == k);
                }
                if idx.contains(k) {
                    let j = choose|j: int| 0 <= j < idx.len() && idx[j] == k;
                    if j < i0.len() {
                        assert(i0[j] == k);
                    }
                }
            } else {
                if idx.contains(k) && fwd.last().flow <= 0 {
                    let j = choose|j: int| 0 <= j < idx.len() && idx[j] == k;
                    assert(i0[j] < f0.len());
                }
                if fwd.last().flow > 0 {
                    assert(idx[i0.len() as int] == k);
                }
            }
        }
        idx
    }
}

/// The flow to split: one entry for each arc that carries flow.
fn build_remaining(fwd: &Vec<Edge>) -> (r: Vec<Hop>)
    ensures
        r@ == remaining(fwd@),
{
    let mut r: Vec<Hop> = Vec::new();
    let mut k: usize = 0;
    while k < fwd.len()
        invariant
            k <= fwd@.len(),
            r@ == remaining(fwd@.take(k as int)),
        decreases fwd@.len() - k,
    {
        let ghost f1 = fwd@.take(k as int + 1);
        proof {
            assert(f1.drop_last() =~= fwd@.take(k as int));
            assert(f1.last() == fwd@[k as int]);
        }
        let e = &fwd[k];
        if e.flow > 0 {
            r.push((e.from, e.to, e.flow, k));
        }
        k += 1;
    }
    assert(fwd@.take(fwd@.len() as int) =~= fwd@);
    r
}

/// The first entry of `r` leaving `u`, if there is one.
fn first_from(r: &Vec<Hop>, u: usize) -> (res: Option<usize>)
    ensures
        match res {
            Some(i) => first_hop(r@, u as int, i as int),
            None => !has_hop(r@, u as int),
        },
{
    let mut i: usize = 0;
    while i < r.len()
        invariant
            i <= r@.len(),
            forall|j: int| 0 <= j < i ==> #[trigger] r@[j].0 != u,
        decreases r@.len() - i,
    {
        if r[i].0 == u {
            return Some(i);
        }
        i += 1;
    }
    None
}

/// Whether `id` holds arc `k`.
fn holds(id: &Vec<usize>, k: usize) -> (b: bool)
    ensures
        b == id@.contains(k),
{
    let mut i: usize = 0;
    while i < id.len()
        invariant
            i <= id@.len(),
            forall|j: int| 0 <= j < i ==> #[trigger] id@[j] != k,
        decreases id@.len() - i,
    {
        if id[i] == k {
            assert(id@[i as int] == k);
            return true;
        }
        i += 1;
    }
    false
}

/// `r` less `m` on each arc of `id`, emptied entries removed.
fn take_path(r: &Vec<Hop>, id: &Vec<usize>, m: i64) -> (res: Vec<Hop>)
    requires
        forall|i: int| 0 <= i < r@.len() ==> (#[trigger] r@[i]).2 > 0,
        m > 0,
    ensures
        res@ == less_path(r@, id@, m as int),
{
    let mut res: Vec<Hop> = Vec::new();
    let mut i: usize = 0;
    while i < r.len()
        invariant
            i <= r@.len(),
            forall|i: int| 0 <= i < r@.len() ==> (#[trigger] r@[i]).2 > 0,
            m > 0,
            res@ == less_path(r@.take(i as int), id@, m as int),
        decreases r@.len() - i,
    {
        proof {
            assert(r@.take(i as int + 1).drop_last() =~= r@.take(i as int));
        }
        let (u, v, x, k) = r[i];
        let y = if holds(id, k) {
            x - m
        } else {
            x
        };
        if y > 0 {
            res.push((u, v, y, k));
        }
        i += 1;
    }
    assert(r@.take(r@.len() as int) =~= r@);
    res
}

/// The paths as sequences.
pub open spec fn paths_of(ps: Seq<Vec<Leg>>) -> Seq<Seq<Leg>> {
    Seq::new(ps.len(), |j: int| ps[j]@)
}

/// A walk that has gone through the nodes `trail` and stands at `current`
/// has followed every walk from the source that reaches the sink.
pub open spec fn follows(r: Seq<Hop>, trail: Seq<int>, current: int, source: int, sink: int) -> bool {
    forall|xs: Seq<int>|
        #[trigger] hop_chain(r, xs, source, sink) ==> trail.len() < xs.len() && xs[trail.len() as int] == current
            && xs.take(trail.len() as int) == trail
}

proof fn lemma_follows_start(r: Seq<Hop>, source: int, sink: int)
    ensures
        follows(r, Seq::empty(), source, source, sink),
{
    assert forall|xs: Seq<int>| #[trigger] hop_chain(r, xs, source, sink) implies xs.take(0) == Seq::<int>::empty() by {
        assert(xs.take(0) =~= Seq::<int>::empty());
    }
}

proof fn lemma_follows_step(r: Seq<Hop>, trail: Seq<int>, current: int, i: int, source: int, sink: int)
    requires
        follows(r, trail, current, source, sink),
        current != sink,
        first_hop(r, current, i),
    ensures
        follows(r, trail.push(current), r[i].1 as int, source, sink),
{
    assert forall|xs: Seq<int>| #[trigger] hop_chain(r, xs, source, sink) implies trail.push(current).len() < xs.len()
        && xs[trail.push(current).len() as int] == r[i].1 as int && xs.take(trail.push(current).len() as int)
        == trail.push(current) by {
        let l = trail.len() as int;
        assert(xs[l] == current);
        assert(l < xs.len() - 1);
        assert(step_at(r, xs, l));
        let i2 = choose|i2: int| first_hop(r, xs[l], i2) && r[i2].1 == xs[l + 1];
        lemma_first_hop_unique(r, current, i, i2);
        assert(xs.take(l) == trail);
        assert(xs.take(l + 1) =~= xs.take(l).push(xs[l]));
    }
}

proof fn lemma_follows_stuck(r: Seq<Hop>, trail: Seq<int>, current: int, source: int, sink: int)
    requires
        follows(r, trail, current, source, sink),
        current != sink,
        trail.contains(current) || !has_hop(r, current),
    ensures
        !walk_reaches(r, source, sink),
{
    if walk_reaches(r, source, sink) {
        let xs = choose|xs: Seq<int>| #[trigger] hop_chain(r, xs, source, sink);
        let l = trail.len() as int;
        assert(xs[l] == current);
        assert(l < xs.len() - 1);
        assert(step_at(r, xs, l));
        let i2 = choose|i2: int| first_hop(r, xs[l], i2) && r[i2].1 == xs[l + 1];
        assert(r[i2].0 == current);
        let t = choose|t: int| 0 <= t < trail.len() && trail[t] == current;
        assert(xs.take(l) == trail);
        assert(xs[t] == trail[t]);
        assert(false);
    }
}

proof fn lemma_left_id(s: Seq<Hop>, ps: Seq<Seq<Leg>>, ids: Seq<Seq<usize>>)
    requires
        ps.len() == 0,
        forall|i: int| 0 <= i < s.len() ==> (#[trigger] s[i]).2 > 0,
    ensures
        left(s, ps, ids) == s,
    decreases s.len(),
{
    if s.len() > 0 {
        lemma_left_id(s.drop_last(), ps, ids);
        assert(s.last() == s[s.len() - 1]);
        assert(left(s, ps, ids) =~= s.drop_last().push(s.last()));
        assert(s.drop_last().push(s.last()) =~= s);
    }
}

/// Taking a path found by the walk off what is left.
#[verifier::rlimit(30)]
proof fn lemma_extract(
    fwd: Seq<Edge>,
    r0: Seq<Hop>,
    ps: Seq<Seq<Leg>>,
    ids: Seq<Seq<usize>>,
    r: Seq<Hop>,
    trail: Seq<int>,
    hs: Seq<int>,
    path: Seq<Leg>,
    p: Seq<Leg>,
    id: Seq<usize>,
    source: int,
    sink: int,
    n: int,
    m: int,
)
    requires
        fwd.len() <= usize::MAX,
        r0 == remaining(fwd),
        forall|i: int| 0 <= i < r0.len() ==> (#[trigger] r0[i]).0 < n && r0[i].1 < n,
        positive_paths(ps),
        ids.len() == ps.len(),
        r == left(r0, ps, ids),
        forall|i: int| 0 <= i < r0.len() ==> used(ps, ids, r0[i].3) <= #[trigger] r0[i].2,
        trail.no_duplicates(),
        forall|t: int| 0 <= t < trail.len() ==> 0 <= #[trigger] trail[t] < n && trail[t] != sink,
        trail.len() >= 1,
        trail[0] == source,
        path.len() == trail.len(),
        hs.len() == trail.len(),
        id.len() == trail.len(),
        forall|t: int|
            #![trigger hs[t]]
            0 <= t < trail.len() ==> {
                &&& first_hop(r, trail[t], hs[t])
                &&& path[t].0 == r[hs[t]].0
                &&& path[t].1 == r[hs[t]].1
                &&& path[t].2 == r[hs[t]].2
                &&& id[t] == r[hs[t]].3
                &&& r[hs[t]].3 < fwd.len()
                &&& path[t].3 == fwd[r[hs[t]].3 as int].cost
                &&& path[t].1 == if t + 1 < trail.len() {
                    trail[t + 1]
                } else {
                    sink
                }
            },
        0 < m,
        exists|t: int| 0 <= t < trail.len() && path[t].2 == m,
        forall|t: int| 0 <= t < trail.len() ==> m <= (#[trigger] path[t]).2,
        p.len() == path.len(),
        forall|q: int| 0 <= q < p.len() ==> #[trigger] p[q] == (path[q].0, path[q].1, m as i64, path[q].3),
    ensures
        source != sink,
        positive_paths(ps.push(p)),
        leg_path(p, id, fwd, source, sink),
        forall|i: int| 0 <= i < r0.len() ==> used(ps.push(p), ids.push(id), r0[i].3) <= #[trigger] r0[i].2,
        less_path(r, id, m) == left(r0, ps.push(p), ids.push(id)),
        less_path(r, id, m).len() < r.len(),
        saturates(fwd, ps.push(p), ids.push(id), ps.len() as int),
        forall|j: int|
            0 <= j < left(r0, ps.push(p), ids.push(id)).len() ==> {
                let h = #[trigger] left(r0, ps.push(p), ids.push(id))[j];
                h.0 < n && h.1 < n && h.2 > 0 && h.3 < fwd.len()
            },
{
    let ps2 = ps.push(p);
    let ids2 = ids.push(id);
    lemma_remaining(fwd);
    lemma_left_entry(r0, ps, ids);
    assert(p[0] == (path[0].0, path[0].1, m as i64, path[0].3));
    assert(positive_paths(ps2)) by {
        assert forall|j: int| 0 <= j < ps2.len() implies (#[trigger] ps2[j]).len() >= 1 && ps2[j][0].2 > 0 by {
            if j < ps.len() {
                assert(ps2[j] == ps[j]);
            }
        }
    }
    lemma_less_left(r0, ps, ids, p, id, m);
    // each leg's arc has an entry in the flow to split
    assert forall|t: int| 0 <= t < trail.len() implies exists|i1: int|
        0 <= i1 < r0.len() && r0[i1].0 == #[trigger] path[t].0 && r0[i1].1 == path[t].1 && r0[i1].3 == id[t]
            && path[t].2 == r0[i1].2 - used(ps, ids, r0[i1].3) by {
        assert(first_hop(r, trail[t], hs[t]));
        let h = hs[t];
        assert(exists|i: int|
            0 <= i < r0.len() && r0[i].0 == (#[trigger] left(r0, ps, ids)[h]).0 && r0[i].1 == left(r0, ps, ids)[h].1
                && r0[i].3 == left(r0, ps, ids)[h].3 && left(r0, ps, ids)[h].2 == r0[i].2 - used(ps, ids, r0[i].3)
                && left(r0, ps, ids)[h].2 > 0);
    }
    // the path
    assert(p.last().1 == sink) by {
        let l = p.len() - 1;
        assert(p.last() == p[l]);
        assert(p[l] == (path[l].0, path[l].1, m as i64, path[l].3));
        assert(first_hop(r, trail[l], hs[l]));
        assert(path[l].1 == sink);
    }
    assert forall|i: int| 0 <= i < p.len() - 1 implies #[trigger] links(p, i) by {
        assert(p[i] == (path[i].0, path[i].1, m as i64, path[i].3));
        assert(p[i + 1] == (path[i + 1].0, path[i + 1].1, m as i64, path[i + 1].3));
        assert(first_hop(r, trail[i], hs[i]));
        assert(first_hop(r, trail[i + 1], hs[i + 1]));
        assert(path[i].1 == trail[i + 1]);
        assert(path[i + 1].0 == trail[i + 1]);
    }
    assert forall|i: int, j: int| 0 <= i < j < p.len() implies #[trigger] p[i].0 != #[trigger] p[j].0 by {
        assert(p[i] == (path[i].0, path[i].1, m as i64, path[i].3));
        assert(p[j] == (path[j].0, path[j].1, m as i64, path[j].3));
        assert(first_hop(r, trail[i], hs[i]));
        assert(first_hop(r, trail[j], hs[j]));
        assert(trail[i] != trail[j]);
    }
    assert forall|i: int| 0 <= i < p.len() implies {
        &&& (#[trigger] p[i]).2 == p[0].2
        &&& p[i].0 != sink
        &&& id[i] < fwd.len()
        &&& fwd[id[i] as int].from == p[i].0
        &&& fwd[id[i] as int].to == p[i].1
        &&& fwd[id[i] as int].cost == p[i].3
        &&& fwd[id[i] as int].flow > 0
    } by {
        assert(p[i] == (path[i].0, path[i].1, m as i64, path[i].3));
        assert(first_hop(r, trail[i], hs[i]));
        assert(path[i].0 == path[i].0);
        let i1 = choose|i1: int|
            0 <= i1 < r0.len() && r0[i1].0 == #[trigger] path[i].0 && r0[i1].1 == path[i].1 && r0[i1].3 == id[i]
                && path[i].2 == r0[i1].2 - used(ps, ids, r0[i1].3);
        assert(r0[i1] == remaining(fwd)[i1]);
    }
    assert(p[0].0 == source) by {
        assert(first_hop(r, trail[0], hs[0]));
        assert(path[0].0 == trail[0]);
    }
    assert(source != sink) by {
        assert(first_hop(r, trail[0], hs[0]));
    }
    // what the paths route stays within each entry
    assert forall|i: int| 0 <= i < r0.len() implies used(ps2, ids2, r0[i].3) <= #[trigger] r0[i].2 by {
        lemma_used_push(ps, ids, p, id, r0[i].3);
        if id.contains(r0[i].3) {
            let q = choose|q: int| 0 <= q < id.len() && id[q] == r0[i].3;
            assert(path[q].0 == path[q].0);
            let i1 = choose|i1: int|
                0 <= i1 < r0.len() && r0[i1].0 == #[trigger] path[q].0 && r0[i1].1 == path[q].1 && r0[i1].3 == id[q]
                    && path[q].2 == r0[i1].2 - used(ps, ids, r0[i1].3);
            if i1 < i {
                assert(r0[i1].3 < r0[i].3);
            } else if i < i1 {
                assert(r0[i].3 < r0[i1].3);
            }
            assert(m <= path[q].2);
        }
    }
    // the bottleneck entry empties
    let tb = choose|t: int| 0 <= t < trail.len() && path[t].2 == m;
    assert(first_hop(r, trail[tb], hs[tb]));
    assert(p[tb] == (path[tb].0, path[tb].1, m as i64, path[tb].3));
    assert(id[tb] == r[hs[tb]].3);
    assert(id.contains(r[hs[tb]].3));
    lemma_less_shrinks(r, id, m, hs[tb]);
    assert(saturates(fwd, ps2, ids2, ps.len() as int)) by {
        assert(ps2.take(ps.len() as int + 1) =~= ps2);
        assert(ids2.take(ps.len() as int + 1) =~= ids2);
        assert(ps2[ps.len() as int] == p);
        assert(ids2[ps.len() as int] == id);
        assert(path[tb].0 == path[tb].0);
        let i1 = choose|i1: int|
            0 <= i1 < r0.len() && r0[i1].0 == #[trigger] path[tb].0 && r0[i1].1 == path[tb].1 && r0[i1].3 == id[tb]
                && path[tb].2 == r0[i1].2 - used(ps, ids, r0[i1].3);
        let k = id[tb];
        assert(r0[i1] == remaining(fwd)[i1]);
        lemma_used_push(ps, ids, p, id, k);
        assert(used(ps2.take(ps.len() as int + 1), ids2.take(ps.len() as int + 1), ids2[ps.len() as int][tb])
            == fwd[ids2[ps.len() as int][tb] as int].flow);
    }
    // entries of what is left
    lemma_left_entry(r0, ps2, ids2);
    assert forall|j: int| 0 <= j < left(r0, ps2, ids2).len() implies {
        let h = #[trigger] left(r0, ps2, ids2)[j];
        h.0 < n && h.1 < n && h.2 > 0 && h.3 < fwd.len()
    } by {
        let i = choose|i: int|
            0 <= i < r0.len() && r0[i].0 == (#[trigger] left(r0, ps2, ids2)[j]).0 && r0[i].1 == left(r0, ps2, ids2)[j].1
                && r0[i].3 == left(r0, ps2, ids2)[j].3 && left(r0, ps2, ids2)[j].2 == r0[i].2 - used(ps2, ids2, r0[i].3)
                && left(r0, ps2, ids2)[j].2 > 0;
        assert(r0[i].0 < n);
        assert(r0[i] == remaining(fwd)[i]);
    }
}

/// Split the flow on the arcs `fwd` into paths from `source` to `sink`.
pub(crate) fn flow_paths(fwd: &Vec<Edge>, n: usize, source: usize, sink: usize) -> (res: Vec<Vec<Leg>>)
    requires
        forall|k: int| 0 <= k < fwd@.len() ==> (#[trigger] fwd@[k]).from < n && fwd@[k].to < n,
    ensures
        decomposes(fwd@, source as int, sink as int, paths_of(res@)),
{
    let nf = fwd.len();
    let mut paths: Vec<Vec<Leg>> = Vec::new();
    let mut remaining_flow = build_remaining(fwd);
    let ghost r0 = remaining_flow@;
    let ghost mut ids: Seq<Seq<usize>> = Seq::empty();
    proof {
        lemma_remaining(fwd@);
        assert(left(r0, paths_of(paths@), ids) =~= r0) by {
            lemma_left_id(r0, paths_of(paths@), ids);
        }
        assert forall|i: int| 0 <= i < r0.len() implies (#[trigger] r0[i]).0 < n && r0[i].1 < n by {
            assert(r0[i] == remaining(fwd@)[i]);
        }
    }
    loop
        invariant
            nf == fwd@.len(),
            r0 == remaining(fwd@),
            forall|i: int| 0 <= i < r0.len() ==> (#[trigger] r0[i]).0 < n && r0[i].1 < n,
            forall|k: int| 0 <= k < fwd@.len() ==> (#[trigger] fwd@[k]).from < n && fwd@[k].to < n,
            positive_paths(paths_of(paths@)),
            ids.len() == paths@.len(),
            remaining_flow@ == left(r0, paths_of(paths@), ids),
            forall|j: int|
                0 <= j < remaining_flow@.len() ==> {
                    let h = #[trigger] remaining_flow@[j];
                    h.0 < n && h.1 < n && h.2 > 0 && h.3 < fwd@.len()
                },
            forall|j: int| 0 <= j < paths@.len() ==> leg_path(#[trigger] paths_of(paths@)[j], ids[j], fwd@, source as int, sink as int),
            forall|j: int| 0 <= j < paths@.len() ==> #[trigger] saturates(fwd@, paths_of(paths@), ids, j),
            forall|i: int| 0 <= i < r0.len() ==> used(paths_of(paths@), ids, r0[i].3) <= #[trigger] r0[i].2,
            source == sink ==> paths@.len() == 0,
        ensures
            source == sink || !walk_reaches(remaining_flow@, source as int, sink as int),
        decreases remaining_flow@.len(),
    {
        let ghost r = remaining_flow@;
        let ghost ps = paths_of(paths@);
        match first_from(&remaining_flow, source) {
            None => {
                proof {
                    if source != sink && walk_reaches(r, source as int, sink as int) {
                        let xs = choose|xs: Seq<int>| #[trigger] hop_chain(r, xs, source as int, sink as int);
                        assert(hop_chain(r, xs, source as int, sink as int));
                        assert(xs.len() >= 2);
                        assert(step_at(r, xs, 0));
                        let i = choose|i: int| first_hop(r, xs[0], i) && r[i].1 == xs[1];
                        assert(r[i].0 == source);
                    }
                }
                break ;
            },
            Some(i0) => {},
        }
        let mut path: Vec<Leg> = Vec::new();
        let mut arcs: Vec<usize> = Vec::new();
        let mut current = source;
        let mut min_flow: i64 = i64::MAX;
        let mut visited: Vec<bool> = filled(n, false);
        let ghost mut trail: Seq<int> = Seq::empty();
        let ghost mut hs: Seq<int> = Seq::empty();
        proof {
            lemma_follows_start(r, source as int, sink as int);
        }
        // Build path from source to sink
        while current != sink
            invariant
                r == remaining_flow@,
                forall|j: int|
                    0 <= j < r.len() ==> {
                        let h = #[trigger] r[j];
                        h.0 < n && h.1 < n && h.2 > 0 && h.3 < fwd@.len()
                    },
                current < n,
                visited@.len() == n,
                trail.no_duplicates(),
                forall|t: int| 0 <= t < trail.len() ==> 0 <= #[trigger] trail[t] < n && trail[t] != sink,
                forall|x: int| 0 <= x < n ==> (#[trigger] visited@[x] <==> trail.contains(x)),
                trail.len() <= n,
                path@.len() == trail.len(),
                arcs@.len() == trail.len(),
                hs.len() == trail.len(),
                trail.len() == 0 ==> current == source,
                trail.len() > 0 ==> trail[0] == source,
                forall|t: int|
                    #![trigger hs[t]]
                    0 <= t < trail.len() ==> {
                        &&& first_hop(r, trail[t], hs[t])
                        &&& path@[t].0 == r[hs[t]].0
                        &&& path@[t].1 == r[hs[t]].1
                        &&& path@[t].2 == r[hs[t]].2
                        &&& arcs@[t] == r[hs[t]].3
                        &&& r[hs[t]].3 < fwd@.len()
                        &&& path@[t].3 == fwd@[r[hs[t]].3 as int].cost
                        &&& path@[t].1 == if t + 1 < trail.len() {
                            trail[t + 1]
                        } else {
                            current as int
                        }
                    },
                trail.len() == 0 ==> min_flow == i64::MAX,
                trail.len() > 0 ==> 0 < min_flow && exists|t: int| 0 <= t < trail.len() && path@[t].2 == min_flow,
                forall|t: int| 0 <= t < trail.len() ==> min_flow <= (#[trigger] path@[t]).2,
                follows(r, trail, current as int, source as int, sink as int),
            ensures
                current == sink || visited@[current as int] || !has_hop(r, current as int),
            decreases n - trail.len(),
        {
            if visited[current] {
                break ;  // Cycle detected, break out
            }
            match first_from(&remaining_flow, current) {
                Some(i) => {
                    visited.set(current, true);
                    let (from, to, flow, arc) = remaining_flow[i];
                    proof {
                        assert(r[i as int] == (from, to, flow, arc));
                        lemma_distinct_push(trail, current as int, n as int);
                        lemma_follows_step(r, trail, current as int, i as int, source as int, sink as int);
                    }
                    let ghost tw: int = if trail.len() > 0 {
                        choose|t: int| 0 <= t < trail.len() && path@[t].2 == min_flow
                    } else {
                        0
                    };
                    // The cost of the arc the leg runs on
                    let cost = fwd[arc].cost;
                    path.push((from, to, flow, cost));
                    arcs.push(arc);
                    let ghost old_min = min_flow;
                    if flow < min_flow {
                        min_flow = flow;
                    }
                    proof {
                        let t2 = trail.push(current as int);
                        assert forall|x: int| 0 <= x < n implies (#[trigger] visited@[x] <==> t2.contains(x)) by {
                            if t2.contains(x) && x != current {
                                let k = choose|k: int| 0 <= k < t2.len() && t2[k] == x;
                                assert(trail[k] == x);
                            }
                            if trail.contains(x) {
                                let k = choose|k: int| 0 <= k < trail.len() && trail[k] == x;
                                assert(t2[k] == x);
                            }
                            if x == current {
                                assert(t2[trail.len() as int] == x);
                            }
                        }
                        if flow < old_min {
                            assert(path@[trail.len() as int].2 == min_flow);
                        } else {
                            assert(path@[tw].2 == min_flow);
                        }
                        trail = t2;
                        hs = hs.push(i as int);
                    }
                    current = to;
                },
                None => {
                    break ;
                },
            }
        }
        if current == sink && path.len() > 0 {
            // Store the path with the actual flow value
            let mut path_with_flow: Vec<Leg> = Vec::new();
            let mut t: usize = 0;
            while t < path.len()
                invariant
                    t <= path@.len(),
                    path_with_flow@.len() == t,
                    forall|q: int|
                        0 <= q < t ==> #[trigger] path_with_flow@[q] == (path@[q].0, path@[q].1, min_flow, path@[q].3),
                decreases path@.len() - t,
            {
                let (a, b, _, c) = path[t];
                path_with_flow.push((a, b, min_flow, c));
                t += 1;
            }
            proof {
                lemma_extract(
                    fwd@,
                    r0,
                    ps,
                    ids,
                    r,
                    trail,
                    hs,
                    path@,
                    path_with_flow@,
                    arcs@,
                    source as int,
                    sink as int,
                    n as int,
                    min_flow as int,
                );
            }
            // Subtract the minimum flow from all arcs in the path
            remaining_flow = take_path(&remaining_flow, &arcs, min_flow);
            paths.push(path_with_flow);
            proof {
                assert(paths_of(paths@) =~= ps.push(path_with_flow@));
                let ps2 = ps.push(path_with_flow@);
                let ids2 = ids.push(arcs@);
                assert forall|j: int| 0 <= j < paths@.len() implies #[trigger] saturates(fwd@, paths_of(paths@), ids2, j) by {
                    if j < ps.len() {
                        assert(saturates(fwd@, ps, ids, j));
                        assert(ps2.take(j + 1) =~= ps.take(j + 1));
                        assert(ids2.take(j + 1) =~= ids.take(j + 1));
                        assert(ps2[j] == ps[j]);
                        assert(ids2[j] == ids[j]);
                    }
                }
                assert forall|j: int| 0 <= j < paths@.len() implies leg_path(
                    #[trigger] paths_of(paths@)[j],
                    ids2[j],
                    fwd@,
                    source as int,
                    sink as int,
                ) by {
                    if j < ps.len() {
                        assert(ps2[j] == ps[j]);
                        assert(ids2[j] == ids[j]);
                    }
                }
                ids = ids2;
            }
        } else {
            proof {
                if current != sink {
                    lemma_follows_stuck(r, trail, current as int, source as int, sink as int);
                }
            }
            break ;  // Can't form a complete path
        }
    }
    assert(split_by(fwd@, source as int, sink as int, paths_of(paths@), ids));
    paths
}

} // verus!
