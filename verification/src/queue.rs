//! The priority queue of the shortest-path search: entries leave it smallest
//! distance first.
use vstd::prelude::*;

verus! {

/// Queue element for Dijkstra.
#[derive(Clone, Copy)]
pub(crate) struct Q {
    /// Target vertex.
    pub(crate) u: usize,
    /// Current flow to u.
    pub(crate) c: i64,
    /// Total (reduced) cost.
    pub(crate) w: i128,
}

/// A min-queue on `w`; among entries of equal `w` it leaves any one first.
pub(crate) struct MinQueue {
    pub(crate) items: Vec<Q>,
}

impl MinQueue {
    pub(crate) fn new() -> (q: Self)
        ensures
            q.items@.len() == 0,
    {
        MinQueue { items: Vec::new() }
    }

    pub(crate) fn clear(&mut self)
        ensures
            final(self).items@.len() == 0,
    {
        self.items.clear();
    }

    pub(crate) fn push(&mut self, e: Q)
        ensures
            final(self).items@ == old(self).items@.push(e),
    {
        self.items.push(e);
    }

    /// Removes and returns an entry of smallest `w`, or `None` when empty.
    pub(crate) fn pop(&mut self) -> (r: Option<Q>)
        ensures
            old(self).items@.len() == 0 ==> r is None && final(self).items@ == old(self).items@,
            old(self).items@.len() > 0 ==> (r matches Some(e) && exists|k: int|
                0 <= k < old(self).items@.len() && old(self).items@[k] == e && final(self).items@
                    == old(self).items@.remove(k) && forall|j: int|
                    0 <= j < old(self).items@.len() ==> e.w <= #[trigger] old(self).items@[j].w),
    {
        let len = self.items.len();
        if len == 0 {
            return None;
        }
        let mut best: usize = 0;
        let mut k: usize = 1;
        while k < len
            invariant
                len == self.items@.len(),
                1 <= k <= len,
                best < k,
                forall|j: int| 0 <= j < k ==> self.items@[best as int].w <= #[trigger] self.items@[j].w,
            decreases len - k,
        {
            if self.items[k].w < self.items[best].w {
                best = k;
            }
            k += 1;
        }
        let e = self.items.remove(best);
        Some(e)
    }
}

} // verus!
