//! The priority frontier: a min-ordered queue of (accumulated cost, node)
//! entries with a deterministic tie-break (ascending cost, then ascending
//! node id).  There is no in-place key decrease: superseded entries for
//! the same node may coexist and are discarded lazily by the search.

use vstd::prelude::*;

verus! {

/// Entry `a` comes no later than entry `b` in the pop order: lower cost
/// first, ties broken by smaller node id.
pub open spec fn entry_le(a: (usize, usize), b: (usize, usize)) -> bool {
    a.0 < b.0 || (a.0 == b.0 && a.1 <= b.1)
}

/// A frontier of pending (cost, node) entries.  The view is the sequence
/// of entries in insertion order; only the pop order is significant.
pub struct Frontier {
    entries: Vec<(usize, usize)>,
}

impl View for Frontier {
    type V = Seq<(usize, usize)>;

    closed spec fn view(&self) -> Seq<(usize, usize)> {
        self.entries@
    }
}

impl Frontier {
    /// An empty frontier.
    pub fn new() -> (r: Frontier)
        ensures
            r@ == Seq::<(usize, usize)>::empty(),
    {
        Frontier { entries: Vec::new() }
    }

    /// Whether no entry is pending.
    pub fn is_empty(&self) -> (r: bool)
        ensures
            r == (self@.len() == 0),
    {
        self.entries.len() == 0
    }

    /// Adds an entry; duplicates and superseded entries are allowed.
    pub fn push(&mut self, cost: usize, node: usize)
        ensures
            final(self)@ == old(self)@.push((cost, node)),
    {
        self.entries.push((cost, node));
    }

    /// The least pending cost, if any entry is pending: a lower bound on
    /// the cost of every entry, and the cost of one of them.
    pub fn min_cost(&self) -> (r: Option<usize>)
        ensures
            match r {
                Option::Some(c) => {
                    &&& self@.len() > 0
                    &&& forall|k: int| 0 <= k < self@.len() ==> (#[trigger] self@[k]).0 >= c
                    &&& exists|k: int| 0 <= k < self@.len() && (#[trigger] self@[k]).0 == c
                },
                Option::None => self@.len() == 0,
            },
    {
        if self.entries.len() == 0 {
            return Option::None;
        }
        let mut best: usize = self.entries[0].0;
        let mut k: usize = 1;
        while k < self.entries.len()
            invariant
                1 <= k <= self@.len(),
                forall|l: int| 0 <= l < k ==> (#[trigger] self@[l]).0 >= best,
                exists|l: int| 0 <= l < k && (#[trigger] self@[l]).0 == best,
            decreases self@.len() - k,
        {
            if self.entries[k].0 < best {
                best = self.entries[k].0;
            }
            k = k + 1;
        }
        Option::Some(best)
    }

    /// Removes and returns the least entry: ascending cost, ties by
    /// ascending node id.  Returns nothing on an empty frontier.
    pub fn pop_min(&mut self) -> (r: Option<(usize, usize)>)
        ensures
            match r {
                Option::Some(e) => {
                    &&& exists|k: int|
                        0 <= k < old(self)@.len() && old(self)@[k] == e && final(self)@ == old(
                            self,
                        )@.remove(k)
                    &&& forall|k: int|
                        0 <= k < old(self)@.len() ==> entry_le(e, #[trigger] old(self)@[k])
                },
                Option::None => old(self)@.len() == 0 && final(self)@ == old(self)@,
            },
    {
        if self.entries.len() == 0 {
            return Option::None;
        }
        let mut best_idx: usize = 0;
        let mut k: usize = 1;
        while k < self.entries.len()
            invariant
                1 <= k <= self@.len(),
                best_idx < k,
                forall|l: int| 0 <= l < k ==> entry_le(self@[best_idx as int], #[trigger] self@[l]),
            decreases self@.len() - k,
        {
            let cur = self.entries[k];
            let best = self.entries[best_idx];
            if cur.0 < best.0 || (cur.0 == best.0 && cur.1 < best.1) {
                best_idx = k;
            }
            k = k + 1;
        }
        let e = self.entries.remove(best_idx);
        Option::Some(e)
    }

    /// The number of pending entries, superseded ones included.
    pub fn len(&self) -> (r: usize)
        ensures
            r == self@.len(),
    {
        self.entries.len()
    }
}

} // verus!
