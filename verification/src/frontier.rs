//! The frontier: a min-priority queue of `(cost, node)` entries.
//!
//! The searches push duplicate entries for a node instead of decreasing a
//! key, and discard stale entries lazily after popping, so the queue only
//! has to return a minimal entry. Ties on cost are broken by the smaller
//! node id, which keeps pop order deterministic. The store is a plain
//! vector scanned on pop; the contracts speak only of the entry sequence,
//! so the search proofs do not depend on the layout.

use vstd::prelude::*;

verus! {

/// `a` is no later than `b` in the pop order: cheaper first, node id as
/// the tie-break.
pub open spec fn entry_le(a: (u32, usize), b: (u32, usize)) -> bool {
    a.0 < b.0 || (a.0 == b.0 && a.1 <= b.1)
}

/// A queue of `(cost, node)` entries, viewed as the sequence of entries
/// it holds, in insertion order.
pub struct Frontier {
    entries: Vec<(u32, usize)>,
}

impl View for Frontier {
    type V = Seq<(u32, usize)>;

    closed spec fn view(&self) -> Seq<(u32, usize)> {
        self.entries@
    }
}

impl Frontier {
    /// The empty frontier.
    pub fn new() -> (r: Frontier)
        ensures
            r@ == Seq::<(u32, usize)>::empty(),
    {
        Frontier { entries: Vec::new() }
    }

    /// Whether no entry is pending.
    pub fn is_empty(&self) -> (r: bool)
        ensures
            r == (self@.len() == 0),
    {
        self.entries.len() == 0
    }

    /// Adds one entry; earlier entries are untouched.
    pub fn push(&mut self, cost: u32, node: usize)
        ensures
            final(self)@ == old(self)@.push((cost, node)),
    {
        self.entries.push((cost, node));
    }

    /// Removes and returns an entry that is minimal in the pop order,
    /// or `None` when the queue is empty.
    pub fn pop_min(&mut self) -> (r: Option<(u32, usize)>)
        ensures
            match r {
                None => old(self)@.len() == 0 && final(self)@ == old(self)@,
                Some(e) => {
                    &&& exists|i: int|
                        0 <= i < old(self)@.len() && old(self)@[i] == e && final(self)@ == old(
                            self,
                        )@.remove(i)
                    &&& forall|j: int| 0 <= j < old(self)@.len() ==> entry_le(e, #[trigger] old(self)@[j])
                },
            },
    {
        if self.entries.len() == 0 {
            return None;
        }
        let mut best: usize = 0;
        let mut i: usize = 1;
        while i < self.entries.len()
            invariant
                self@.len() > 0,
                best < i,
                i <= self@.len(),
                forall|j: int| 0 <= j < i ==> entry_le(self@[best as int], #[trigger] self@[j]),
            decreases self@.len() - i,
        {
            let e = self.entries[i];
            let b = self.entries[best];
            if e.0 < b.0 || (e.0 == b.0 && e.1 < b.1) {
                best = i;
            }
            i = i + 1;
        }
        let e = self.entries.remove(best);
        Some(e)
    }
}

/// Pop order for hop-annotated entries: cheaper first, then the smaller
/// node id, then the smaller hop count.
pub open spec fn hop_entry_le(a: (u32, usize, usize), b: (u32, usize, usize)) -> bool {
    ||| a.0 < b.0
    ||| (a.0 == b.0 && a.1 < b.1)
    ||| (a.0 == b.0 && a.1 == b.1 && a.2 <= b.2)
}

/// A queue of `(cost, node, hops)` entries for the hop-bounded search,
/// viewed as the sequence of entries it holds.
pub struct HopFrontier {
    entries: Vec<(u32, usize, usize)>,
}

impl View for HopFrontier {
    type V = Seq<(u32, usize, usize)>;

    closed spec fn view(&self) -> Seq<(u32, usize, usize)> {
        self.entries@
    }
}

impl HopFrontier {
    /// The empty frontier.
    pub fn new() -> (r: HopFrontier)
        ensures
            r@ == Seq::<(u32, usize, usize)>::empty(),
    {
        HopFrontier { entries: Vec::new() }
    }

    /// Whether no entry is pending.
    pub fn is_empty(&self) -> (r: bool)
        ensures
            r == (self@.len() == 0),
    {
        self.entries.len() == 0
    }

    /// Adds one entry; earlier entries are untouched.
    pub fn push(&mut self, cost: u32, node: usize, hops: usize)
        ensures
            final(self)@ == old(self)@.push((cost, node, hops)),
    {
        self.entries.push((cost, node, hops));
    }

    /// Removes and returns an entry that is minimal in the pop order,
    /// or `None` when the queue is empty.
    pub fn pop_min(&mut self) -> (r: Option<(u32, usize, usize)>)
        ensures
            match r {
                None => old(self)@.len() == 0 && final(self)@ == old(self)@,
                Some(e) => {
                    &&& exists|i: int|
                        0 <= i < old(self)@.len() && old(self)@[i] == e && final(self)@ == old(
                            self,
                        )@.remove(i)
                    &&& forall|j: int|
                        0 <= j < old(self)@.len() ==> hop_entry_le(e, #[trigger] old(self)@[j])
                },
            },
    {
        if self.entries.len() == 0 {
            return None;
        }
        let mut best: usize = 0;
        let mut i: usize = 1;
        while i < self.entries.len()
            invariant
                self@.len() > 0,
                best < i,
                i <= self@.len(),
                forall|j: int| 0 <= j < i ==> hop_entry_le(self@[best as int], #[trigger] self@[j]),
            decreases self@.len() - i,
        {
            let e = self.entries[i];
            let b = self.entries[best];
            if e.0 < b.0 || (e.0 == b.0 && e.1 < b.1) || (e.0 == b.0 && e.1 == b.1 && e.2 < b.2) {
                best = i;
            }
            i = i + 1;
        }
        let e = self.entries.remove(best);
        Some(e)
    }
}

} // verus!
