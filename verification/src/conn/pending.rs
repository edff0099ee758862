//! The set of sequence numbers waiting to be acknowledged, kept in
//! ascending order so that it can be written as runs.

use crate::protocol::ack::ascending;
use vstd::prelude::*;

verus! {

/// A set of sequence numbers, listed in ascending order.
#[derive(Debug, Clone, PartialEq, Eq)]
pub struct PendingSet {
    items: Vec<u32>,
}

impl View for PendingSet {
    type V = Seq<u32>;

    /// The numbers of the set, in ascending order.
    closed spec fn view(&self) -> Seq<u32> {
        self.items@
    }
}

impl PendingSet {
    /// The numbers are listed in strictly ascending order, so each once.
    pub open spec fn wf(&self) -> bool {
        ascending(self@)
    }

    /// The numbers as a set.
    pub open spec fn set(&self) -> Set<u32> {
        self@.to_set()
    }

    /// The empty set.
    pub fn new() -> (pending: PendingSet)
        ensures
            pending.wf(),
            pending@ == Seq::<u32>::empty(),
    {
        PendingSet { items: Vec::new() }
    }

    /// How many numbers the set holds.
    pub fn len(&self) -> (n: usize)
        ensures
            n == self@.len(),
    {
        self.items.len()
    }

    /// The place of `x` in the list: the number of items below it.
    fn rank(&self, x: u32) -> (at: usize)
        requires
            self.wf(),
        ensures
            at <= self@.len(),
            forall|i: int| 0 <= i < at ==> self@[i] < x,
            forall|i: int| at <= i < self@.len() ==> self@[i] >= x,
    {
        let mut lo: usize = 0;
        let mut hi: usize = self.items.len();
        while lo < hi
            invariant
                self.wf(),
                lo <= hi <= self@.len(),
                forall|i: int| 0 <= i < lo ==> self@[i] < x,
                forall|i: int| hi <= i < self@.len() ==> self@[i] >= x,
            decreases hi - lo,
        {
            let mid = lo + (hi - lo) / 2;
            if self.items[mid] < x {
                lo = mid + 1;
            } else {
                hi = mid;
            }
        }
        lo
    }

    /// Whether `x` is in the set.
    pub fn contains(&self, x: u32) -> (yes: bool)
        requires
            self.wf(),
        ensures
            yes == self.set().contains(x),
    {
        let at = self.rank(x);
        let yes = at < self.items.len() && self.items[at] == x;
        proof {
            if yes {
                assert(self@[at as int] == x);
            } else if self@.contains(x) {
                let k = choose|k: int| 0 <= k < self@.len() && self@[k] == x;
                assert(k == at);
            }
        }
        yes
    }

    /// Adds `x` to the set.
    pub fn insert(&mut self, x: u32)
        requires
            old(self).wf(),
        ensures
            final(self).wf(),
            final(self).set() == old(self).set().insert(x),
    {
        let at = self.rank(x);
        if at < self.items.len() && self.items[at] == x {
            assert(self@[at as int] == x);
            assert(self.set() =~= old(self).set().insert(x));
            return ;
        }
        self.items.insert(at, x);
        proof {
            let before = old(self)@;
            let after = self@;
            assert(after == before.insert(at as int, x));
            assert forall|y: u32| after.to_set().contains(y) <==> before.to_set().insert(
                x,
            ).contains(y) by {
                if after.contains(y) {
                    let k = choose|k: int| 0 <= k < after.len() && after[k] == y;
                    if k < at {
                        assert(before[k] == y);
                    } else if k > at {
                        assert(before[k - 1] == y);
                    }
                }
                if before.contains(y) {
                    let k = choose|k: int| 0 <= k < before.len() && before[k] == y;
                    if k < at {
                        assert(after[k] == y);
                    } else {
                        assert(after[k + 1] == y);
                    }
                }
                if y == x {
                    assert(after[at as int] == y);
                }
            }
            assert(self.set() =~= old(self).set().insert(x));
        }
    }

    /// Takes `x` out of the set.
    pub fn remove(&mut self, x: u32)
        requires
            old(self).wf(),
        ensures
            final(self).wf(),
            final(self).set() == old(self).set().remove(x),
    {
        let at = self.rank(x);
        if at < self.items.len() && self.items[at] == x {
            let _ = self.items.remove(at);
            proof {
                let before = old(self)@;
                let after = self@;
                assert(after == before.remove(at as int));
                assert forall|y: u32| after.to_set().contains(y) <==> before.to_set().remove(
                    x,
                ).contains(y) by {
                    if after.contains(y) {
                        let k = choose|k: int| 0 <= k < after.len() && after[k] == y;
                        if k < at {
                            assert(before[k] == y);
                        } else {
                            assert(before[k + 1] == y);
                        }
                    }
                    if before.contains(y) && y != x {
                        let k = choose|k: int| 0 <= k < before.len() && before[k] == y;
                        if k < at {
                            assert(after[k] == y);
                        } else {
                            assert(after[k - 1] == y);
                        }
                    }
                }
                assert(self.set() =~= old(self).set().remove(x));
            }
        } else {
            proof {
                if self@.contains(x) {
                    let k = choose|k: int| 0 <= k < self@.len() && self@[k] == x;
                    assert(k == at);
                }
                assert(self.set() =~= old(self).set().remove(x));
            }
        }
    }

    /// Hands the numbers out in ascending order and leaves the set empty.
    pub fn take(&mut self) -> (out: Vec<u32>)
        ensures
            out@ == old(self)@,
            final(self)@ == Seq::<u32>::empty(),
    {
        let mut out: Vec<u32> = Vec::new();
        std::mem::swap(&mut out, &mut self.items);
        out
    }
}

} // verus!
