//! The bounded recovery queue of sent datagrams and the per-channel ordering
//! window.

pub use crate::conn::recv::RecvQueue;
pub use crate::conn::send::SendQueue;
use std::collections::BTreeMap;
use std::collections::VecDeque;
use vstd::prelude::*;
use vstd::std_specs::iter::IteratorSpec;

verus! {

broadcast use {vstd::laws_cmp::group_laws_cmp, vstd::std_specs::btree::group_btree_axioms};

/// Why an index could not be recovered.
#[derive(Debug, Clone, Copy, PartialEq, Eq, PartialOrd, Structural)]
pub enum RecoveryQueueError {
    /// The index has never been handed out: it lies in the future.
    Invalid,
    /// The index was handed out, but its record has since been evicted or
    /// removed.
    IndexOld,
    /// The record is already recoverable. No operation of the queue reports
    /// this at present.
    Duplicate,
}

/// Keeps the most recent records of `Item`, each under the index it was given
/// on insertion, up to a fixed capacity.
///
/// Indices are handed out in strictly ascending order starting at zero and
/// are never reused. When a record is inserted into a full queue the oldest
/// one is dropped silently.
#[derive(Debug, Clone)]
pub struct RecoveryQueue<Item> {
    recovery: VecDeque<(u32, Item)>,
    capacity: u32,
    index: u32,
}

impl<Item> View for RecoveryQueue<Item> {
    type V = Seq<(u32, Item)>;

    /// The live records with their indices, oldest first.
    closed spec fn view(&self) -> Seq<(u32, Item)> {
        self.recovery@
    }
}

impl<Item> RecoveryQueue<Item> {
    /// The largest number of records the queue keeps.
    pub closed spec fn spec_capacity(&self) -> u32 {
        self.capacity
    }

    /// The index the next insertion will be given.
    pub closed spec fn next_index(&self) -> u32 {
        self.index
    }

    /// The queue never holds more than its capacity, its records are in
    /// strictly ascending index order, and every index it holds has been
    /// handed out.
    pub open spec fn wf(&self) -> bool {
        &&& self@.len() <= self.spec_capacity()
        &&& forall|i: int, j: int| 0 <= i < j < self@.len() ==> self@[i].0 < self@[j].0
        &&& forall|i: int| 0 <= i < self@.len() ==> (#[trigger] self@[i]).0 < self.next_index()
    }

    /// Whether a record is live under `index`.
    pub open spec fn holds(&self, index: u32) -> bool {
        exists|k: int| 0 <= k < self@.len() && (#[trigger] self@[k]).0 == index
    }

    /// The records after one more is inserted: the new record goes to the
    /// back, and the oldest one leaves if the queue was full. A queue of
    /// capacity zero keeps nothing.
    pub open spec fn after_insert(&self, item: Item) -> Seq<(u32, Item)> {
        if self.spec_capacity() == 0 {
            self@
        } else if self@.len() == self.spec_capacity() {
            self@.skip(1).push((self.next_index(), item))
        } else {
            self@.push((self.next_index(), item))
        }
    }

    /// A record is live under the index it was inserted with; inserting
    /// never makes an index live that was handed out before; and an index
    /// that is not live stays so.
    pub proof fn lemma_indices_are_not_reused(&self, item: Item, index: u32)
        requires
            self.wf(),
            self.next_index() < u32::MAX,
        ensures
            self.spec_capacity() > 0 ==> self.after_insert(item).last() == (
                self.next_index(),
                item,
            ),
            index < self.next_index() && !self.holds(index) ==> !(exists|k: int|
                0 <= k < self.after_insert(item).len() && (#[trigger] self.after_insert(
                    item,
                )[k]).0 == index),
            self.after_insert(item).len() <= self.spec_capacity(),
    {
        let after = self.after_insert(item);
        if index < self.next_index() && !self.holds(index) {
            if exists|k: int| 0 <= k < after.len() && (#[trigger] after[k]).0 == index {
                let k = choose|k: int| 0 <= k < after.len() && (#[trigger] after[k]).0 == index;
                if self.spec_capacity() == 0 {
                    assert(self@[k].0 == index);
                } else if self@.len() == self.spec_capacity() {
                    if k < after.len() - 1 {
                        assert(self@[k + 1].0 == index);
                    }
                } else {
                    if k < after.len() - 1 {
                        assert(self@[k].0 == index);
                    }
                }
            }
        }
    }

    /// An empty queue that keeps up to 255 records.
    pub fn new() -> (queue: Self)
        ensures
            queue.wf(),
            queue@ == Seq::<(u32, Item)>::empty(),
            queue.spec_capacity() == 255,
            queue.next_index() == 0,
    {
        Self { recovery: VecDeque::with_capacity(255), capacity: 255, index: 0 }
    }

    /// An empty queue that keeps up to `capacity` records.
    pub fn with_capacity(capacity: u32) -> (queue: Self)
        ensures
            queue.wf(),
            queue@ == Seq::<(u32, Item)>::empty(),
            queue.spec_capacity() == capacity,
            queue.next_index() == 0,
    {
        Self { recovery: VecDeque::new(), capacity, index: 0 }
    }

    /// The number of live records.
    pub fn len(&self) -> (n: usize)
        ensures
            n == self@.len(),
    {
        self.recovery.len()
    }

    /// The largest number of records the queue keeps.
    pub fn capacity(&self) -> (capacity: u32)
        ensures
            capacity == self.spec_capacity(),
    {
        self.capacity
    }

    /// The index the next insertion will be given; every index below it has
    /// been handed out.
    pub fn next(&self) -> (index: u32)
        ensures
            index == self.next_index(),
    {
        self.index
    }

    /// The oldest live record and its index, if there is one.
    pub fn oldest(&self) -> (res: Option<(u32, &Item)>)
        ensures
            match res {
                Some((index, item)) => self@.len() > 0 && self@[0] == (index, *item),
                None => self@.len() == 0,
            },
    {
        if self.recovery.len() == 0 {
            None
        } else {
            Some((self.recovery[0].0, &self.recovery[0].1))
        }
    }

    /// Stores `item` under the next index and returns that index. If the
    /// queue is full, the oldest record is dropped to make room.
    pub fn insert(&mut self, item: Item) -> (idx: u32)
        requires
            old(self).wf(),
            old(self).next_index() < u32::MAX,
        ensures
            final(self).wf(),
            idx == old(self).next_index(),
            final(self).next_index() == idx + 1,
            final(self).spec_capacity() == old(self).spec_capacity(),
            final(self)@ == old(self).after_insert(item),
    {
        self.validate_capacity();
        let idx = self.index;
        if self.capacity > 0 {
            self.recovery.push_back((idx, item));
        }
        self.index += 1;
        idx
    }

    /// Makes room for one more record: drops the oldest if the queue is full.
    fn validate_capacity(&mut self)
        requires
            old(self).wf(),
        ensures
            final(self).wf(),
            final(self).next_index() == old(self).next_index(),
            final(self).spec_capacity() == old(self).spec_capacity(),
            final(self)@ == if old(self)@.len() == old(self).spec_capacity() && old(
                self,
            ).spec_capacity() > 0 {
                old(self)@.skip(1)
            } else {
                old(self)@
            },
    {
        if self.recovery.len() == self.capacity as usize {
            let _ = self.recovery.pop_front();
        }
    }

    /// Where the record under `index` sits, if it is live.
    fn position(&self, index: u32) -> (pos: Option<usize>)
        requires
            self.wf(),
        ensures
            match pos {
                Some(k) => k < self@.len() && self@[k as int].0 == index,
                None => !self.holds(index),
            },
    {
        let mut lo: usize = 0;
        let mut hi: usize = self.recovery.len();
        while lo < hi
            invariant
                self.wf(),
                lo <= hi <= self@.len(),
                forall|k: int| 0 <= k < lo ==> (#[trigger] self@[k]).0 < index,
                forall|k: int| hi <= k < self@.len() ==> (#[trigger] self@[k]).0 > index,
            decreases hi - lo,
        {
            let mid: usize = lo + (hi - lo) / 2;
            let at: u32 = self.recovery[mid].0;
            if at == index {
                return Some(mid);
            } else if at < index {
                lo = mid + 1;
            } else {
                hi = mid;
            }
        }
        None
    }

    /// The record stored under `index`, which stays in the queue.
    ///
    /// Fails with `Invalid` if `index` has not been handed out yet, and with
    /// `IndexOld` if its record has been evicted or removed.
    pub fn recover(&self, index: u32) -> (res: Result<&Item, RecoveryQueueError>)
        requires
            self.wf(),
        ensures
            match res {
                Ok(item) => exists|k: int|
                    0 <= k < self@.len() && #[trigger] self@[k] == (index, *item),
                Err(RecoveryQueueError::Invalid) => index >= self.next_index(),
                Err(RecoveryQueueError::IndexOld) => index < self.next_index() && !self.holds(
                    index,
                ),
                Err(RecoveryQueueError::Duplicate) => false,
            },
    {
        if index >= self.index {
            return Err(RecoveryQueueError::Invalid);
        }
        match self.position(index) {
            Some(k) => Ok(&self.recovery[k].1),
            None => Err(RecoveryQueueError::IndexOld),
        }
    }

    /// Drops the record stored under `index` and hands it back, if it is
    /// live. Other records keep their indices and their order.
    pub fn remove(&mut self, index: u32) -> (res: Option<Item>)
        requires
            old(self).wf(),
        ensures
            final(self).wf(),
            final(self).next_index() == old(self).next_index(),
            final(self).spec_capacity() == old(self).spec_capacity(),
            match res {
                Some(item) => exists|k: int|
                    0 <= k < old(self)@.len() && #[trigger] old(self)@[k] == (index, item)
                        && final(self)@ == old(self)@.remove(k),
                None => !old(self).holds(index) && final(self)@ == old(self)@,
            },
    {
        match self.position(index) {
            Some(k) => {
                match self.recovery.remove(k) {
                    Some(entry) => Some(entry.1),
                    None => None,
                }
            },
            None => None,
        }
    }
}

/// Collects the packets of one channel by ordering index and releases them
/// in order.
///
/// The queue accepts indices in the window `[lo, hi)` and above: `lo` is the
/// next index to deliver and `hi` is one past the highest index seen so far.
#[derive(Debug)]
pub struct OrderedQueue<T> {
    /// The packets that have arrived and not yet been released.
    queue: BTreeMap<u32, T>,
    /// The window `(lo, hi)`. Packets below `lo` are too old to be accepted.
    scope: (u32, u32),
}

impl<T: Clone> Clone for OrderedQueue<T> {
    /// A queue with the same window that holds the same indices.
    fn clone(&self) -> (copy: Self)
        ensures
            copy.lo() == self.lo(),
            copy.hi() == self.hi(),
            copy.entries() == self.entries(),
    {
        OrderedQueue { queue: self.queue.clone(), scope: (self.scope.0, self.scope.1) }
    }
}

impl<T> OrderedQueue<T> {
    /// The packets held, by ordering index.
    pub closed spec fn entries(&self) -> Map<u32, T> {
        self.queue@
    }

    /// The next index to deliver.
    pub closed spec fn lo(&self) -> u32 {
        self.scope.0
    }

    /// One past the highest index seen.
    pub closed spec fn hi(&self) -> u32 {
        self.scope.1
    }

    /// Whether every index that `entries` holds is below `hi`.
    pub open spec fn all_below(entries: Map<u32, T>, hi: u32) -> bool {
        forall|id: u32| #[trigger] entries.contains_key(id) ==> id < hi
    }

    /// The window is not inverted and nothing is held at or above its end.
    pub open spec fn wf(&self) -> bool {
        &&& self.lo() <= self.hi()
        &&& Self::all_below(self.entries(), self.hi())
    }

    /// The indices at or above `from`.
    pub open spec fn at_or_above(from: u32) -> Set<u32> {
        Set::new(|id: u32| id >= from)
    }

    /// Whether `entries` holds something under every index of `[from, to)`.
    pub open spec fn holds_all(entries: Map<u32, T>, from: u32, to: u32) -> bool {
        forall|id: u32| from <= id < to ==> #[trigger] entries.contains_key(id)
    }

    /// What `entries` holds under the indices of `[from, to)`, in index order.
    pub open spec fn run(entries: Map<u32, T>, from: u32, to: u32) -> Seq<T> {
        Seq::new((to - from) as nat, |j: int| entries[(from + j) as u32])
    }

    /// Whether `missing` lists, in ascending order and each once, exactly the
    /// indices of `[lo, hi)` under which `entries` holds nothing.
    pub open spec fn lists_missing(
        entries: Map<u32, T>,
        lo: u32,
        hi: u32,
        missing: Seq<u32>,
    ) -> bool {
        &&& forall|i: int, j: int| 0 <= i < j < missing.len() ==> missing[i] < missing[j]
        &&& forall|i: int|
            0 <= i < missing.len() ==> lo <= #[trigger] missing[i] < hi && !entries.contains_key(
                missing[i],
            )
        &&& forall|id: u32|
            lo <= id < hi && !(#[trigger] entries.contains_key(id)) ==> missing.contains(id)
    }

    /// An empty queue whose window starts at index zero.
    pub fn new() -> (queue: Self)
        ensures
            queue.wf(),
            queue.entries() == Map::<u32, T>::empty(),
            queue.lo() == 0,
            queue.hi() == 0,
    {
        Self { queue: BTreeMap::new(), scope: (0, 0) }
    }

    /// Takes `packet` under the ordering index `id`, replacing what was held
    /// under that index. An index at or past the end of the window widens the
    /// window to end just after it.
    ///
    /// Returns `false`, and drops the packet, if `id` is below the window.
    pub fn insert(&mut self, packet: T, id: u32) -> (accepted: bool)
        requires
            old(self).wf(),
            id < u32::MAX,
        ensures
            final(self).wf(),
            accepted == (id >= old(self).lo()),
            final(self).lo() == old(self).lo(),
            accepted ==> final(self).entries() == old(self).entries().insert(id, packet),
            accepted ==> final(self).hi() == if id >= old(self).hi() {
                (id + 1) as u32
            } else {
                old(self).hi()
            },
            !accepted ==> final(self).entries() == old(self).entries(),
            !accepted ==> final(self).hi() == old(self).hi(),
    {
        if id < self.scope.0 {
            return false;
        }
        if id >= self.scope.1 {
            self.scope.1 = id + 1;
        }
        let _ = self.queue.insert(id, packet);
        assert(self.queue@ == old(self).queue@.insert(id, packet));
        assert(self.scope.0 <= self.scope.1);
        assert(self.lo() <= self.hi());
        assert(old(self).wf());
        assert(forall|x: u32| old(self).entries().contains_key(x) ==> x < old(self).hi());
        assert(old(self).entries() == old(self).queue@);
        assert(forall|x: u32| old(self).queue@.contains_key(x) ==> x < old(self).scope.1);
        assert(forall|x: u32| self.queue@.contains_key(x) ==> x == id || old(self).queue@.contains_key(x));
        assert(old(self).scope.1 <= self.scope.1);
        assert(id < self.scope.1);
        assert(forall|x: u32| self.queue@.contains_key(x) ==> x < self.scope.1);
        true
    }

    /// Releases the longest run of consecutive packets that starts at `lo`,
    /// in index order, and moves `lo` just past it. Packets that had fallen
    /// below the window are discarded; packets beyond the first gap stay.
    pub fn flush(&mut self) -> (out: Vec<T>)
        requires
            old(self).wf(),
        ensures
            final(self).wf(),
            final(self).hi() == old(self).hi(),
            old(self).lo() <= final(self).lo() <= old(self).hi(),
            Self::holds_all(old(self).entries(), old(self).lo(), final(self).lo()),
            !old(self).entries().contains_key(final(self).lo()),
            out@ == Self::run(old(self).entries(), old(self).lo(), final(self).lo()),
            final(self).entries() == old(self).entries().restrict(
                Self::at_or_above(final(self).lo()),
            ),
    {
        self.clear_out_of_scope();
        let ghost start = self.queue@;
        let ghost lo0 = self.scope.0;
        let mut out: Vec<T> = Vec::new();
        assert(out@ =~= Self::run(start, lo0, lo0));
        while self.scope.0 < self.scope.1
            invariant
                self.scope.1 == old(self).hi(),
                Self::all_below(start, self.scope.1),
                lo0 <= self.scope.0 <= self.scope.1,
                Self::holds_all(start, lo0, self.scope.0),
                out@ == Self::run(start, lo0, self.scope.0),
                self.queue@ == start.restrict(Self::at_or_above(self.scope.0)),
            ensures
                !start.contains_key(self.scope.0),
            decreases self.scope.1 - self.scope.0,
        {
            let ghost before = self.queue@;
            let ghost cur = self.scope.0;
            match self.queue.remove(&self.scope.0) {
                Some(packet) => {
                    assert(before.contains_key(cur) && before[cur] == packet);
                    assert(start.contains_key(cur) && start[cur] == packet);
                    out.push(packet);
                    self.scope.0 += 1;
                    assert(self.queue@ =~= start.restrict(Self::at_or_above(self.scope.0)));
                    assert(out@ =~= Self::run(start, lo0, self.scope.0));
                },
                None => {
                    assert(!before.contains_key(cur));
                    assert(Self::at_or_above(cur).contains(cur));
                    assert(self.queue@ =~= before);
                    break ;
                },
            }
        }
        proof {
            let first = old(self).entries();
            assert(start == first.restrict(Self::at_or_above(lo0)));
            assert(Self::at_or_above(lo0).contains(self.scope.0));
            assert forall|id: u32| lo0 <= id < self.scope.0 implies #[trigger] first.contains_key(
                id,
            ) by {
                assert(start.contains_key(id));
            }
            assert(out@ =~= Self::run(first, lo0, self.scope.0)) by {
                assert forall|j: int| 0 <= j < out@.len() implies out@[j] == first[(lo0
                    + j) as u32] by {
                    assert(start.contains_key((lo0 + j) as u32));
                }
            }
            assert(self.queue@ =~= first.restrict(Self::at_or_above(self.scope.0)));
        }
        out
    }

    /// Lists the indices of the window under which nothing is held, in
    /// ascending order, and moves `lo` up to the first of them. With nothing
    /// missing the window stays as it is.
    pub fn flush_missing(&mut self) -> (missing: Vec<u32>)
        requires
            old(self).wf(),
        ensures
            final(self).wf(),
            Self::lists_missing(old(self).entries(), old(self).lo(), old(self).hi(), missing@),
            final(self).entries() == old(self).entries(),
            final(self).hi() == old(self).hi(),
            final(self).lo() == if missing@.len() > 0 {
                missing@[0]
            } else {
                old(self).lo()
            },
    {
        let mut missing: Vec<u32> = Vec::new();
        let mut i: u32 = self.scope.0;
        while i < self.scope.1
            invariant
                self.wf(),
                *self == *old(self),
                self.scope.0 <= i <= self.scope.1,
                forall|a: int, b: int| 0 <= a < b < missing@.len() ==> missing@[a] < missing@[b],
                forall|a: int|
                    0 <= a < missing@.len() ==> self.scope.0 <= #[trigger] missing@[a] < i
                        && !self.queue@.contains_key(missing@[a]),
                forall|id: u32|
                    self.scope.0 <= id < i && !(#[trigger] self.queue@.contains_key(id))
                        ==> missing@.contains(id),
            decreases self.scope.1 - i,
        {
            if !self.queue.contains_key(&i) {
                let ghost before = missing@;
                missing.push(i);
                assert forall|id: u32| before.contains(id) implies missing@.contains(id) by {
                    let k = choose|k: int| 0 <= k < before.len() && before[k] == id;
                    assert(missing@[k] == id);
                }
                assert(missing@[missing@.len() - 1] == i);
            }
            i += 1;
        }
        if missing.len() > 0 {
            self.scope.0 = missing[0];
        }
        missing
    }

    /// Discards every packet held below the window.
    fn clear_out_of_scope(&mut self)
        requires
            old(self).wf(),
        ensures
            final(self).wf(),
            final(self).lo() == old(self).lo(),
            final(self).hi() == old(self).hi(),
            final(self).entries() == old(self).entries().restrict(
                Self::at_or_above(old(self).lo()),
            ),
    {
        let lo = self.scope.0;
        let mut stale: Vec<u32> = Vec::new();
        let ghost keys: Seq<u32> = self.queue.keys().remaining().unref();
        for id in it: self.queue.keys()
            invariant
                it.seq().unref() == keys,
                keys.to_set() == self.queue@.dom(),
                forall|k: int| 0 <= k < stale@.len() ==> #[trigger] stale@[k] < lo,
                forall|j: int|
                    0 <= j < it.index() && keys[j] < lo ==> stale@.contains(#[trigger] keys[j]),
        {
            if *id < lo {
                let ghost before = stale@;
                stale.push(*id);
                assert forall|x: u32| before.contains(x) implies stale@.contains(x) by {
                    let k = choose|k: int| 0 <= k < before.len() && before[k] == x;
                    assert(stale@[k] == x);
                }
                assert(stale@[stale@.len() - 1] == *id);
            }
        }
        assert forall|x: u32| #[trigger] self.queue@.contains_key(x) && x < lo implies stale@.contains(
            x,
        ) by {
            assert(keys.to_set().contains(x));
            let j = choose|j: int| 0 <= j < keys.len() && keys[j] == x;
            assert(stale@.contains(keys[j]));
        }
        let mut n: usize = 0;
        while n < stale.len()
            invariant
                n <= stale@.len(),
                self.scope == old(self).scope,
                forall|k: int| 0 <= k < stale@.len() ==> #[trigger] stale@[k] < self.scope.0,
                forall|x: u32|
                    #[trigger] self.queue@.contains_key(x) ==> old(self).queue@.contains_key(x)
                        && self.queue@[x] == old(self).queue@[x],
                forall|x: u32|
                    x >= self.scope.0 && #[trigger] old(self).queue@.contains_key(x)
                        ==> self.queue@.contains_key(x),
                forall|k: int| 0 <= k < n ==> !self.queue@.contains_key(#[trigger] stale@[k]),
            decreases stale@.len() - n,
        {
            let _ = self.queue.remove(&stale[n]);
            n += 1;
        }
        assert(self.queue@ =~= old(self).queue@.restrict(Self::at_or_above(self.scope.0))) by {
            assert forall|x: u32| #[trigger] self.queue@.contains_key(x) implies x
                >= self.scope.0 by {
                if x < self.scope.0 {
                    assert(old(self).queue@.contains_key(x));
                    assert(stale@.contains(x));
                    let k = choose|k: int| 0 <= k < stale@.len() && stale@[k] == x;
                    assert(!self.queue@.contains_key(stale@[k]));
                }
            }
        }
    }

    /// What is held once `packet` has been offered under `id`: the packet is
    /// taken unless `id` is below the window.
    pub open spec fn taken(&self, packet: T, id: u32) -> Map<u32, T> {
        if id >= self.lo() {
            self.entries().insert(id, packet)
        } else {
            self.entries()
        }
    }

    /// What is released comes in ascending index order without a gap: the
    /// packet at position `j` of a run that starts at `from` is the one
    /// held under `from + j`.
    pub proof fn lemma_run_is_gapless(entries: Map<u32, T>, from: u32, to: u32)
        requires
            from <= to,
        ensures
            Self::run(entries, from, to).len() == to - from,
            forall|j: int|
                0 <= j < to - from ==> #[trigger] Self::run(entries, from, to)[j] == entries[(from
                    + j) as u32],
    {
    }

    /// Successive releases continue each other: where one delivery has
    /// stopped the next one starts, so that over two deliveries the indices
    /// released are those from the first `lo` up to the last, each once.
    pub proof fn lemma_deliveries_continue(
        first: Self,
        packet: T,
        id: u32,
        second: Self,
        next_packet: T,
        next_id: u32,
        third: Self,
    )
        requires
            Self::delivered(first, packet, id, second),
            Self::delivered(second, next_packet, next_id, third),
        ensures
            first.lo() <= second.lo() <= third.lo(),
            (Self::run(first.taken(packet, id), first.lo(), second.lo()) + Self::run(
                second.taken(next_packet, next_id),
                second.lo(),
                third.lo(),
            )).len() == third.lo() - first.lo(),
            forall|i: u32|
                first.lo() <= i < second.lo() ==> !(#[trigger] second.taken(
                    next_packet,
                    next_id,
                ).contains_key(i)) || i == next_id,
    {
        assert forall|i: u32| first.lo() <= i < second.lo() implies !(#[trigger] second.taken(
            next_packet,
            next_id,
        ).contains_key(i)) || i == next_id by {
            assert(!Self::at_or_above(second.lo()).contains(i));
        }
    }

    /// Whether `after` is the queue that `before` becomes when `packet` is
    /// offered under `id` and everything deliverable is released: the
    /// window is widened to hold `id`, `lo` moves to the first index from
    /// the old `lo` on under which nothing is held, and what lies below it
    /// is gone.
    pub open spec fn delivered(before: Self, packet: T, id: u32, after: Self) -> bool {
        let taken = before.taken(packet, id);
        &&& after.wf()
        &&& after.hi() == if id >= before.hi() {
            (id + 1) as u32
        } else {
            before.hi()
        }
        &&& before.lo() <= after.lo() <= after.hi()
        &&& Self::holds_all(taken, before.lo(), after.lo())
        &&& !taken.contains_key(after.lo())
        &&& after.entries() == taken.restrict(Self::at_or_above(after.lo()))
    }

    /// Takes `packet` under the ordering index `id` and releases what has
    /// become deliverable, in index order: `insert` followed by `flush`.
    pub fn deliver(&mut self, packet: T, id: u32) -> (out: Vec<T>)
        requires
            old(self).wf(),
            id < u32::MAX,
        ensures
            Self::delivered(*old(self), packet, id, *final(self)),
            out@ == Self::run(old(self).taken(packet, id), old(self).lo(), final(self).lo()),
    {
        let _ = self.insert(packet, id);
        self.flush()
    }

    /// The width of the window: how many indices lie between `lo` and `hi`.
    pub fn get_scope(&self) -> (width: u32)
        requires
            self.wf(),
        ensures
            width == self.hi() - self.lo(),
    {
        self.scope.1 - self.scope.0
    }
}

/// Lets the packets of one channel through only in ascending order of
/// their index: whatever arrives late is dropped.
#[derive(Debug, Clone, Copy, PartialEq, Eq, Structural)]
pub struct SequencedQueue {
    /// One past the highest index let through.
    watermark: u32,
}

impl SequencedQueue {
    /// One past the highest index let through so far.
    pub closed spec fn watermark(&self) -> u32 {
        self.watermark
    }

    /// A queue that has let nothing through.
    pub fn new() -> (queue: Self)
        ensures
            queue.watermark() == 0,
    {
        SequencedQueue { watermark: 0 }
    }

    /// Whether a queue with the watermark `mark` lets `index` through.
    pub open spec fn lets_through(mark: u32, index: u32) -> bool {
        index >= mark
    }

    /// The watermark after `index` has been offered to a queue with the
    /// watermark `mark`.
    pub open spec fn mark_after(mark: u32, index: u32) -> u32 {
        if index >= mark {
            (index + 1) as u32
        } else {
            mark
        }
    }

    /// The indices that a queue with the watermark `mark` lets through when
    /// `indices` are offered to it one after the other.
    pub open spec fn let_through(mark: u32, indices: Seq<u32>) -> Seq<u32>
        decreases indices.len(),
    {
        if indices.len() == 0 {
            Seq::empty()
        } else {
            let rest = Self::let_through(Self::mark_after(mark, indices[0]), indices.skip(1));
            if Self::lets_through(mark, indices[0]) {
                seq![indices[0]] + rest
            } else {
                rest
            }
        }
    }

    /// Whatever is offered, the indices let through are strictly
    /// ascending, and none is below the watermark the queue started with.
    pub proof fn lemma_strictly_ascending(mark: u32, indices: Seq<u32>)
        requires
            forall|i: int| 0 <= i < indices.len() ==> indices[i] < u32::MAX,
        ensures
            forall|i: int|
                0 <= i < Self::let_through(mark, indices).len() ==> #[trigger] Self::let_through(
                    mark,
                    indices,
                )[i] >= mark,
            forall|i: int, j: int|
                0 <= i < j < Self::let_through(mark, indices).len() ==> Self::let_through(
                    mark,
                    indices,
                )[i] < Self::let_through(mark, indices)[j],
        decreases indices.len(),
    {
        if indices.len() > 0 {
            let next = Self::mark_after(mark, indices[0]);
            let rest = Self::let_through(next, indices.skip(1));
            Self::lemma_strictly_ascending(next, indices.skip(1));
            let all = Self::let_through(mark, indices);
            if Self::lets_through(mark, indices[0]) {
                assert forall|i: int, j: int| 0 <= i < j < all.len() implies all[i] < all[j] by {
                    assert(all[j] == rest[j - 1]);
                    if i > 0 {
                        assert(all[i] == rest[i - 1]);
                    }
                }
                assert forall|i: int| 0 <= i < all.len() implies #[trigger] all[i] >= mark by {
                    if i > 0 {
                        assert(all[i] == rest[i - 1]);
                    }
                }
            }
        }
    }

    /// Whether a packet with index `index` is let through. If it is, only
    /// higher indices are let through from then on.
    pub fn accept(&mut self, index: u32) -> (accepted: bool)
        requires
            index < u32::MAX,
        ensures
            accepted == Self::lets_through(old(self).watermark(), index),
            final(self).watermark() == Self::mark_after(old(self).watermark(), index),
    {
        if index < self.watermark {
            false
        } else {
            self.watermark = index + 1;
            true
        }
    }
}


} // verus!
