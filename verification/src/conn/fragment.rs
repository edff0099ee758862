//! Splitting a payload that does not fit a datagram, and putting the
//! fragments back together on the other side.

use crate::conn::session::since;
use crate::protocol::frame::Fragment;
use std::collections::BTreeMap;
use vstd::prelude::*;
use vstd::set_lib::lemma_subset_equality;
use vstd::slice::slice_subrange;
use vstd::slice::slice_to_vec;
use vstd::std_specs::iter::IteratorSpec;

verus! {

broadcast use {vstd::laws_cmp::group_laws_cmp, vstd::std_specs::btree::group_btree_axioms};

/// The pieces of `payload` when no piece may hold more than `max` bytes:
/// every piece but the last holds exactly `max`. A payload that fits is its
/// own single piece.
pub open spec fn pieces(payload: Seq<u8>, max: int) -> Seq<Seq<u8>>
    decreases payload.len(),
{
    if max <= 0 || payload.len() <= max {
        seq![payload]
    } else {
        seq![payload.take(max)] + pieces(payload.skip(max), max)
    }
}

/// The parts put together, first to last.
pub open spec fn join(parts: Seq<Seq<u8>>) -> Seq<u8>
    decreases parts.len(),
{
    if parts.len() == 0 {
        Seq::empty()
    } else {
        join(parts.drop_last()) + parts.last()
    }
}

/// The contents of the vectors.
pub open spec fn views(parts: Seq<Vec<u8>>) -> Seq<Seq<u8>> {
    Seq::new(parts.len(), |i: int| parts[i]@)
}

/// Joining a first part and more is the first part followed by the others
/// joined.
pub proof fn lemma_join_front(first: Seq<u8>, more: Seq<Seq<u8>>)
    ensures
        join(seq![first] + more) == first + join(more),
    decreases more.len(),
{
    let all = seq![first] + more;
    if more.len() == 0 {
        assert(all.drop_last() =~= Seq::<Seq<u8>>::empty());
        assert(join(all.drop_last()) + first =~= first);
        assert(first + join(more) =~= first);
    } else {
        assert(all.drop_last() =~= seq![first] + more.drop_last());
        assert(all.last() == more.last());
        lemma_join_front(first, more.drop_last());
        assert((first + join(more.drop_last())) + more.last() =~= first + (join(more.drop_last())
            + more.last()));
    }
}

/// Reassembling the pieces of a payload gives exactly the payload, for
/// every size of piece.
pub proof fn lemma_join_pieces(payload: Seq<u8>, max: int)
    ensures
        join(pieces(payload, max)) == payload,
    decreases payload.len(),
{
    if max <= 0 || payload.len() <= max {
        assert(seq![payload].drop_last() =~= Seq::<Seq<u8>>::empty());
        assert(join(Seq::<Seq<u8>>::empty()) + payload =~= payload);
    } else {
        lemma_join_pieces(payload.skip(max), max);
        lemma_join_front(payload.take(max), pieces(payload.skip(max), max));
        assert(payload.take(max) + payload.skip(max) =~= payload);
    }
}

/// A payload that fits is one piece; one byte more makes two.
pub proof fn lemma_pieces_at_the_limit(payload: Seq<u8>, max: int)
    requires
        max >= 1,
    ensures
        payload.len() <= max ==> pieces(payload, max).len() == 1,
        payload.len() == max + 1 ==> pieces(payload, max).len() == 2,
        payload.len() > max ==> pieces(payload, max).len() >= 2,
{
    if payload.len() > max {
        let rest = payload.skip(max);
        assert(pieces(payload, max) == seq![payload.take(max)] + pieces(rest, max));
        if payload.len() == max + 1 {
            assert(rest.len() == 1);
            assert(pieces(rest, max) == seq![rest]);
        }
        lemma_piece_sizes(rest, max);
    }
}

/// There is at least one piece, no piece holds more than `max` bytes, and
/// every piece of a payload that does not fit holds at least one.
pub proof fn lemma_piece_sizes(payload: Seq<u8>, max: int)
    requires
        max >= 1,
    ensures
        pieces(payload, max).len() >= 1,
        pieces(payload, max).len() <= payload.len() + 1,
        forall|i: int|
            0 <= i < pieces(payload, max).len() ==> (#[trigger] pieces(payload, max)[i]).len()
                <= max,
        payload.len() > 0 ==> forall|i: int|
            0 <= i < pieces(payload, max).len() ==> (#[trigger] pieces(payload, max)[i]).len() >= 1,
    decreases payload.len(),
{
    if payload.len() > max {
        lemma_piece_sizes(payload.skip(max), max);
    }
}

/// Splits `payload` into pieces of at most `max` bytes.
pub fn split(payload: &[u8], max: usize) -> (parts: Vec<Vec<u8>>)
    requires
        max >= 1,
    ensures
        views(parts@) == pieces(payload@, max as int),
{
    let mut parts: Vec<Vec<u8>> = Vec::new();
    let mut offset: usize = 0;
    assert(payload@.skip(0) =~= payload@);
    assert(views(parts@) + pieces(payload@, max as int) =~= pieces(payload@, max as int));
    while payload.len() - offset > max
        invariant
            max >= 1,
            offset <= payload@.len(),
            pieces(payload@, max as int) == views(parts@) + pieces(
                payload@.skip(offset as int),
                max as int,
            ),
        decreases payload@.len() - offset,
    {
        let ghost done = views(parts@);
        let ghost left = payload@.skip(offset as int);
        let piece = slice_to_vec(slice_subrange(payload, offset, offset + max));
        assert(piece@ =~= left.take(max as int));
        parts.push(piece);
        offset += max;
        proof {
            assert(left.skip(max as int) =~= payload@.skip(offset as int));
            assert(views(parts@) =~= done.push(piece@));
            assert(done + (seq![piece@] + pieces(left.skip(max as int), max as int))
                =~= done.push(piece@) + pieces(left.skip(max as int), max as int));
        }
    }
    let ghost done = views(parts@);
    let last = slice_to_vec(slice_subrange(payload, offset, payload.len()));
    assert(last@ =~= payload@.skip(offset as int));
    parts.push(last);
    assert(views(parts@) =~= done + seq![last@]);
    parts
}

/// The indices below `total`.
pub open spec fn below(total: u32) -> Set<u32> {
    Set::new(|i: u32| i < total)
}

/// There are exactly `total` indices below `total`.
pub proof fn lemma_below_len(total: u32)
    ensures
        below(total).finite(),
        below(total).len() == total,
    decreases total,
{
    if total == 0 {
        assert(below(total) =~= Set::<u32>::empty());
    } else {
        let less = (total - 1) as u32;
        lemma_below_len(less);
        assert(below(total) =~= below(less).insert(less));
    }
}

/// Whether `parts` holds a piece under every index below `total`.
pub open spec fn complete(parts: Map<u32, Seq<u8>>, total: u32) -> bool {
    forall|i: u32| i < total ==> #[trigger] parts.contains_key(i)
}

/// The first `total` pieces of `parts` put together in index order.
pub open spec fn assembled(parts: Map<u32, Seq<u8>>, total: u32) -> Seq<u8> {
    join(Seq::new(total as nat, |i: int| parts[i as u32]))
}

/// Putting the fragments of a payload together gives exactly the payload,
/// in whatever order they arrived.
pub proof fn lemma_reassembly(payload: Seq<u8>, max: int, parts: Map<u32, Seq<u8>>, total: u32)
    requires
        total == pieces(payload, max).len(),
        forall|i: u32|
            i < total ==> #[trigger] parts.contains_key(i) && parts[i] == pieces(
                payload,
                max,
            )[i as int],
    ensures
        complete(parts, total),
        assembled(parts, total) == payload,
{
    assert(Seq::new(total as nat, |i: int| parts[i as u32]) =~= pieces(payload, max)) by {
        assert forall|i: int| 0 <= i < total implies parts[i as u32] == pieces(payload, max)[i] by {
            let k = i as u32;
            assert(parts.contains_key(k));
        }
    }
    lemma_join_pieces(payload, max);
}

/// How long a payload may wait for its missing fragments, in milliseconds,
/// unless told otherwise.
pub const FRAGMENT_TIMEOUT: u64 = 10_000;

/// The fragments of one payload that have arrived so far.
#[derive(Debug)]
pub struct Compound {
    /// The number of fragments the payload was split into.
    total: u32,
    /// The fragments that have arrived, by their position.
    parts: BTreeMap<u32, Vec<u8>>,
    /// When a fragment last arrived.
    touched: u64,
}

impl Compound {
    /// The number of fragments the payload was split into.
    pub closed spec fn total(&self) -> u32 {
        self.total
    }

    /// The fragments that have arrived, by their position.
    pub closed spec fn parts(&self) -> Map<u32, Seq<u8>> {
        Map::new(|i: u32| self.parts@.contains_key(i), |i: u32| self.parts@[i]@)
    }

    /// When a fragment last arrived.
    pub closed spec fn touched(&self) -> u64 {
        self.touched
    }

    /// Whether every position that `parts` holds is below `total`.
    pub open spec fn within(parts: Map<u32, Seq<u8>>, total: u32) -> bool {
        forall|i: u32| #[trigger] parts.contains_key(i) ==> i < total
    }

    /// Every fragment held has a position below the total.
    pub open spec fn wf(&self) -> bool {
        Self::within(self.parts(), self.total())
    }

    /// Fragments whose positions are all below `total` are complete exactly
    /// when there are `total` of them.
    proof fn lemma_complete_by_count(positions: Set<u32>, total: u32)
        requires
            positions.finite(),
            forall|i: u32| #[trigger] positions.contains(i) ==> i < total,
        ensures
            (positions.len() == total) <==> (forall|i: u32|
                i < total ==> #[trigger] positions.contains(i)),
    {
        lemma_below_len(total);
        assert(positions.subset_of(below(total)));
        if positions.len() == total {
            lemma_subset_equality(positions, below(total));
            assert forall|i: u32| i < total implies #[trigger] positions.contains(i) by {
                assert(below(total).contains(i));
            }
        }
        if forall|i: u32| i < total ==> #[trigger] positions.contains(i) {
            assert(positions =~= below(total));
        }
    }

    /// The start of a payload of `total` fragments, with none arrived.
    fn new(total: u32, now: u64) -> (compound: Compound)
        ensures
            compound.wf(),
            compound.total() == total,
            compound.parts() == Map::<u32, Seq<u8>>::empty(),
            compound.touched() == now,
    {
        let compound = Compound { total, parts: BTreeMap::new(), touched: now };
        assert(compound.parts() =~= Map::<u32, Seq<u8>>::empty());
        compound
    }

    /// Takes the fragment at position `index`, replacing what was held
    /// there.
    fn put(&mut self, index: u32, payload: Vec<u8>, now: u64)
        requires
            old(self).wf(),
            index < old(self).total(),
        ensures
            final(self).wf(),
            final(self).total() == old(self).total(),
            final(self).parts() == old(self).parts().insert(index, payload@),
            final(self).touched() == now,
    {
        let _ = self.parts.insert(index, payload);
        self.touched = now;
        assert(self.parts() =~= old(self).parts().insert(index, payload@));
    }

    /// Whether every fragment has arrived.
    fn is_complete(&self) -> (yes: bool)
        requires
            self.wf(),
        ensures
            yes == complete(self.parts(), self.total()),
    {
        proof {
            assert(self.parts().dom() =~= self.parts@.dom());
            Self::lemma_complete_by_count(self.parts@.dom(), self.total);
        }
        self.parts.len() == self.total as usize
    }

    /// The payload, once every fragment has arrived.
    fn assemble(&self) -> (out: Vec<u8>)
        requires
            complete(self.parts(), self.total()),
        ensures
            out@ == assembled(self.parts(), self.total()),
    {
        let ghost all = Seq::new(self.total as nat, |i: int| self.parts()[i as u32]);
        let mut out: Vec<u8> = Vec::new();
        let mut i: u32 = 0;
        assert(all.take(0) =~= Seq::<Seq<u8>>::empty());
        while i < self.total
            invariant
                i <= self.total,
                complete(self.parts(), self.total()),
                all == Seq::new(self.total as nat, |k: int| self.parts()[k as u32]),
                out@ == join(all.take(i as int)),
            decreases self.total - i,
        {
            assert(self.parts().contains_key(i));
            match self.parts.get(&i) {
                Some(part) => {
                    out.extend_from_slice(part.as_slice());
                    proof {
                        let now = all.take(i + 1);
                        assert(now.drop_last() =~= all.take(i as int));
                        assert(now.last() == part@);
                    }
                },
                None => {},
            }
            i += 1;
        }
        assert(all.take(i as int) =~= all);
        out
    }
}

/// Collects fragments by compound id until a payload is whole.
#[derive(Debug)]
pub struct FragmentQueue {
    compounds: BTreeMap<u16, Compound>,
}

impl FragmentQueue {
    /// The payloads under way, by compound id.
    pub closed spec fn compounds(&self) -> Map<u16, Compound> {
        self.compounds@
    }

    /// Whether every payload of `compounds` is well formed.
    pub open spec fn all_wf(compounds: Map<u16, Compound>) -> bool {
        forall|id: u16| #[trigger] compounds.contains_key(id) ==> compounds[id].wf()
    }

    /// Every payload under way is well formed.
    pub open spec fn wf(&self) -> bool {
        Self::all_wf(self.compounds())
    }

    /// Whether the fragment can be taken: it names a position within its
    /// payload, and the payload has the size that earlier fragments of the
    /// same compound told.
    pub open spec fn accepts(&self, fragment: Fragment) -> bool {
        &&& fragment.index < fragment.compound_size
        &&& self.compounds().contains_key(fragment.compound_id) ==> self.compounds()[fragment.compound_id].total()
            == fragment.compound_size
    }

    /// The fragments of the compound of `fragment` once `payload` is taken
    /// at its position.
    pub open spec fn parts_after(&self, fragment: Fragment, payload: Seq<u8>) -> Map<
        u32,
        Seq<u8>,
    > {
        if self.compounds().contains_key(fragment.compound_id) {
            self.compounds()[fragment.compound_id].parts().insert(fragment.index, payload)
        } else {
            Map::<u32, Seq<u8>>::empty().insert(fragment.index, payload)
        }
    }

    /// Whether `after` is `before` with the compound of `fragment` now
    /// holding `parts`, touched at `now`, and every other compound as it
    /// was.
    pub open spec fn stored(
        before: Map<u16, Compound>,
        fragment: Fragment,
        parts: Map<u32, Seq<u8>>,
        now: u64,
        after: Map<u16, Compound>,
    ) -> bool {
        &&& after.dom() == before.dom().insert(fragment.compound_id)
        &&& after[fragment.compound_id].total() == fragment.compound_size
        &&& after[fragment.compound_id].parts() == parts
        &&& after[fragment.compound_id].touched() == now
        &&& forall|id: u16|
            id != fragment.compound_id && #[trigger] before.contains_key(id) ==> after[id]
                == before[id]
    }

    /// A queue with no payload under way.
    pub fn new() -> (queue: FragmentQueue)
        ensures
            queue.wf(),
            queue.compounds() == Map::<u16, Compound>::empty(),
    {
        FragmentQueue { compounds: BTreeMap::new() }
    }

    /// The number of payloads under way.
    pub fn len(&self) -> (n: usize)
        ensures
            n == self.compounds().len(),
    {
        self.compounds.len()
    }

    /// Takes a fragment that arrived at time `now`. When it is the last one
    /// missing of its payload, the payload is handed back whole and the
    /// compound is forgotten. A fragment that cannot be taken is dropped.
    pub fn insert(&mut self, fragment: Fragment, payload: Vec<u8>, now: u64) -> (out: Option<
        Vec<u8>,
    >)
        requires
            old(self).wf(),
        ensures
            final(self).wf(),
            !old(self).accepts(fragment) ==> out is None && final(self).compounds() == old(
                self,
            ).compounds(),
            old(self).accepts(fragment) && complete(
                old(self).parts_after(fragment, payload@),
                fragment.compound_size,
            ) ==> (out matches Some(whole) && whole@ == assembled(
                old(self).parts_after(fragment, payload@),
                fragment.compound_size,
            ) && final(self).compounds() == old(self).compounds().remove(fragment.compound_id)),
            old(self).accepts(fragment) && !complete(
                old(self).parts_after(fragment, payload@),
                fragment.compound_size,
            ) ==> out is None && Self::stored(
                old(self).compounds(),
                fragment,
                old(self).parts_after(fragment, payload@),
                now,
                final(self).compounds(),
            ),
    {
        if fragment.index >= fragment.compound_size {
            return None;
        }
        let mut compound = match self.compounds.remove(&fragment.compound_id) {
            Some(compound) => {
                if compound.total != fragment.compound_size {
                    let _ = self.compounds.insert(fragment.compound_id, compound);
                    assert(self.compounds@ =~= old(self).compounds@);
                    return None;
                }
                compound
            },
            None => Compound::new(fragment.compound_size, now),
        };
        compound.put(fragment.index, payload, now);
        if compound.is_complete() {
            Some(compound.assemble())
        } else {
            let _ = self.compounds.insert(fragment.compound_id, compound);
            proof {
                let before = old(self).compounds@;
                let after = self.compounds@;
                assert(after =~= before.insert(fragment.compound_id, compound));
                assert(after.dom() =~= before.dom().insert(fragment.compound_id));
                assert forall|id: u16|
                    id != fragment.compound_id && #[trigger] before.contains_key(
                        id,
                    ) implies after[id] == before[id] by {}
            }
            None
        }
    }

    /// The compound ids of `compounds` whose payloads have made progress
    /// less than `max_age` milliseconds before `now`.
    pub open spec fn fresh(compounds: Map<u16, Compound>, now: u64, max_age: u64) -> Set<u16> {
        Set::new(
            |id: u16| compounds.contains_key(id) && since(now, compounds[id].touched()) < max_age,
        )
    }

    /// Forgets every payload that has made no progress for `max_age`
    /// milliseconds.
    pub fn expire(&mut self, now: u64, max_age: u64)
        requires
            old(self).wf(),
        ensures
            final(self).wf(),
            final(self).compounds() == old(self).compounds().restrict(
                Self::fresh(old(self).compounds(), now, max_age),
            ),
    {
        let mut stale: Vec<u16> = Vec::new();
        let ghost keys: Seq<u16> = self.compounds.keys().remaining().unref();
        for id in it: self.compounds.keys()
            invariant
                it.seq().unref() == keys,
                keys.to_set() == self.compounds@.dom(),
                forall|k: int|
                    0 <= k < stale@.len() ==> self.compounds@.contains_key(#[trigger] stale@[k])
                        && since(now, self.compounds@[stale@[k]].touched()) >= max_age,
                forall|j: int|
                    0 <= j < it.index() && since(
                        now,
                        self.compounds@[#[trigger] keys[j]].touched(),
                    ) >= max_age ==> stale@.contains(keys[j]),
        {
            assert(keys.to_set().contains(*id));
            match self.compounds.get(id) {
                Some(compound) => {
                    let waited = if now >= compound.touched {
                        now - compound.touched
                    } else {
                        0
                    };
                    if waited >= max_age {
                        let ghost before = stale@;
                        stale.push(*id);
                        assert forall|x: u16| before.contains(x) implies stale@.contains(x) by {
                            let k = choose|k: int| 0 <= k < before.len() && before[k] == x;
                            assert(stale@[k] == x);
                        }
                        assert(stale@[stale@.len() - 1] == *id);
                    }
                },
                None => {},
            }
        }
        assert forall|x: u16|
            #[trigger] self.compounds@.contains_key(x) && since(
                now,
                self.compounds@[x].touched(),
            ) >= max_age implies stale@.contains(x) by {
            assert(keys.to_set().contains(x));
            let j = choose|j: int| 0 <= j < keys.len() && keys[j] == x;
            assert(stale@.contains(keys[j]));
        }
        let ghost fresh = Self::fresh(old(self).compounds@, now, max_age);
        let mut n: usize = 0;
        while n < stale.len()
            invariant
                n <= stale@.len(),
                fresh == Self::fresh(old(self).compounds@, now, max_age),
                forall|k: int|
                    0 <= k < stale@.len() ==> old(self).compounds@.contains_key(
                        #[trigger] stale@[k],
                    ) && !fresh.contains(stale@[k]),
                forall|x: u16|
                    #[trigger] old(self).compounds@.contains_key(x) && !fresh.contains(x)
                        ==> stale@.contains(x),
                forall|x: u16|
                    #[trigger] self.compounds@.contains_key(x) ==> old(
                        self,
                    ).compounds@.contains_key(x) && self.compounds@[x] == old(self).compounds@[x],
                forall|x: u16|
                    fresh.contains(x) ==> #[trigger] self.compounds@.contains_key(x),
                forall|k: int| 0 <= k < n ==> !self.compounds@.contains_key(#[trigger] stale@[k]),
            decreases stale@.len() - n,
        {
            let _ = self.compounds.remove(&stale[n]);
            n += 1;
        }
        assert(self.compounds@ =~= old(self).compounds@.restrict(fresh)) by {
            assert forall|x: u16| #[trigger] self.compounds@.contains_key(x) implies fresh.contains(
                x,
            ) by {
                if !fresh.contains(x) {
                    assert(old(self).compounds@.contains_key(x));
                    assert(stale@.contains(x));
                    let k = choose|k: int| 0 <= k < stale@.len() && stale@[k] == x;
                    assert(!self.compounds@.contains_key(stale@[k]));
                }
            }
        }
    }
}

} // verus!
