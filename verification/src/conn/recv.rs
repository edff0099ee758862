//! The receive queue: what a peer does with the datagrams that arrive.
//!
//! Every datagram is acknowledged. One that the window has not seen is
//! taken apart: reliable frames seen before are dropped, fragments are
//! collected until their payload is whole, and each payload is then routed
//! by its reliability, through the ordering window of its channel, past the
//! sequencing watermark of its channel, or straight to the list of payloads
//! that are ready for the application.

use crate::conn::fragment::assembled;
use crate::conn::fragment::complete;
use crate::conn::fragment::FragmentQueue;
use crate::conn::pending::PendingSet;
use crate::conn::queue::OrderedQueue;
use crate::conn::queue::SequencedQueue;
use crate::conn::window::ahead;
use crate::conn::window::wrap;
use crate::conn::window::DedupWindow;
use crate::conn::window::Verdict;
use crate::conn::window::DEFAULT_WIDTH;
use crate::conn::window::MODULUS;
use crate::protocol::datagram::Datagram;
use crate::protocol::frame::Frame;
use crate::protocol::frame::FrameView;
use crate::protocol::frame::Reliability;
use crate::protocol::frame::CHANNELS;
use vstd::prelude::*;
use vstd::slice::slice_to_vec;

verus! {

/// Why a datagram was not taken.
#[derive(Debug, Clone, Copy, PartialEq, Eq, Structural)]
pub enum RecvError {
    /// The datagram breaks a rule of the wire format: an index out of
    /// range, a channel that does not exist, a field set that its frame's
    /// reliability does not call for.
    Malformed,
}

/// The receiving side of a session.
#[derive(Debug)]
pub struct RecvQueue {
    /// The datagram sequence numbers seen.
    window: DedupWindow,
    /// The reliable indices seen.
    reliable: DedupWindow,
    /// The fragments of payloads that are not whole yet.
    fragments: FragmentQueue,
    /// The ordering window of each channel.
    ordered: Vec<OrderedQueue<Vec<u8>>>,
    /// The sequencing watermark of each channel.
    sequenced: Vec<SequencedQueue>,
    /// The payloads ready for the application, oldest first.
    ready: Vec<Vec<u8>>,
    /// The sequence numbers to acknowledge with the next flush.
    acks: PendingSet,
    /// The sequence numbers to report missing with the next flush.
    nacks: PendingSet,
}

impl RecvQueue {
    /// The datagram sequence numbers seen.
    pub closed spec fn window(&self) -> DedupWindow {
        self.window
    }

    /// The reliable indices seen.
    pub closed spec fn reliable(&self) -> DedupWindow {
        self.reliable
    }

    /// The fragments of payloads that are not whole yet.
    pub closed spec fn fragments(&self) -> FragmentQueue {
        self.fragments
    }

    /// The ordering window of each channel.
    pub closed spec fn ordered(&self) -> Seq<OrderedQueue<Vec<u8>>> {
        self.ordered@
    }

    /// The sequencing watermark of each channel.
    pub closed spec fn sequenced(&self) -> Seq<SequencedQueue> {
        self.sequenced@
    }

    /// The payloads ready for the application, oldest first.
    pub closed spec fn ready(&self) -> Seq<Vec<u8>> {
        self.ready@
    }

    /// The sequence numbers to acknowledge with the next flush.
    pub closed spec fn acks(&self) -> Set<u32> {
        self.acks.set()
    }

    /// The sequence numbers to report missing with the next flush.
    pub closed spec fn nacks(&self) -> Set<u32> {
        self.nacks.set()
    }

    /// The lists of pending numbers are in order.
    pub closed spec fn lists_wf(&self) -> bool {
        self.acks.wf() && self.nacks.wf()
    }

    /// Whether every queue of `queues` is well formed.
    pub open spec fn all_wf(queues: Seq<OrderedQueue<Vec<u8>>>) -> bool {
        forall|c: int| 0 <= c < queues.len() ==> (#[trigger] queues[c]).wf()
    }

    /// Every part is well formed and there is a queue and a watermark for
    /// each of the channels.
    pub open spec fn wf(&self) -> bool {
        &&& self.window().wf()
        &&& self.reliable().wf()
        &&& self.fragments().wf()
        &&& self.ordered().len() == CHANNELS
        &&& Self::all_wf(self.ordered())
        &&& self.sequenced().len() == CHANNELS
        &&& self.lists_wf()
    }

    /// Whether `after` is `before` as far as frames can change it.
    pub open spec fn same_frames(before: RecvQueue, after: RecvQueue) -> bool {
        &&& after.reliable() == before.reliable()
        &&& after.fragments() == before.fragments()
        &&& Self::unrouted(before, after)
    }

    /// Whether the channels and the ready list of `after` are those of
    /// `before`.
    pub open spec fn unrouted(before: RecvQueue, after: RecvQueue) -> bool {
        &&& after.ordered() == before.ordered()
        &&& after.sequenced() == before.sequenced()
        &&& after.ready() == before.ready()
    }

    /// Whether `after` is what `before` becomes when the bytes `stored`
    /// arrive whole with reliability `mode`, channel `channel` and ordering
    /// index `index`.
    ///
    /// An ordered payload enters the ordering window of its channel, and
    /// whatever the window can then release joins the ready list in index
    /// order. A sequenced payload joins the ready list unless its channel
    /// has let a higher or equal index through. Any other payload joins the
    /// ready list at once.
    pub open spec fn routed_as(
        before: RecvQueue,
        mode: Reliability,
        channel: u8,
        index: u32,
        stored: Vec<u8>,
        after: RecvQueue,
    ) -> bool {
        if mode.is_ordered() {
            let queue = before.ordered()[channel as int];
            let next = after.ordered()[channel as int];
            &&& after.ordered().len() == before.ordered().len()
            &&& forall|c: int|
                0 <= c < before.ordered().len() && c != channel ==> #[trigger] after.ordered()[c]
                    == before.ordered()[c]
            &&& OrderedQueue::delivered(queue, stored, index, next)
            &&& after.ready() == before.ready() + OrderedQueue::run(
                queue.taken(stored, index),
                queue.lo(),
                next.lo(),
            )
            &&& after.sequenced() == before.sequenced()
        } else if mode.is_sequenced() {
            let mark = before.sequenced()[channel as int].watermark();
            &&& after.sequenced().len() == before.sequenced().len()
            &&& forall|c: int|
                0 <= c < before.sequenced().len() && c != channel
                    ==> #[trigger] after.sequenced()[c] == before.sequenced()[c]
            &&& after.sequenced()[channel as int].watermark() == SequencedQueue::mark_after(
                mark,
                index,
            )
            &&& after.ready() == if SequencedQueue::lets_through(mark, index) {
                before.ready().push(stored)
            } else {
                before.ready()
            }
            &&& after.ordered() == before.ordered()
        } else {
            &&& after.ready() == before.ready().push(stored)
            &&& after.ordered() == before.ordered()
            &&& after.sequenced() == before.sequenced()
        }
    }

    /// Whether `after` is what `before` becomes when the payload `payload`
    /// arrives whole: `routed_as` for a vector that holds `payload`.
    pub open spec fn routed(
        before: RecvQueue,
        mode: Reliability,
        channel: u8,
        index: u32,
        payload: Seq<u8>,
        after: RecvQueue,
    ) -> bool {
        exists|stored: Vec<u8>|
            stored@ == payload && #[trigger] Self::routed_as(
                before,
                mode,
                channel,
                index,
                stored,
                after,
            )
    }

    /// Whether `after` is what `before` becomes on the frame `frame` at
    /// time `now`, as far as frames can change it.
    ///
    /// A reliable frame is noted in the window of reliable indices, and
    /// dropped if its index was seen before or is too old to tell. A
    /// fragment joins its compound; only the fragment that makes the
    /// payload whole goes further, as the whole payload. What goes further
    /// is routed.
    pub open spec fn frame_step(
        before: RecvQueue,
        frame: FrameView,
        now: u64,
        after: RecvQueue,
    ) -> bool {
        let mode = frame.reliability;
        let verdict = before.reliable().classify(frame.reliable_index);
        let repeated = mode.is_reliable() && (verdict is Duplicate || verdict is Stale);
        &&& if mode.is_reliable() {
            &&& after.reliable().next() == before.reliable().next_after(frame.reliable_index)
            &&& after.reliable().flags() == before.reliable().flags_after(frame.reliable_index)
        } else {
            after.reliable() == before.reliable()
        }
        &&& if repeated {
            after.fragments() == before.fragments() && Self::unrouted(before, after)
        } else {
            match frame.fragment {
                None => after.fragments() == before.fragments() && Self::routed(
                    before,
                    mode,
                    frame.channel,
                    frame.order_index,
                    frame.payload,
                    after,
                ),
                Some(fragment) => {
                    let parts = before.fragments().parts_after(fragment, frame.payload);
                    if !before.fragments().accepts(fragment) {
                        after.fragments().compounds() == before.fragments().compounds()
                            && Self::unrouted(before, after)
                    } else if complete(parts, fragment.compound_size) {
                        after.fragments().compounds() == before.fragments().compounds().remove(
                            fragment.compound_id,
                        ) && Self::routed(
                            before,
                            mode,
                            frame.channel,
                            frame.order_index,
                            assembled(parts, fragment.compound_size),
                            after,
                        )
                    } else {
                        FragmentQueue::stored(
                            before.fragments().compounds(),
                            fragment,
                            parts,
                            now,
                            after.fragments().compounds(),
                        ) && Self::unrouted(before, after)
                    }
                },
            }
        }
    }

    /// Whether `states` are the queues that `before` passes through on the
    /// frames `frames`, taken first to last, ending in `after`.
    pub open spec fn passes_through(
        before: RecvQueue,
        frames: Seq<FrameView>,
        now: u64,
        after: RecvQueue,
        states: Seq<RecvQueue>,
    ) -> bool {
        &&& states.len() == frames.len() + 1
        &&& Self::same_frames(before, states[0])
        &&& states[frames.len() as int] == after
        &&& forall|i: int|
            0 <= i < frames.len() ==> (#[trigger] states[i]).wf() && Self::frame_step(
                states[i],
                frames[i],
                now,
                states[i + 1],
            )
    }

    /// Whether `after` is what `before` becomes on the frames `frames`,
    /// taken first to last, as far as frames can change it.
    pub open spec fn frames_step(
        before: RecvQueue,
        frames: Seq<FrameView>,
        now: u64,
        after: RecvQueue,
    ) -> bool {
        exists|states: Seq<RecvQueue>|
            #[trigger] Self::passes_through(before, frames, now, after, states)
    }

    /// The numbers that a window skips when it advances to the fresh
    /// number `d` steps ahead of `next`, as far as they lie within `width`
    /// of the new end: they are reported missing.
    pub open spec fn skipped(next: u32, d: int, width: int) -> Set<u32> {
        Set::new(|x: u32| exists|j: int| 0 <= j < d && d - j < width && x == #[trigger] wrap(next + j))
    }

    /// The numbers to report missing once the datagram `s` has been noted:
    /// a fresh one adds what it skipped, one that fills a gap is no longer
    /// missing itself.
    pub open spec fn nacks_after(&self, s: u32) -> Set<u32> {
        match self.window().classify(s) {
            Verdict::Fresh => self.nacks() + Self::skipped(
                self.window().next(),
                ahead(self.window().next(), s),
                self.window().flags().len() as int,
            ),
            Verdict::Filled => self.nacks().remove(s),
            _ => self.nacks(),
        }
    }

    /// A queue that has seen nothing, with windows `DEFAULT_WIDTH` wide.
    pub fn new() -> (queue: RecvQueue)
        ensures
            queue.wf(),
            queue.window().next() == 0,
            queue.reliable().next() == 0,
            queue.ready() == Seq::<Vec<u8>>::empty(),
            queue.acks() == Set::<u32>::empty(),
            queue.nacks() == Set::<u32>::empty(),
    {
        let mut ordered: Vec<OrderedQueue<Vec<u8>>> = Vec::new();
        let mut sequenced: Vec<SequencedQueue> = Vec::new();
        let mut c: u8 = 0;
        while c < CHANNELS
            invariant
                c <= CHANNELS,
                ordered@.len() == c,
                sequenced@.len() == c,
                Self::all_wf(ordered@),
            decreases CHANNELS - c,
        {
            ordered.push(OrderedQueue::new());
            sequenced.push(SequencedQueue::new());
            c += 1;
        }
        let queue = RecvQueue {
            window: DedupWindow::new(DEFAULT_WIDTH),
            reliable: DedupWindow::new(DEFAULT_WIDTH),
            fragments: FragmentQueue::new(),
            ordered,
            sequenced,
            ready: Vec::new(),
            acks: PendingSet::new(),
            nacks: PendingSet::new(),
        };
        assert(queue.acks() =~= Set::<u32>::empty());
        assert(queue.nacks() =~= Set::<u32>::empty());
        queue
    }

    /// Routes a whole payload by its reliability.
    fn route(&mut self, mode: Reliability, channel: u8, index: u32, payload: Vec<u8>)
        requires
            old(self).wf(),
            channel < CHANNELS,
            index < u32::MAX,
        ensures
            final(self).wf(),
            Self::routed_as(*old(self), mode, channel, index, payload, *final(self)),
            final(self).window() == old(self).window(),
            final(self).reliable() == old(self).reliable(),
            final(self).fragments() == old(self).fragments(),
            final(self).acks() == old(self).acks(),
            final(self).nacks() == old(self).nacks(),
    {
        if mode.ordered() {
            let mut queue = self.ordered.remove(channel as usize);
            let mut out = queue.deliver(payload, index);
            self.ordered.insert(channel as usize, queue);
            self.ready.append(&mut out);
            assert(self.ordered@.len() == old(self).ordered@.len());
            assert(self.ordered@[channel as int] == queue);
            assert forall|c: int|
                0 <= c < old(self).ordered@.len() && c != channel implies #[trigger] self.ordered@[c]
                == old(self).ordered@[c] by {}
            assert(Self::all_wf(self.ordered@)) by {
                assert forall|c: int| 0 <= c < self.ordered@.len() implies (
                #[trigger] self.ordered@[c]).wf() by {
                    if c != channel {
                        assert(old(self).ordered@[c].wf());
                    }
                }
            }
        } else if mode.sequenced() {
            let mut mark = self.sequenced[channel as usize];
            if mark.accept(index) {
                self.ready.push(payload);
            }
            self.sequenced.set(channel as usize, mark);
        } else {
            self.ready.push(payload);
        }
    }

    /// Takes one frame of a datagram that was not seen before.
    fn accept(&mut self, frame: &Frame, now: u64)
        requires
            old(self).wf(),
            frame@.wf(),
        ensures
            final(self).wf(),
            Self::frame_step(*old(self), frame@, now, *final(self)),
            final(self).window() == old(self).window(),
            final(self).acks() == old(self).acks(),
            final(self).nacks() == old(self).nacks(),
    {
        if frame.reliability.reliable() {
            match self.reliable.observe(frame.reliable_index) {
                Verdict::Duplicate | Verdict::Stale => { return ; },
                _ => {},
            }
        }
        let payload = slice_to_vec(frame.payload.as_slice());
        let whole = match frame.fragment {
            Some(fragment) => {
                match self.fragments.insert(fragment, payload, now) {
                    Some(whole) => whole,
                    None => { return ; },
                }
            },
            None => payload,
        };
        self.route(frame.reliability, frame.channel, frame.order_index, whole);
        assert(Self::routed_as(
            *old(self),
            frame.reliability,
            frame.channel,
            frame.order_index,
            whole,
            *self,
        ));
    }

    /// Takes a datagram that arrived at time `now`.
    ///
    /// The sequence number is noted for acknowledgement in every case. A
    /// datagram that the window has seen, or that is too old to tell,
    /// changes nothing else. Of any other, the frames are taken first to
    /// last, and the numbers it skipped are noted as missing.
    pub fn insert(&mut self, datagram: &Datagram, now: u64) -> (res: Result<Verdict, RecvError>)
        requires
            old(self).wf(),
        ensures
            final(self).wf(),
            res is Err <==> !datagram@.wf(),
            res is Err ==> *final(self) == *old(self),
            res matches Ok(verdict) ==> {
                &&& verdict == old(self).window().classify(datagram.sequence)
                &&& final(self).window().next() == old(self).window().next_after(datagram.sequence)
                &&& final(self).window().flags() == old(self).window().flags_after(
                    datagram.sequence,
                )
                &&& final(self).acks() == old(self).acks().insert(datagram.sequence)
                &&& final(self).nacks() == old(self).nacks_after(datagram.sequence)
                &&& if verdict is Duplicate || verdict is Stale {
                    Self::same_frames(*old(self), *final(self))
                } else {
                    Self::frames_step(*old(self), datagram@.frames, now, *final(self))
                }
            },
    {
        if !datagram.is_valid() {
            return Err(RecvError::Malformed);
        }
        let sequence = datagram.sequence;
        let next = self.window.expected();
        let d = self.window.distance(sequence);
        let width = self.window.width();
        let verdict = self.window.observe(sequence);
        self.acks.insert(sequence);
        match verdict {
            Verdict::Duplicate | Verdict::Stale => { return Ok(verdict); },
            Verdict::Filled => {
                self.nacks.remove(sequence);
            },
            Verdict::Fresh => {
                self.note_skipped(next, d, width);
            },
        }
        let ghost mut states: Seq<RecvQueue> = seq![*self];
        let mut i: usize = 0;
        while i < datagram.frames.len()
            invariant
                self.wf(),
                datagram@.wf(),
                i <= datagram.frames@.len(),
                self.window().next() == old(self).window().next_after(datagram.sequence),
                self.window().flags() == old(self).window().flags_after(datagram.sequence),
                self.acks() == old(self).acks().insert(datagram.sequence),
                self.nacks() == old(self).nacks_after(datagram.sequence),
                states.len() == i + 1,
                Self::same_frames(*old(self), states[0]),
                states[i as int] == *self,
                forall|k: int|
                    0 <= k < i ==> (#[trigger] states[k]).wf() && Self::frame_step(
                        states[k],
                        datagram@.frames[k],
                        now,
                        states[k + 1],
                    ),
            decreases datagram.frames@.len() - i,
        {
            assert(datagram@.frames[i as int].wf());
            self.accept(&datagram.frames[i], now);
            proof {
                states = states.push(*self);
            }
            i += 1;
        }
        assert(Self::passes_through(*old(self), datagram@.frames, now, *self, states));
        Ok(verdict)
    }

    /// Notes as missing the numbers that a fresh datagram skipped.
    fn note_skipped(&mut self, next: u32, d: u32, width: u32)
        requires
            old(self).lists_wf(),
            next < MODULUS,
            d < MODULUS,
            width >= 1,
        ensures
            final(self).lists_wf(),
            final(self).nacks() == old(self).nacks() + Self::skipped(next, d as int, width as int),
            final(self).acks() == old(self).acks(),
            final(self).window() == old(self).window(),
            Self::same_frames(*old(self), *final(self)),
    {
        let first: u32 = if d >= width {
            d - width + 1
        } else {
            0
        };
        let mut j: u32 = first;
        assert(self.nacks() =~= old(self).nacks() + Self::skipped(next, first as int, 0));
        assert(Self::skipped(next, first as int, 0) =~= Set::<u32>::empty());
        while j < d
            invariant
                first <= j <= d,
                first == if d >= width { (d - width + 1) as u32 } else { 0u32 },
                width >= 1,
                next < MODULUS,
                d < MODULUS,
                self.lists_wf(),
                self.acks() == old(self).acks(),
                self.window() == old(self).window(),
                Self::same_frames(*old(self), *self),
                forall|x: u32|
                    self.nacks().contains(x) <==> old(self).nacks().contains(x) || exists|k: int|
                        first <= k < j && x == #[trigger] wrap(next + k),
            decreases d - j,
        {
            let number = ((next as u64 + j as u64) % (MODULUS as u64)) as u32;
            assert(number == wrap(next + j));
            let ghost before = self.nacks();
            self.nacks.insert(number);
            assert forall|x: u32|
                self.nacks().contains(x) <==> old(self).nacks().contains(x) || exists|k: int|
                    first <= k < j + 1 && x == #[trigger] wrap(next + k) by {
                if before.contains(x) && !old(self).nacks().contains(x) {
                    let k = choose|k: int| first <= k < j && x == #[trigger] wrap(next + k);
                    assert(first <= k < j + 1 && x == wrap(next + k));
                }
                if x == number {
                    assert(first <= j < j + 1 && x == wrap(next + j));
                }
                if exists|k: int| first <= k < j + 1 && x == #[trigger] wrap(next + k) {
                    let k = choose|k: int| first <= k < j + 1 && x == #[trigger] wrap(next + k);
                    if k < j {
                        assert(first <= k < j && x == wrap(next + k));
                    }
                }
            }
            j += 1;
        }
        assert(self.nacks() =~= old(self).nacks() + Self::skipped(next, d as int, width as int))
            by {
            assert forall|x: u32|
                Self::skipped(next, d as int, width as int).contains(x) <==> exists|k: int|
                    first <= k < d && x == #[trigger] wrap(next + k) by {
                if Self::skipped(next, d as int, width as int).contains(x) {
                    let k = choose|k: int|
                        0 <= k < d && d - k < width && x == #[trigger] wrap(next + k);
                    assert(first <= k < d && x == wrap(next + k));
                }
                if exists|k: int| first <= k < d && x == #[trigger] wrap(next + k) {
                    let k = choose|k: int| first <= k < d && x == #[trigger] wrap(next + k);
                    assert(0 <= k < d && d - k < width && x == wrap(next + k));
                }
            }
        }
    }

    /// Hands out the payloads that are ready, oldest first, and forgets
    /// them.
    pub fn flush(&mut self) -> (out: Vec<Vec<u8>>)
        requires
            old(self).wf(),
        ensures
            final(self).wf(),
            out@ == old(self).ready(),
            final(self).ready() == Seq::<Vec<u8>>::empty(),
            final(self).window() == old(self).window(),
            final(self).reliable() == old(self).reliable(),
            final(self).fragments() == old(self).fragments(),
            final(self).ordered() == old(self).ordered(),
            final(self).sequenced() == old(self).sequenced(),
            final(self).acks() == old(self).acks(),
            final(self).nacks() == old(self).nacks(),
    {
        let mut out: Vec<Vec<u8>> = Vec::new();
        std::mem::swap(&mut out, &mut self.ready);
        out
    }

    /// Hands out the sequence numbers to acknowledge, in ascending order
    /// and each once, and forgets them.
    pub fn flush_acks(&mut self) -> (out: Vec<u32>)
        requires
            old(self).wf(),
        ensures
            final(self).wf(),
            crate::protocol::ack::ascending(out@),
            out@.to_set() == old(self).acks(),
            final(self).acks() == Set::<u32>::empty(),
            final(self).nacks() == old(self).nacks(),
            final(self).window() == old(self).window(),
            final(self).ready() == old(self).ready(),
            Self::same_frames(*old(self), *final(self)),
    {
        let out = self.acks.take();
        assert(self.acks() =~= Set::<u32>::empty());
        out
    }

    /// Hands out the sequence numbers to report missing, in ascending
    /// order and each once, and forgets them.
    pub fn flush_nacks(&mut self) -> (out: Vec<u32>)
        requires
            old(self).wf(),
        ensures
            final(self).wf(),
            crate::protocol::ack::ascending(out@),
            out@.to_set() == old(self).nacks(),
            final(self).nacks() == Set::<u32>::empty(),
            final(self).acks() == old(self).acks(),
            final(self).window() == old(self).window(),
            final(self).ready() == old(self).ready(),
            Self::same_frames(*old(self), *final(self)),
    {
        let out = self.nacks.take();
        assert(self.nacks() =~= Set::<u32>::empty());
        out
    }

    /// Forgets every payload whose fragments have made no progress for
    /// `max_age` milliseconds.
    pub fn expire_fragments(&mut self, now: u64, max_age: u64)
        requires
            old(self).wf(),
        ensures
            final(self).wf(),
            final(self).fragments().compounds() == old(self).fragments().compounds().restrict(
                FragmentQueue::fresh(old(self).fragments().compounds(), now, max_age),
            ),
            final(self).window() == old(self).window(),
            final(self).reliable() == old(self).reliable(),
            final(self).acks() == old(self).acks(),
            final(self).nacks() == old(self).nacks(),
            Self::unrouted(*old(self), *final(self)),
    {
        self.fragments.expire(now, max_age);
    }
}

} // verus!
